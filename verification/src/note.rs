//! The note data model: an identifier, a one-line title, a body and a set of
//! tags extracted from inline markers.

use vstd::prelude::*;
use crate::text::{is_tag_char, is_tag_token, all_tag_chars, sorted_tags, chars_of};
use crate::digest::{groestl224, groestl224_of, zbase32_encode, zbase32_of};
use crate::codec::{first_marker, first_marker_from, tag_marker_at, has_marker, append_vec};
use vstd::utf8::encode_utf8;

verus! {

/// Mathematical model of a note. The tag list is kept strictly sorted, so it
/// represents a set: two well-formed notes with the same tags are equal.
#[verifier::ext_equal]
pub struct NoteView {
    pub id: Seq<char>,
    pub title: Seq<char>,
    pub text: Seq<char>,
    pub tags: Seq<Seq<char>>,
}

/// The note every decode starts from: all fields empty.
pub open spec fn empty_note_view() -> NoteView {
    NoteView { id: Seq::empty(), title: Seq::empty(), text: Seq::empty(), tags: Seq::empty() }
}

impl NoteView {
    /// The tags as the set they stand for.
    pub open spec fn tag_set(self) -> Set<Seq<char>> {
        self.tags.to_set()
    }

    /// Every tag is a well-shaped token and the list is strictly sorted.
    pub open spec fn wf(self) -> bool {
        &&& sorted_tags(self.tags)
        &&& forall|i: int| 0 <= i < self.tags.len() ==> is_tag_token(#[trigger] self.tags[i])
    }
}

/// The unit of content: one file of the notebook directory.
#[derive(Debug, Clone)]
pub struct Note {
    pub id: String,
    pub title: String,
    pub text: String,
    pub tags: Vec<String>,
}

impl View for Note {
    type V = NoteView;

    open spec fn view(&self) -> NoteView {
        NoteView { id: self.id@, title: self.title@, text: self.text@, tags: self.tags.deep_view() }
    }
}

impl Note {
    /// Field-wise copy; unlike the derived `Clone`, its contract is known to
    /// the verifier.
    pub fn duplicate(&self) -> (r: Note)
        ensures
            r@ == self@,
    {
        let mut tags: Vec<String> = Vec::new();
        let mut i: usize = 0;
        while i < self.tags.len()
            invariant
                0 <= i <= self.tags@.len(),
                tags@.len() == i,
                forall|j: int| 0 <= j < i ==> tags@[j] == #[trigger] self.tags@[j],
            decreases self.tags@.len() - i,
        {
            tags.push(self.tags[i].clone());
            i = i + 1;
        }
        proof {
            assert forall|j: int| 0 <= j < tags.deep_view().len() implies tags.deep_view()[j]
                == self.tags.deep_view()[j] by {
                assert(tags@[j] == self.tags@[j]);
            }
            assert(tags.deep_view() =~= self.tags.deep_view());
        }
        let r = Note {
            id: self.id.clone(),
            title: self.title.clone(),
            text: self.text.clone(),
            tags,
        };
        proof {
            assert(r@.tags =~= self@.tags);
        }
        r
    }
}

/// The byte stream that the identifier digest is computed over: the title,
/// the body, then every tag in the note's stored (sorted) order.
pub open spec fn uid_input(n: NoteView) -> Seq<u8> {
    encode_utf8(n.title) + encode_utf8(n.text) + tags_bytes(n.tags)
}

pub open spec fn tags_bytes(tags: Seq<Seq<char>>) -> Seq<u8>
    decreases tags.len(),
{
    if tags.len() == 0 {
        Seq::empty()
    } else {
        encode_utf8(tags[0]) + tags_bytes(tags.drop_first())
    }
}

/// The content-derived identifier of a note: the zbase32 text of the
/// Groestl-224 digest of its content.
pub open spec fn spec_uid(n: NoteView) -> Seq<char> {
    zbase32_of(groestl224_of(uid_input(n)))
}

/// An identifier is accepted as is when the wrapped form `" #" + id` holds a
/// tag marker, which is how an operator-supplied identifier is recognised.
pub open spec fn id_accepted(id: Seq<char>) -> bool {
    first_marker(seq![' ', '#'] + id) < (seq![' ', '#'] + id).len()
}

/// Identifier repair: an accepted identifier stays, anything else is
/// replaced by the content-derived one.
pub open spec fn repair(n: NoteView) -> NoteView {
    if id_accepted(n.id) {
        n
    } else {
        NoteView { id: spec_uid(n), ..n }
    }
}

proof fn lemma_tags_bytes_snoc(tags: Seq<Seq<char>>, i: int)
    requires
        0 <= i < tags.len(),
    ensures
        tags_bytes(tags.take(i + 1)) == tags_bytes(tags.take(i)) + encode_utf8(tags[i]),
    decreases i,
{
    if i == 0 {
        assert(tags.take(0) =~= Seq::<Seq<char>>::empty());
        assert(tags.take(1) =~= seq![tags[0]]);
        assert(tags.take(1).drop_first() =~= Seq::<Seq<char>>::empty());
        assert(tags_bytes(tags.take(1)) =~= encode_utf8(tags[0]));
        assert(tags_bytes(tags.take(0)) + encode_utf8(tags[0]) =~= encode_utf8(tags[0]));
    } else {
        let rest = tags.drop_first();
        lemma_tags_bytes_snoc(rest, i - 1);
        assert(tags.take(i + 1)[0] == tags[0]);
        assert(tags.take(i + 1).drop_first() =~= rest.take(i));
        assert(tags.take(i)[0] == tags[0]);
        assert(tags.take(i).drop_first() =~= rest.take(i - 1));
        assert(rest[i - 1] == tags[i]);
        assert(tags_bytes(tags.take(i + 1)) =~= tags_bytes(tags.take(i)) + encode_utf8(tags[i]));
    }
}

impl Note {
    /// The stable, content-derived identifier of this note: always a
    /// 45-character tag token, so it serves directly as a file stem.
    pub fn gen_uid(&self) -> (r: String)
        ensures
            r@ == spec_uid(self@),
            is_tag_token(r@),
            r@.len() == 45,
    {
        let mut data: Vec<u8> = Vec::new();
        data.extend_from_slice(self.title.as_str().as_bytes());
        data.extend_from_slice(self.text.as_str().as_bytes());
        proof {
            assert(data@ =~= encode_utf8(self@.title) + encode_utf8(self@.text));
            assert(self@.tags.take(0) =~= Seq::<Seq<char>>::empty());
        }
        let mut i: usize = 0;
        while i < self.tags.len()
            invariant
                0 <= i <= self.tags@.len(),
                self@.tags.len() == self.tags@.len(),
                forall|k: int| 0 <= k < self.tags@.len() ==> self@.tags[k] == #[trigger] self.tags@[k]@,
                data@ == encode_utf8(self@.title) + encode_utf8(self@.text) + tags_bytes(
                    self@.tags.take(i as int),
                ),
            decreases self.tags@.len() - i,
        {
            data.extend_from_slice(self.tags[i].as_str().as_bytes());
            proof {
                lemma_tags_bytes_snoc(self@.tags, i as int);
                assert(data@ =~= encode_utf8(self@.title) + encode_utf8(self@.text) + tags_bytes(
                    self@.tags.take(i + 1),
                ));
            }
            i = i + 1;
        }
        proof {
            assert(self@.tags.take(self.tags@.len() as int) =~= self@.tags);
        }
        let digest_bytes = groestl224(&data);
        let uid = zbase32_encode(&digest_bytes);
        proof {
            assert(uid@.len() == 45);
            assert forall|k: int| 0 <= k < uid@.len() implies is_tag_char(#[trigger] uid@[k]) by {
                assert(crate::digest::is_zbase32_char(uid@[k]));
            }
        }
        uid
    }

    /// Replace the identifier by the content-derived one unless the present
    /// identifier is shaped like an operator-supplied tag token. Either way
    /// the repaired identifier is accepted.
    pub fn fix_uid(&mut self)
        ensures
            final(self)@ == repair(old(self)@),
            id_accepted(final(self)@.id),
    {
        let mut w: Vec<char> = Vec::new();
        w.push(' ');
        w.push('#');
        let idc = chars_of(self.id.as_str());
        append_vec(&mut w, &idc);
        proof {
            assert(w@ =~= seq![' ', '#'] + old(self)@.id);
        }
        if !has_marker(&w) {
            let uid = self.gen_uid();
            proof {
                lemma_token_id_accepted(uid@);
            }
            self.id = uid;
            proof {
                assert(self@ =~= repair(old(self)@));
            }
        } else {
            proof {
                assert(self@ =~= repair(old(self)@));
            }
        }
    }

    /// The template note a create workflow starts from: placeholder
    /// identifier and title, and a body of advisory comment lines that
    /// explain the tag-marker syntax.
    pub fn templated() -> (r: Note)
        ensures
            r@ == template_view(),
            r@.wf(),
    {
        let r = Note {
            id: String::from_str("<uid optional>"),
            title: String::from_str("<title>"),
            text: String::from_str(
                "\n[comment]: # (Start a line with `# ` to make it the title line)\n[comment]: # (Write `#word` anywhere to tag the note, e.g. \"high priority #task\")",
            ),
            tags: Vec::new(),
        };
        proof {
            assert(r@.tags =~= Seq::<Seq<char>>::empty());
            assert(r@ =~= template_view());
        }
        r
    }
}

/// The template note's model: placeholder identifier and title, advisory
/// body, no tags.
pub open spec fn template_view() -> NoteView {
    NoteView {
        id: "<uid optional>"@,
        title: "<title>"@,
        text: template_body(),
        tags: Seq::empty(),
    }
}

/// The advisory body of the template note.
pub open spec fn template_body() -> Seq<char> {
    "\n[comment]: # (Start a line with `# ` to make it the title line)\n[comment]: # (Write `#word` anywhere to tag the note, e.g. \"high priority #task\")"@
}

/// A well-shaped tag token is accepted as an identifier: its wrapped form
/// `" #" + id` carries a tag marker right after the space.
pub proof fn lemma_token_id_accepted(id: Seq<char>)
    requires
        is_tag_token(id),
    ensures
        id_accepted(id),
{
    let w = seq![' ', '#'] + id;
    assert(w[0] == ' ');
    assert(w[1] == '#');
    assert(w[2] == id[0]);
    assert(is_tag_char(w[2]));
    assert(tag_marker_at(w, 1));
    assert(!tag_marker_at(w, 0));
    assert(first_marker_from(w, 0) == first_marker_from(w, 1));
    assert(first_marker_from(w, 1) == 1);
}

/// Identifier generation is deterministic: the generated identifier is a
/// function of the note's title, body and tag list alone, so two notes that
/// agree on those fields generate the same identifier.
pub proof fn lemma_uid_deterministic(a: NoteView, b: NoteView)
    requires
        a.title == b.title,
        a.text == b.text,
        a.tags == b.tags,
    ensures
        spec_uid(a) == spec_uid(b),
{
}

impl Default for Note {
    /// The empty note: all fields empty.
    fn default() -> (r: Note)
        ensures
            r@ == empty_note_view(),
            r@.wf(),
    {
        let r = Note { id: String::new(), title: String::new(), text: String::new(), tags: Vec::new() };
        proof {
            assert(r@.tags =~= Seq::<Seq<char>>::empty());
        }
        r
    }
}

} // verus!
