//! The notebook index: the full set of notes keyed by identifier, set-algebra
//! queries over tags, and the decisions of the create/edit workflow.

use vstd::prelude::*;
use crate::err::{Error, ErrorKind};
use crate::note::{Note, NoteView, repair, template_view};
use crate::codec::{decode, encode, spec_decode, spec_encode, insert_tag, lemma_insert_tag};
use crate::codec::insert_sorted;
use crate::text::{chars_of, string_of, contains_sub, has_substring, lemma_lex_connected, lex_lt};
use crate::text::sorted_tags;

verus! {

/// What the external editor round ended with: a failed run, or the saved
/// scratch text.
pub enum EditorOutcome {
    Failure,
    Saved(String),
}

/// The note one directory entry contributes: the decoded content, with the
/// file stem as identifier when the content carries none.
pub open spec fn entry_model(stem: Seq<char>, content: Seq<char>) -> NoteView {
    let d = spec_decode(content);
    if d.id.len() == 0 {
        NoteView { id: stem, ..d }
    } else {
        d
    }
}

/// Folding a directory listing into an index, entry by entry.
pub open spec fn load_fold(models: Seq<NoteView>, entries: Seq<(Seq<char>, Seq<char>)>) -> Seq<
    NoteView,
>
    decreases entries.len(),
{
    if entries.len() == 0 {
        models
    } else {
        load_fold(add_note(models, entry_model(entries[0].0, entries[0].1)), entries.drop_first())
    }
}

/// The stems and contents of a listing, as sequences.
pub open spec fn entry_views(entries: Seq<(String, String)>) -> Seq<(Seq<char>, Seq<char>)> {
    Seq::new(entries.len(), |i: int| (entries[i].0@, entries[i].1@))
}

/// Whether a note's tag list holds this tag.
pub(crate) fn note_carries(note: &Note, tag: &String) -> (r: bool)
    ensures
        r == note@.tags.contains(tag@),
{
    let mut j: usize = 0;
    while j < note.tags.len()
        invariant
            0 <= j <= note.tags@.len(),
            note@.tags.len() == note.tags@.len(),
            forall|k: int| 0 <= k < note.tags@.len() ==> note@.tags[k] == #[trigger] note.tags@[k]@,
            forall|k: int| 0 <= k < j ==> note@.tags[k] != tag@,
        decreases note.tags@.len() - j,
    {
        if note.tags[j] == *tag {
            proof {
                assert(note@.tags[j as int] == tag@);
            }
            return true;
        }
        j = j + 1;
    }
    proof {
        if note@.tags.contains(tag@) {
            let k = choose|k: int| 0 <= k < note@.tags.len() && note@.tags[k] == tag@;
        }
    }
    false
}

/// Whether the string vector holds this string.
pub(crate) fn contains_string(v: &Vec<String>, x: &String) -> (r: bool)
    ensures
        r == v.deep_view().contains(x@),
{
    let mut j: usize = 0;
    while j < v.len()
        invariant
            0 <= j <= v@.len(),
            v.deep_view().len() == v@.len(),
            forall|k: int| 0 <= k < v@.len() ==> v.deep_view()[k] == #[trigger] v@[k]@,
            forall|k: int| 0 <= k < j ==> v.deep_view()[k] != x@,
        decreases v@.len() - j,
    {
        if v[j] == *x {
            proof {
                assert(v.deep_view()[j as int] == x@);
            }
            return true;
        }
        j = j + 1;
    }
    proof {
        if v.deep_view().contains(x@) {
            let k = choose|k: int| 0 <= k < v.deep_view().len() && v.deep_view()[k] == x@;
        }
    }
    false
}

/// First position in `models` holding a note with this identifier, or
/// `models.len()` if there is none.
pub open spec fn find_id_from(models: Seq<NoteView>, id: Seq<char>, i: int) -> int
    decreases models.len() - i,
{
    if i >= models.len() {
        models.len() as int
    } else if models[i].id == id {
        i
    } else {
        find_id_from(models, id, i + 1)
    }
}

pub open spec fn find_id(models: Seq<NoteView>, id: Seq<char>) -> int {
    find_id_from(models, id, 0)
}

pub proof fn lemma_find_id_bounds(models: Seq<NoteView>, id: Seq<char>, i: int)
    requires
        0 <= i <= models.len(),
    ensures
        i <= find_id_from(models, id, i) <= models.len(),
        find_id_from(models, id, i) < models.len() ==> models[find_id_from(models, id, i)].id
            == id,
        forall|k: int| i <= k < find_id_from(models, id, i) ==> models[k].id != id,
    decreases models.len() - i,
{
    if i < models.len() && models[i].id != id {
        lemma_find_id_bounds(models, id, i + 1);
    }
}

pub proof fn lemma_find_id_is(models: Seq<NoteView>, id: Seq<char>, i: int, m: int)
    requires
        0 <= i <= m <= models.len(),
        forall|k: int| i <= k < m ==> models[k].id != id,
        m < models.len() ==> models[m].id == id,
    ensures
        find_id_from(models, id, i) == if m < models.len() {
            m
        } else {
            models.len() as int
        },
    decreases m - i,
{
    if i < m {
        lemma_find_id_is(models, id, i + 1, m);
    }
}

/// Taking one more element inserts exactly it into the prefix's element set.
pub proof fn lemma_take_to_set_snoc(s: Seq<Seq<char>>, j: int)
    requires
        0 <= j < s.len(),
    ensures
        s.take(j + 1).to_set() == s.take(j).to_set().insert(s[j]),
{
    broadcast use vstd::seq_lib::group_seq_properties;

    assert forall|x: Seq<char>|
        s.take(j + 1).to_set().contains(x) == s.take(j).to_set().insert(s[j]).contains(x) by {
        if s.take(j + 1).to_set().contains(x) {
            let k = choose|k: int| 0 <= k < s.take(j + 1).len() && (#[trigger] s.take(j + 1)[k]) == x;
            if k < j {
                assert(s.take(j)[k] == x);
                assert(s.take(j).to_set().contains(x));
            } else {
                assert(x == s[j]);
            }
        } else {
            if s.take(j).to_set().contains(x) {
                let k = choose|k: int| 0 <= k < s.take(j).len() && (#[trigger] s.take(j)[k]) == x;
                assert(s.take(j + 1)[k] == x);
                assert(s.take(j + 1).to_set().contains(x));
            }
            if x == s[j] {
                assert(s.take(j + 1)[j] == x);
                assert(s.take(j + 1).to_set().contains(x));
            }
        }
    }
    assert(s.take(j + 1).to_set() =~= s.take(j).to_set().insert(s[j]));
}

/// Insert-or-replace by identifier.
pub open spec fn add_note(models: Seq<NoteView>, n: NoteView) -> Seq<NoteView> {
    let i = find_id(models, n.id);
    if i < models.len() {
        models.update(i, n)
    } else {
        models.push(n)
    }
}

/// The in-memory index over a directory of notes.
#[derive(Debug)]
pub struct Notebook {
    notes: Vec<Note>,
    dir_path: String,
}

impl Notebook {
    /// The notes as a sequence of models, in storage order.
    pub closed spec fn models(self) -> Seq<NoteView> {
        Seq::new(self.notes@.len() as nat, |i: int| self.notes@[i]@)
    }

    /// The backing directory path.
    pub closed spec fn spec_root(self) -> Seq<char> {
        self.dir_path@
    }

    /// Identifiers are unique and every note is well formed.
    pub open spec fn wf(self) -> bool {
        &&& forall|i: int, j: int|
            0 <= i < j < self.models().len() ==> self.models()[i].id != self.models()[j].id
        &&& forall|i: int| 0 <= i < self.models().len() ==> (#[trigger] self.models()[i]).wf()
    }

    pub open spec fn has_id(self, id: Seq<char>) -> bool {
        exists|i: int| 0 <= i < self.models().len() && (#[trigger] self.models()[i]).id == id
    }

    /// All known identifiers.
    pub open spec fn id_set(self) -> Set<Seq<char>> {
        Set::new(|id: Seq<char>| self.has_id(id))
    }

    /// The note stored under a known identifier.
    pub open spec fn note_of(self, id: Seq<char>) -> NoteView {
        self.models()[find_id(self.models(), id)]
    }

    /// Whether the note stored under `id` carries `tag`.
    pub open spec fn carries(self, id: Seq<char>, tag: Seq<char>) -> bool {
        self.has_id(id) && self.note_of(id).tags.contains(tag)
    }

    /// The identifiers of the notes carrying a tag.
    pub open spec fn tag_holders(self, tag: Seq<char>) -> Set<Seq<char>> {
        Set::new(|id: Seq<char>| self.carries(id, tag))
    }

    /// A tag is known when some note carries it: exactly when the lazily
    /// built tag index would have an entry for it.
    pub open spec fn tag_known(self, tag: Seq<char>) -> bool {
        exists|i: int|
            0 <= i < self.models().len() && (#[trigger] self.models()[i]).tags.contains(tag)
    }

    /// A known tag expands to its holders; an unknown one to the singleton of
    /// its own text, which lets a caller query by raw identifier.
    pub open spec fn expansion(self, tag: Seq<char>) -> Set<Seq<char>> {
        if self.tag_known(tag) {
            self.tag_holders(tag)
        } else {
            set![tag]
        }
    }

    /// Union of the expansions of a list of tags.
    pub open spec fn expansions(self, tags: Seq<Seq<char>>) -> Set<Seq<char>>
        decreases tags.len(),
    {
        if tags.len() == 0 {
            Set::empty()
        } else {
            self.expansion(tags[0]).union(self.expansions(tags.drop_first()))
        }
    }

    /// The identifiers a query selects: the union of the include expansions
    /// (all identifiers when none is given) minus the union of the exclude
    /// expansions.
    pub open spec fn selection(self, incl: Seq<Seq<char>>, excl: Seq<Seq<char>>) -> Set<Seq<char>> {
        (if incl.len() == 0 {
            self.id_set()
        } else {
            self.expansions(incl)
        }).difference(self.expansions(excl))
    }

    pub proof fn lemma_expansions_member(self, tags: Seq<Seq<char>>, id: Seq<char>)
        ensures
            self.expansions(tags).contains(id) <==> exists|k: int|
                0 <= k < tags.len() && #[trigger] self.expansion(tags[k]).contains(id),
        decreases tags.len(),
    {
        if tags.len() > 0 {
            self.lemma_expansions_member(tags.drop_first(), id);
            if self.expansion(tags[0]).contains(id) {
                assert(self.expansion(tags[0]).contains(id) && 0 <= 0 < tags.len());
            }
            if self.expansions(tags.drop_first()).contains(id) {
                let k = choose|k: int|
                    0 <= k < tags.drop_first().len() && #[trigger] self.expansion(
                        tags.drop_first()[k],
                    ).contains(id);
                assert(tags[k + 1] == tags.drop_first()[k]);
                assert(self.expansion(tags[k + 1]).contains(id));
            }
            if exists|k: int| 0 <= k < tags.len() && #[trigger] self.expansion(tags[k]).contains(id) {
                let k = choose|k: int|
                    0 <= k < tags.len() && #[trigger] self.expansion(tags[k]).contains(id);
                if k > 0 {
                    assert(tags.drop_first()[k - 1] == tags[k]);
                    assert(self.expansion(tags.drop_first()[k - 1]).contains(id));
                }
            }
        }
    }

    /// Whether a note with this identifier is known.
    pub fn has(&self, tag: &String) -> (r: bool)
        ensures
            r == self.has_id(tag@),
    {
        let mut i: usize = 0;
        while i < self.notes.len()
            invariant
                0 <= i <= self.notes@.len(),
                forall|k: int| 0 <= k < i ==> (#[trigger] self.models()[k]).id != tag@,
            decreases self.notes@.len() - i,
        {
            if self.notes[i].id == *tag {
                proof {
                    assert(self.models()[i as int].id == tag@);
                }
                return true;
            }
            i = i + 1;
        }
        false
    }

    /// Index of the note with this identifier, if any.
    fn position_of(&self, id: &String) -> (r: Option<usize>)
        ensures
            match r {
                Some(i) => i == find_id(self.models(), id@) && i < self.models().len(),
                None => find_id(self.models(), id@) == self.models().len(),
            },
    {
        let mut i: usize = 0;
        while i < self.notes.len()
            invariant
                0 <= i <= self.notes@.len(),
                forall|k: int| 0 <= k < i ==> (#[trigger] self.models()[k]).id != id@,
            decreases self.notes@.len() - i,
        {
            if self.notes[i].id == *id {
                proof {
                    lemma_find_id_is(self.models(), id@, 0, i as int);
                }
                return Some(i);
            }
            i = i + 1;
        }
        proof {
            lemma_find_id_is(self.models(), id@, 0, self.models().len() as int);
        }
        None
    }

    /// In a well-formed notebook, every stored note is found at its own
    /// position.
    pub proof fn lemma_note_of_index(self, i: int)
        requires
            self.wf(),
            0 <= i < self.models().len(),
        ensures
            find_id(self.models(), self.models()[i].id) == i,
            self.note_of(self.models()[i].id) == self.models()[i],
            self.has_id(self.models()[i].id),
    {
        assert forall|k: int| 0 <= k < i implies self.models()[k].id != self.models()[i].id by {}
        lemma_find_id_is(self.models(), self.models()[i].id, 0, i);
    }

    /// Whether some note carries this tag.
    pub fn known_tag(&self, tag: &String) -> (r: bool)
        ensures
            r == self.tag_known(tag@),
    {
        let mut i: usize = 0;
        while i < self.notes.len()
            invariant
                0 <= i <= self.notes@.len(),
                forall|k: int| 0 <= k < i ==> !(#[trigger] self.models()[k]).tags.contains(tag@),
            decreases self.notes@.len() - i,
        {
            if note_carries(&self.notes[i], tag) {
                proof {
                    assert(self.models()[i as int].tags.contains(tag@));
                }
                return true;
            }
            i = i + 1;
        }
        false
    }

    /// Whether `cand` lies in the expansion of `tag`.
    fn in_expansion(&self, tag: &String, cand: &String) -> (r: bool)
        requires
            self.wf(),
        ensures
            r == self.expansion(tag@).contains(cand@),
    {
        if self.known_tag(tag) {
            match self.position_of(cand) {
                Some(i) => {
                    proof {
                        lemma_find_id_bounds(self.models(), cand@, 0);
                        assert(self.has_id(cand@));
                    }
                    note_carries(&self.notes[i], tag)
                },
                None => {
                    proof {
                        if self.has_id(cand@) {
                            let k = choose|k: int|
                                0 <= k < self.models().len() && (#[trigger] self.models()[k]).id
                                    == cand@;
                            lemma_find_id_bounds(self.models(), cand@, 0);
                        }
                    }
                    false
                },
            }
        } else {
            *cand == *tag
        }
    }

    /// Whether `cand` lies in the union of the expansions of `tags`.
    fn in_expansions(&self, tags: &Vec<String>, cand: &String) -> (r: bool)
        requires
            self.wf(),
        ensures
            r == self.expansions(tags.deep_view()).contains(cand@),
    {
        let ghost dv = tags.deep_view();
        let mut k: usize = 0;
        while k < tags.len()
            invariant
                0 <= k <= tags@.len(),
                dv == tags.deep_view(),
                dv.len() == tags@.len(),
                forall|j: int| 0 <= j < tags@.len() ==> dv[j] == #[trigger] tags@[j]@,
                self.wf(),
                forall|j: int| 0 <= j < k ==> !(#[trigger] self.expansion(dv[j]).contains(cand@)),
            decreases tags@.len() - k,
        {
            if self.in_expansion(&tags[k], cand) {
                proof {
                    self.lemma_expansions_member(dv, cand@);
                }
                return true;
            }
            k = k + 1;
        }
        proof {
            self.lemma_expansions_member(dv, cand@);
        }
        false
    }

    /// Whether `cand` lies in the selection of a query.
    fn selected(&self, cand: &String, tags: &Vec<String>, no_tags: &Vec<String>) -> (r: bool)
        requires
            self.wf(),
        ensures
            r == self.selection(tags.deep_view(), no_tags.deep_view()).contains(cand@),
    {
        let base = if tags.len() == 0 {
            proof {
                assert(tags.deep_view().len() == 0);
            }
            self.has(cand)
        } else {
            proof {
                assert(tags.deep_view().len() != 0);
            }
            self.in_expansions(tags, cand)
        };
        let ex = self.in_expansions(no_tags, cand);
        base && !ex
    }

    /// The notes a query selects: those whose identifier lies in the
    /// selection. Their order follows the store; each appears once.
    pub fn query_and(&self, tags: &Vec<String>, no_tags: &Vec<String>) -> (r: Result<
        Vec<Note>,
        Error,
    >)
        requires
            self.wf(),
        ensures
            r is Ok,
            forall|k: int|
                0 <= k < r->Ok_0@.len() ==> {
                    let n = (#[trigger] r->Ok_0@[k])@;
                    &&& self.has_id(n.id)
                    &&& n == self.note_of(n.id)
                    &&& self.selection(tags.deep_view(), no_tags.deep_view()).contains(n.id)
                },
            forall|id: Seq<char>|
                #![trigger self.has_id(id)]
                self.selection(tags.deep_view(), no_tags.deep_view()).contains(id) && self.has_id(
                    id,
                ) ==> exists|k: int| 0 <= k < r->Ok_0@.len() && (#[trigger] r->Ok_0@[k])@.id == id,
            forall|k: int, l: int|
                0 <= k < l < r->Ok_0@.len() ==> r->Ok_0@[k]@.id != r->Ok_0@[l]@.id,
    {
        let ghost sel = self.selection(tags.deep_view(), no_tags.deep_view());
        let mut out: Vec<Note> = Vec::new();
        let mut i: usize = 0;
        while i < self.notes.len()
            invariant
                0 <= i <= self.notes@.len(),
                self.wf(),
                sel == self.selection(tags.deep_view(), no_tags.deep_view()),
                forall|k: int|
                    0 <= k < out@.len() ==> {
                        let n = (#[trigger] out@[k])@;
                        &&& sel.contains(n.id)
                        &&& self.has_id(n.id)
                        &&& n == self.note_of(n.id)
                        &&& 0 <= find_id(self.models(), n.id) < i
                    },
                forall|j: int|
                    0 <= j < i && sel.contains((#[trigger] self.models()[j]).id) ==> exists|k: int|
                        0 <= k < out@.len() && (#[trigger] out@[k])@.id == self.models()[j].id,
                forall|k: int, l: int| 0 <= k < l < out@.len() ==> out@[k]@.id != out@[l]@.id,
            decreases self.notes@.len() - i,
        {
            let keep = self.selected(&self.notes[i].id, tags, no_tags);
            proof {
                self.lemma_note_of_index(i as int);
            }
            if keep {
                let copy = self.notes[i].duplicate();
                let ghost prev = out@;
                out.push(copy);
                proof {
                    let m = prev.len() as int;
                    let cur = self.models()[i as int];
                    assert(out@[m]@ == cur);
                    assert(find_id(self.models(), cur.id) == i);
                    assert forall|k: int| 0 <= k < out@.len() implies {
                        let n = (#[trigger] out@[k])@;
                        &&& sel.contains(n.id)
                        &&& self.has_id(n.id)
                        &&& n == self.note_of(n.id)
                        &&& 0 <= find_id(self.models(), n.id) < i + 1
                    } by {
                        if k < m {
                            assert(out@[k] == prev[k]);
                        }
                    }
                    assert forall|k: int, l: int|
                        0 <= k < l < out@.len() implies out@[k]@.id != out@[l]@.id by {
                        if l == m {
                            assert(out@[k] == prev[k]);
                            assert(find_id(self.models(), out@[k]@.id) < i);
                        } else {
                            assert(out@[k] == prev[k] && out@[l] == prev[l]);
                        }
                    }
                    assert forall|j: int|
                        0 <= j < i + 1 && sel.contains(
                            (#[trigger] self.models()[j]).id,
                        ) implies exists|k: int|
                        0 <= k < out@.len() && (#[trigger] out@[k])@.id == self.models()[j].id by {
                        if j < i {
                            let k = choose|k: int|
                                0 <= k < prev.len() && (#[trigger] prev[k])@.id
                                    == self.models()[j].id;
                            assert(out@[k]@.id == self.models()[j].id);
                        } else {
                            assert(out@[m]@.id == cur.id);
                        }
                    }
                }
            }
            i = i + 1;
        }
        proof {
            assert forall|id: Seq<char>|
                #![trigger self.has_id(id)]
                self.selection(tags.deep_view(), no_tags.deep_view()).contains(id) && self.has_id(
                    id,
                ) implies exists|k: int| 0 <= k < out@.len() && (#[trigger] out@[k])@.id == id by {
                let j = choose|j: int|
                    0 <= j < self.models().len() && (#[trigger] self.models()[j]).id == id;
                assert(sel.contains(self.models()[j].id));
            }
        }
        let ghost snapshot = out@;
        let res: Result<Vec<Note>, Error> = Ok(out);
        proof {
            assert(res->Ok_0@ == snapshot);
            assert forall|id: Seq<char>|
                #![trigger self.has_id(id)]
                self.selection(tags.deep_view(), no_tags.deep_view()).contains(id) && self.has_id(
                    id,
                ) implies exists|k: int|
                0 <= k < res->Ok_0@.len() && (#[trigger] res->Ok_0@[k])@.id == id by {
                let k = choose|k: int| 0 <= k < snapshot.len() && (#[trigger] snapshot[k])@.id == id;
                assert(res->Ok_0@[k]@.id == id);
            }
        }
        res
    }

    /// The identifiers of all notes, in storage order.
    pub fn identifiers(&self) -> (r: Vec<String>)
        ensures
            r.deep_view().len() == self.models().len(),
            forall|k: int|
                0 <= k < self.models().len() ==> r.deep_view()[k] == (
                #[trigger] self.models()[k]).id,
    {
        let mut r: Vec<String> = Vec::new();
        let mut i: usize = 0;
        while i < self.notes.len()
            invariant
                0 <= i <= self.notes@.len(),
                r.deep_view().len() == i,
                forall|k: int| 0 <= k < i ==> r.deep_view()[k] == (#[trigger] self.models()[k]).id,
            decreases self.notes@.len() - i,
        {
            let ghost prev = r.deep_view();
            r.push(self.notes[i].id.clone());
            proof {
                assert forall|k: int| 0 <= k < i + 1 implies r.deep_view()[k] == (
                #[trigger] self.models()[k]).id by {
                    if k < i {
                        assert(r.deep_view()[k] == r@[k]@);
                        assert(prev[k] == r@[k]@);
                    } else {
                        assert(r.deep_view()[k] == r@[k]@);
                    }
                }
            }
            i = i + 1;
        }
        r
    }

    /// Expand a tag to the identifiers carrying it, or to the singleton of
    /// its own text when no note carries it.
    pub fn expand_tag(&self, tag: &String) -> (r: Vec<String>)
        requires
            self.wf(),
        ensures
            r.deep_view().to_set() == self.expansion(tag@),
            forall|k: int, l: int|
                0 <= k < l < r.deep_view().len() ==> r.deep_view()[k] != r.deep_view()[l],
    {
        let mut r: Vec<String> = Vec::new();
        if self.known_tag(tag) {
            let mut i: usize = 0;
            while i < self.notes.len()
                invariant
                    0 <= i <= self.notes@.len(),
                    self.wf(),
                    self.tag_known(tag@),
                    forall|k: int|
                        0 <= k < r@.len() ==> {
                            let id = (#[trigger] r@[k])@;
                            &&& self.carries(id, tag@)
                            &&& 0 <= find_id(self.models(), id) < i
                        },
                    forall|j: int|
                        0 <= j < i && (#[trigger] self.models()[j]).tags.contains(tag@)
                            ==> r.deep_view().contains(self.models()[j].id),
                    forall|k: int, l: int| 0 <= k < l < r@.len() ==> r@[k]@ != r@[l]@,
                decreases self.notes@.len() - i,
            {
                proof {
                    self.lemma_note_of_index(i as int);
                }
                if note_carries(&self.notes[i], tag) {
                    let ghost prev = r@;
                    r.push(self.notes[i].id.clone());
                    proof {
                        let m = prev.len() as int;
                        let cur = self.models()[i as int];
                        assert(r@[m]@ == cur.id);
                        assert(self.carries(cur.id, tag@));
                        assert forall|k: int| 0 <= k < r@.len() implies {
                            let id = (#[trigger] r@[k])@;
                            &&& self.carries(id, tag@)
                            &&& 0 <= find_id(self.models(), id) < i + 1
                        } by {
                            if k < m {
                                assert(r@[k] == prev[k]);
                            }
                        }
                        assert forall|k: int, l: int|
                            0 <= k < l < r@.len() implies r@[k]@ != r@[l]@ by {
                            if l == m {
                                assert(r@[k] == prev[k]);
                                assert(find_id(self.models(), r@[k]@) < i);
                            } else {
                                assert(r@[k] == prev[k] && r@[l] == prev[l]);
                            }
                        }
                        assert forall|j: int|
                            0 <= j < i + 1 && (#[trigger] self.models()[j]).tags.contains(
                                tag@,
                            ) implies r.deep_view().contains(self.models()[j].id) by {
                            if j < i {
                                let k = choose|k: int|
                                    0 <= k < prev.len() && (#[trigger] prev[k])@
                                        == self.models()[j].id;
                                assert(r.deep_view()[k] == self.models()[j].id);
                            } else {
                                assert(r.deep_view()[m] == self.models()[j].id);
                            }
                        }
                    }
                } else {
                    proof {
                        assert(!self.models()[i as int].tags.contains(tag@));
                        if r.deep_view().contains(self.models()[i as int].id) {
                            let k = choose|k: int|
                                0 <= k < r.deep_view().len() && r.deep_view()[k]
                                    == self.models()[i as int].id;
                            assert(self.carries(r@[k]@, tag@));
                            self.lemma_note_of_index(i as int);
                        }
                    }
                }
                i = i + 1;
            }
            proof {
                assert forall|id: Seq<char>|
                    self.expansion(tag@).contains(id) implies r.deep_view().contains(id) by {
                    assert(self.carries(id, tag@));
                    let j = choose|j: int|
                        0 <= j < self.models().len() && (#[trigger] self.models()[j]).id == id;
                    self.lemma_note_of_index(j);
                    assert(self.note_of(id) == self.models()[j]);
                    assert(self.models()[j].tags.contains(tag@));
                }
                assert forall|k: int| 0 <= k < r.deep_view().len() implies self.expansion(
                    tag@,
                ).contains(r.deep_view()[k]) by {
                    assert(r.deep_view()[k] == r@[k]@);
                    assert(self.carries(r@[k]@, tag@));
                }
                assert forall|id: Seq<char>| r.deep_view().to_set().contains(id) implies self.expansion(
                    tag@,
                ).contains(id) by {
                    let k = choose|k: int|
                        0 <= k < r.deep_view().len() && r.deep_view()[k] == id;
                }
                assert(r.deep_view().to_set() =~= self.expansion(tag@));
            }
        } else {
            r.push(tag.clone());
            proof {
                assert(r.deep_view()[0] == tag@);
                assert forall|id: Seq<char>| r.deep_view().to_set().contains(id) implies set![
                    tag@,
                ].contains(id) by {
                    let k = choose|k: int|
                        0 <= k < r.deep_view().len() && r.deep_view()[k] == id;
                    assert(k == 0);
                }
                assert(r.deep_view().to_set() =~= set![tag@]);
            }
        }
        r
    }

    pub proof fn lemma_expansions_snoc(self, tags: Seq<Seq<char>>, k: int)
        requires
            0 <= k < tags.len(),
        ensures
            self.expansions(tags.take(k + 1)) == self.expansions(tags.take(k)).union(
                self.expansion(tags[k]),
            ),
    {
        assert forall|id: Seq<char>|
            #![trigger self.expansions(tags.take(k + 1)).contains(id)]
            self.expansions(tags.take(k + 1)).contains(id) == self.expansions(tags.take(k)).union(
                self.expansion(tags[k]),
            ).contains(id) by {
            self.lemma_expansions_member(tags.take(k + 1), id);
            self.lemma_expansions_member(tags.take(k), id);
            assert forall|j: int| 0 <= j < k + 1 implies tags.take(k + 1)[j] == tags[j] by {}
            if self.expansions(tags.take(k + 1)).contains(id) {
                let j = choose|j: int|
                    0 <= j < tags.take(k + 1).len() && #[trigger] self.expansion(
                        tags.take(k + 1)[j],
                    ).contains(id);
                if j < k {
                    assert(self.expansion(tags.take(k)[j]).contains(id));
                } else {
                    assert(self.expansion(tags[k]).contains(id));
                }
            }
            if self.expansions(tags.take(k)).contains(id) {
                let j = choose|j: int|
                    0 <= j < tags.take(k).len() && #[trigger] self.expansion(
                        tags.take(k)[j],
                    ).contains(id);
                assert(self.expansion(tags.take(k + 1)[j]).contains(id));
            }
            if self.expansion(tags[k]).contains(id) {
                assert(self.expansion(tags.take(k + 1)[k]).contains(id));
            }
        }
        assert(self.expansions(tags.take(k + 1)) =~= self.expansions(tags.take(k)).union(
            self.expansion(tags[k]),
        ));
    }

    /// Expand a whole query: the union of the include expansions (all
    /// identifiers when none is given) minus every exclude expansion. The
    /// result may hold raw tag text for an unknown include tag, exactly as
    /// the lazily built index would.
    pub fn expand_tag_as_and(&self, incl_tags: &Vec<String>, not_incl_tags: &Vec<String>) -> (r:
        Vec<String>)
        requires
            self.wf(),
        ensures
            r.deep_view().to_set() == self.selection(
                incl_tags.deep_view(),
                not_incl_tags.deep_view(),
            ),
            forall|k: int, l: int|
                0 <= k < l < r.deep_view().len() ==> r.deep_view()[k] != r.deep_view()[l],
    {
        let ghost incl_dv = incl_tags.deep_view();
        let mut base: Vec<String> = Vec::new();
        if incl_tags.len() == 0 {
            base = self.identifiers();
            proof {
                assert forall|id: Seq<char>|
                    base.deep_view().to_set().contains(id) == self.id_set().contains(id) by {
                    if base.deep_view().to_set().contains(id) {
                        let k = choose|k: int|
                            0 <= k < base.deep_view().len() && base.deep_view()[k] == id;
                        assert(self.models()[k].id == id);
                    }
                    if self.id_set().contains(id) {
                        let j = choose|j: int|
                            0 <= j < self.models().len() && (#[trigger] self.models()[j]).id == id;
                        assert(base.deep_view()[j] == id);
                    }
                }
                assert(base.deep_view().to_set() =~= self.id_set());
                assert forall|k: int, l: int|
                    0 <= k < l < base.deep_view().len() implies base.deep_view()[k]
                    != base.deep_view()[l] by {
                    assert(base.deep_view()[k] == self.models()[k].id);
                    assert(base.deep_view()[l] == self.models()[l].id);
                }
            }
        } else {
            let mut k: usize = 0;
            proof {
                assert(incl_dv.take(0) =~= Seq::<Seq<char>>::empty());
                assert(base.deep_view().to_set() =~= self.expansions(incl_dv.take(0)));
            }
            while k < incl_tags.len()
                invariant
                    0 <= k <= incl_tags@.len(),
                    self.wf(),
                    incl_dv == incl_tags.deep_view(),
                    incl_dv.len() == incl_tags@.len(),
                    forall|j: int| 0 <= j < incl_tags@.len() ==> incl_dv[j] == #[trigger] incl_tags@[j]@,
                    base.deep_view().to_set() == self.expansions(incl_dv.take(k as int)),
                    forall|a: int, b: int|
                        0 <= a < b < base.deep_view().len() ==> base.deep_view()[a]
                            != base.deep_view()[b],
                decreases incl_tags@.len() - k,
            {
                let exp = self.expand_tag(&incl_tags[k]);
                let ghost edv = exp.deep_view();
                let mut j: usize = 0;
                proof {
                    assert(edv.take(0) =~= Seq::<Seq<char>>::empty());
                    assert(base.deep_view().to_set() =~= self.expansions(incl_dv.take(k as int)).union(
                        edv.take(0).to_set(),
                    ));
                }
                while j < exp.len()
                    invariant
                        0 <= j <= exp@.len(),
                        self.wf(),
                        edv == exp.deep_view(),
                        edv.len() == exp@.len(),
                        base.deep_view().to_set() == self.expansions(incl_dv.take(k as int)).union(
                            edv.take(j as int).to_set(),
                        ),
                        forall|a: int, b: int|
                            0 <= a < b < base.deep_view().len() ==> base.deep_view()[a]
                                != base.deep_view()[b],
                    decreases exp@.len() - j,
                {
                    let ghost prevset = base.deep_view().to_set();
                    let ghost prev = base@;
                    let ghost prevdv = base.deep_view();
                    if !contains_string(&base, &exp[j]) {
                        base.push(exp[j].clone());
                        proof {
                            assert(base@[prev.len() as int]@ == edv[j as int]);
                            assert forall|a: int, b: int|
                                0 <= a < b < base.deep_view().len() implies base.deep_view()[a]
                                != base.deep_view()[b] by {
                                if b == prev.len() {
                                    assert(base.deep_view()[a] == base@[a]@);
                                    assert(base@[a] == prev[a]);
                                    assert(base.deep_view()[a] == prevdv[a]);
                                    assert(base.deep_view()[b] == base@[b]@);
                                    assert(base.deep_view()[b] == edv[j as int]);
                                    assert(!prevset.contains(edv[j as int]));
                                    assert(prevdv.contains(prevdv[a]));
                                    assert(prevset.contains(prevdv[a]));
                                } else {
                                    assert(base@[a] == prev[a] && base@[b] == prev[b]);
                                    assert(base.deep_view()[a] == base@[a]@);
                                    assert(base.deep_view()[b] == base@[b]@);
                                    assert(base.deep_view()[a] == prevdv[a]);
                                    assert(base.deep_view()[b] == prevdv[b]);
                                }
                            }
                            assert forall|x: Seq<char>|
                                base.deep_view().to_set().contains(x) == prevset.insert(
                                    edv[j as int],
                                ).contains(x) by {
                                if base.deep_view().to_set().contains(x) {
                                    let a = choose|a: int|
                                        0 <= a < base.deep_view().len() && base.deep_view()[a] == x;
                                    if a < prev.len() {
                                        assert(prevdv[a] == x);
                                        assert(prevdv.to_set().contains(x));
                                    }
                                } else {
                                    if prevset.contains(x) {
                                        let a = choose|a: int| 0 <= a < prevdv.len() && prevdv[a] == x;
                                        assert(base.deep_view()[a] == x);
                                    }
                                    if x == edv[j as int] {
                                        assert(base.deep_view()[prev.len() as int] == x);
                                    }
                                }
                            }
                            assert(base.deep_view().to_set() =~= prevset.insert(edv[j as int]));
                        }
                    } else {
                        proof {
                            assert(prevset.contains(edv[j as int]));
                            assert(base.deep_view().to_set() =~= prevset.insert(edv[j as int]));
                        }
                    }
                    proof {
                        lemma_take_to_set_snoc(edv, j as int);
                        assert(base.deep_view().to_set() =~= self.expansions(
                            incl_dv.take(k as int),
                        ).union(edv.take(j + 1).to_set()));
                    }
                    j = j + 1;
                }
                proof {
                    assert(edv.take(edv.len() as int) =~= edv);
                    self.lemma_expansions_snoc(incl_dv, k as int);
                    assert(incl_dv[k as int] == incl_tags@[k as int]@);
                    assert(base.deep_view().to_set() =~= self.expansions(incl_dv.take(k + 1)));
                }
                k = k + 1;
            }
            proof {
                assert(incl_dv.take(incl_dv.len() as int) =~= incl_dv);
            }
        }
        let ghost bdv = base.deep_view();
        let ghost exset = self.expansions(not_incl_tags.deep_view());
        let mut r: Vec<String> = Vec::new();
        let mut j: usize = 0;
        proof {
            assert(bdv.take(0) =~= Seq::<Seq<char>>::empty());
            assert(r.deep_view().to_set() =~= bdv.take(0).to_set().difference(exset));
        }
        while j < base.len()
            invariant
                0 <= j <= base@.len(),
                self.wf(),
                bdv == base.deep_view(),
                bdv.len() == base@.len(),
                exset == self.expansions(not_incl_tags.deep_view()),
                forall|a: int, b: int| 0 <= a < b < bdv.len() ==> bdv[a] != bdv[b],
                r.deep_view().to_set() == bdv.take(j as int).to_set().difference(exset),
                forall|a: int, b: int|
                    0 <= a < b < r.deep_view().len() ==> r.deep_view()[a] != r.deep_view()[b],
            decreases base@.len() - j,
        {
            let ghost prevset = r.deep_view().to_set();
            let ghost prev = r@;
            let ghost prevdv = r.deep_view();
            if !self.in_expansions(not_incl_tags, &base[j]) {
                r.push(base[j].clone());
                proof {
                    assert(r@[prev.len() as int]@ == bdv[j as int]);
                    assert forall|a: int, b: int|
                        0 <= a < b < r.deep_view().len() implies r.deep_view()[a]
                        != r.deep_view()[b] by {
                        if b == prev.len() {
                            assert(r.deep_view()[a] == r@[a]@);
                            assert(r@[a] == prev[a]);
                            assert(r.deep_view()[a] == prevdv[a]);
                            assert(r.deep_view()[b] == r@[b]@);
                            assert(r.deep_view()[b] == bdv[j as int]);
                            assert(prevdv.contains(prevdv[a]));
                            assert(prevset.contains(prevdv[a]));
                            let m = choose|m: int|
                                0 <= m < bdv.take(j as int).len() && bdv.take(j as int)[m]
                                    == prevdv[a];
                            assert(bdv[m] == prevdv[a]);
                        } else {
                            assert(r@[a] == prev[a] && r@[b] == prev[b]);
                            assert(r.deep_view()[a] == r@[a]@);
                            assert(r.deep_view()[b] == r@[b]@);
                            assert(r.deep_view()[a] == prevdv[a]);
                            assert(r.deep_view()[b] == prevdv[b]);
                        }
                    }
                    assert forall|x: Seq<char>|
                        r.deep_view().to_set().contains(x) == prevset.insert(
                            bdv[j as int],
                        ).contains(x) by {
                        if r.deep_view().to_set().contains(x) {
                            let a = choose|a: int|
                                0 <= a < r.deep_view().len() && r.deep_view()[a] == x;
                            if a < prev.len() {
                                assert(prevdv[a] == x);
                                assert(prevdv.to_set().contains(x));
                            }
                        } else {
                            if prevset.contains(x) {
                                let a = choose|a: int| 0 <= a < prevdv.len() && prevdv[a] == x;
                                assert(r.deep_view()[a] == x);
                            }
                            if x == bdv[j as int] {
                                assert(r.deep_view()[prev.len() as int] == x);
                            }
                        }
                    }
                    lemma_take_to_set_snoc(bdv, j as int);
                    assert(r.deep_view().to_set() =~= bdv.take(j + 1).to_set().difference(exset));
                }
            } else {
                proof {
                    lemma_take_to_set_snoc(bdv, j as int);
                    assert(r.deep_view().to_set() =~= bdv.take(j + 1).to_set().difference(exset));
                }
            }
            j = j + 1;
        }
        proof {
            assert(bdv.take(bdv.len() as int) =~= bdv);
            assert(r.deep_view().to_set() =~= self.selection(
                incl_tags.deep_view(),
                not_incl_tags.deep_view(),
            ));
        }
        r
    }

    /// Insert or replace a note in the index; tag associations follow the
    /// stored notes, so stale ones from an earlier version of the same
    /// identifier disappear with the replacement.
    pub fn add_to_index(&mut self, note: Note) -> (r: Result<(), Error>)
        requires
            old(self).wf(),
            note@.wf(),
        ensures
            final(self).wf(),
            final(self).models() == add_note(old(self).models(), note@),
            final(self).spec_root() == old(self).spec_root(),
            r is Ok,
    {
        let ghost prior = self.models();
        let pos = self.position_of(&note.id);
        match pos {
            Some(i) => {
                proof {
                    lemma_find_id_bounds(prior, note@.id, 0);
                }
                self.notes.set(i, note);
                proof {
                    assert(self.models() =~= add_note(prior, note@));
                    assert forall|a: int, b: int|
                        0 <= a < b < self.models().len() implies self.models()[a].id
                        != self.models()[b].id by {
                        assert(prior[a].id == if a == i {
                            prior[i as int].id
                        } else {
                            prior[a].id
                        });
                    }
                }
            },
            None => {
                self.notes.push(note);
                proof {
                    assert(self.models() =~= add_note(prior, note@));
                    lemma_find_id_bounds(prior, note@.id, 0);
                    assert forall|a: int, b: int|
                        0 <= a < b < self.models().len() implies self.models()[a].id
                        != self.models()[b].id by {
                        if b == prior.len() {
                            assert(self.models()[a] == prior[a]);
                            assert(prior[a].id != note@.id);
                        }
                    }
                }
            },
        }
        Ok(())
    }

    /// Build the index over a directory listing: decode every entry, fall
    /// back to the file stem when a decoded identifier is empty, and fold
    /// the notes into the index in listing order.
    pub fn on_entries(dir_path: &str, entries: &Vec<(String, String)>) -> (r: Result<
        Notebook,
        Error,
    >)
        ensures
            r is Ok,
            r->Ok_0.wf(),
            r->Ok_0.models() == load_fold(Seq::empty(), entry_views(entries@)),
            r->Ok_0.spec_root() == dir_path@,
    {
        let mut nb = Notebook { notes: Vec::new(), dir_path: String::from_str(dir_path) };
        let ghost evs = entry_views(entries@);
        proof {
            assert(nb.models() =~= Seq::<NoteView>::empty());
            assert(evs.skip(0) =~= evs);
        }
        let mut i: usize = 0;
        while i < entries.len()
            invariant
                0 <= i <= entries@.len(),
                evs == entry_views(entries@),
                evs.len() == entries@.len(),
                nb.wf(),
                nb.spec_root() == dir_path@,
                load_fold(Seq::empty(), evs) == load_fold(nb.models(), evs.skip(i as int)),
            decreases entries@.len() - i,
        {
            let mut note = decode(entries[i].1.as_str());
            if note.id.as_str().is_empty() {
                note.id = entries[i].0.clone();
            }
            proof {
                assert(note@ =~= entry_model(evs[i as int].0, evs[i as int].1));
            }
            let ghost before = nb.models();
            let added = nb.add_to_index(note);
            proof {
                assert(evs.skip(i as int)[0] == evs[i as int]);
                assert(evs.skip(i as int).drop_first() =~= evs.skip(i + 1));
                assert(load_fold(before, evs.skip(i as int)) == load_fold(
                    nb.models(),
                    evs.skip(i + 1),
                ));
            }
            i = i + 1;
        }
        proof {
            assert(evs.skip(evs.len() as int) =~= Seq::<(Seq<char>, Seq<char>)>::empty());
        }
        Ok(nb)
    }

    /// Merge the outcome of a create round: refuse a failed editor run and a
    /// vacuous note, otherwise repair the identifier and index the note. The
    /// returned note is what the caller must persist under its identifier;
    /// nothing is indexed on an error.
    pub fn iadd(&mut self, outcome: &EditorOutcome) -> (r: Result<Note, Error>)
        requires
            old(self).wf(),
        ensures
            final(self).wf(),
            final(self).spec_root() == old(self).spec_root(),
            outcome is Failure ==> r is Err && r->Err_0.kind == ErrorKind::EditorFailure
                && *final(self) == *old(self),
            outcome matches EditorOutcome::Saved(text) ==> {
                let cand = spec_decode(text@);
                if cand.title.len() == 0 && cand.text.len() == 0 {
                    r is Err && r->Err_0.kind == ErrorKind::EmptyNote && *final(self) == *old(self)
                } else {
                    &&& r is Ok
                    &&& r->Ok_0@ == repair(cand)
                    &&& final(self).models() == add_note(old(self).models(), repair(cand))
                }
            },
    {
        match outcome {
            EditorOutcome::Failure => Err(
                Error::new(ErrorKind::EditorFailure, "editor process finished with error"),
            ),
            EditorOutcome::Saved(text) => {
                let mut note = decode(text.as_str());
                if note.text.as_str().is_empty() && note.title.as_str().is_empty() {
                    return Err(Error::new(ErrorKind::EmptyNote, "empty note file"));
                }
                note.fix_uid();
                let copy = note.duplicate();
                let added = self.add_to_index(copy);
                Ok(note)
            },
        }
    }

    /// Merge the outcome of an edit round for a known target: a differing or
    /// absent identifier in the edited text is forced back to the target's,
    /// so an edit can never mint a second note. Nothing is indexed on an
    /// error.
    pub fn iedit_merge(&mut self, target_id: &String, outcome: &EditorOutcome) -> (r: Result<
        Note,
        Error,
    >)
        requires
            old(self).wf(),
        ensures
            final(self).wf(),
            final(self).spec_root() == old(self).spec_root(),
            outcome is Failure ==> r is Err && r->Err_0.kind == ErrorKind::EditorFailure
                && *final(self) == *old(self),
            outcome is Saved && !old(self).has_id(target_id@) ==> r is Err && r->Err_0.kind
                == ErrorKind::AmbiguousTarget && *final(self) == *old(self),
            outcome matches EditorOutcome::Saved(text) ==> old(self).has_id(target_id@) ==> {
                let forced = NoteView { id: target_id@, ..spec_decode(text@) };
                &&& r is Ok
                &&& r->Ok_0@ == repair(forced)
                &&& final(self).models() == add_note(old(self).models(), repair(forced))
            },
    {
        match outcome {
            EditorOutcome::Failure => Err(
                Error::new(ErrorKind::EditorFailure, "editor process finished with error"),
            ),
            EditorOutcome::Saved(text) => {
                if !self.has(target_id) {
                    return Err(
                        Error::new(ErrorKind::AmbiguousTarget, "edit target is not a known note"),
                    );
                }
                let mut note = decode(text.as_str());
                note.id = target_id.clone();
                proof {
                    assert(note@ =~= NoteView { id: target_id@, ..spec_decode(text@) });
                }
                note.fix_uid();
                let copy = note.duplicate();
                let added = self.add_to_index(copy);
                Ok(note)
            },
        }
    }

    /// The sorted vocabulary of all tags carried by any note.
    pub open spec fn spec_vocab(self) -> Seq<Seq<char>> {
        vocab_fold(Seq::empty(), self.models())
    }

    /// The vocabulary of existing tags, sorted and without duplicates.
    pub fn tags(&self) -> (r: Vec<String>)
        requires
            self.wf(),
        ensures
            r.deep_view() == self.spec_vocab(),
            sorted_tags(r.deep_view()),
            r.deep_view().to_set() == Set::new(|t: Seq<char>| self.tag_known(t)),
    {
        let ghost target = self.spec_vocab();
        let mut acc: Vec<Vec<char>> = Vec::new();
        proof {
            assert(acc.deep_view() =~= Seq::<Seq<char>>::empty());
            assert(self.models().skip(0) =~= self.models());
        }
        let mut i: usize = 0;
        while i < self.notes.len()
            invariant
                0 <= i <= self.notes@.len(),
                self.wf(),
                target == self.spec_vocab(),
                sorted_tags(acc.deep_view()),
                target == vocab_fold(acc.deep_view(), self.models().skip(i as int)),
            decreases self.notes@.len() - i,
        {
            let ghost curtags = self.models()[i as int].tags;
            proof {
                assert(self.models().skip(i as int)[0] == self.models()[i as int]);
                assert(self.models().skip(i as int).drop_first() =~= self.models().skip(i + 1));
                assert(curtags.skip(0) =~= curtags);
                assert(target == vocab_fold(
                    vocab_fold_tags(acc.deep_view(), curtags.skip(0)),
                    self.models().skip(i + 1),
                ));
            }
            let n = self.notes[i].tags.len();
            let mut j: usize = 0;
            while j < n
                invariant
                    0 <= j <= n,
                    self.wf(),
                    0 <= i < self.notes@.len(),
                    n == self.notes@[i as int].tags@.len(),
                    curtags == self.models()[i as int].tags,
                    curtags.len() == n,
                    target == self.spec_vocab(),
                    sorted_tags(acc.deep_view()),
                    target == vocab_fold(
                        vocab_fold_tags(acc.deep_view(), curtags.skip(j as int)),
                        self.models().skip(i as int + 1),
                    ),
                decreases n - j,
            {
                let tok = chars_of(self.notes[i].tags[j].as_str());
                let ghost accdv = acc.deep_view();
                proof {
                    assert(tok@ == curtags[j as int]);
                    assert(curtags.skip(j as int)[0] == curtags[j as int]);
                    assert(curtags.skip(j as int).drop_first() =~= curtags.skip(j + 1));
                    assert(vocab_fold_tags(accdv, curtags.skip(j as int)) == vocab_fold_tags(
                        insert_tag(accdv, curtags[j as int]),
                        curtags.skip(j + 1),
                    ));
                    lemma_insert_tag(accdv, curtags[j as int]);
                }
                insert_sorted(&mut acc, tok);
                j = j + 1;
            }
            proof {
                assert(curtags.skip(n as int) =~= Seq::<Seq<char>>::empty());
                assert(vocab_fold_tags(acc.deep_view(), curtags.skip(n as int)) == acc.deep_view());
            }
            i = i + 1;
        }
        proof {
            assert(self.models().skip(self.notes@.len() as int) =~= Seq::<NoteView>::empty());
            assert(target == acc.deep_view());
            lemma_vocab_fold(Seq::empty(), self.models());
            assert(Seq::<Seq<char>>::empty().to_set() =~= Set::<Seq<char>>::empty());
            assert forall|t: Seq<char>|
                acc.deep_view().to_set().contains(t) == self.tag_known(t) by {
                lemma_tags_union_member(self.models(), t);
            }
            assert(acc.deep_view().to_set() =~= Set::new(|t: Seq<char>| self.tag_known(t)));
        }
        let mut r: Vec<String> = Vec::new();
        let mut k: usize = 0;
        while k < acc.len()
            invariant
                0 <= k <= acc@.len(),
                r@.len() == k,
                forall|m: int| 0 <= m < k ==> r@[m]@ == #[trigger] acc.deep_view()[m],
            decreases acc@.len() - k,
        {
            let t = string_of(&acc[k]);
            proof {
                assert(acc@[k as int]@ == acc.deep_view()[k as int]);
            }
            r.push(t);
            k = k + 1;
        }
        proof {
            assert forall|m: int| 0 <= m < r.deep_view().len() implies r.deep_view()[m]
                == acc.deep_view()[m] by {
                assert(r.deep_view()[m] == r@[m]@);
            }
            assert(r.deep_view() =~= acc.deep_view());
        }
        r
    }

    /// The known tags whose text holds the given text as a substring.
    pub fn search_tags(&self, txt: &str) -> (r: Result<Vec<String>, Error>)
        requires
            self.wf(),
        ensures
            r is Ok,
            r->Ok_0.deep_view().to_set() == Set::new(
                |t: Seq<char>| self.tag_known(t) && has_substring(t, txt@),
            ),
            forall|k: int, l: int|
                0 <= k < l < r->Ok_0.deep_view().len() ==> r->Ok_0.deep_view()[k]
                    != r->Ok_0.deep_view()[l],
    {
        let vocab = self.tags();
        let ghost vdv = vocab.deep_view();
        let needle = chars_of(txt);
        let ghost want = Set::new(|t: Seq<char>| self.tag_known(t) && has_substring(t, txt@));
        let mut r: Vec<String> = Vec::new();
        let mut k: usize = 0;
        proof {
            assert(vdv.take(0) =~= Seq::<Seq<char>>::empty());
            assert(r.deep_view().to_set() =~= Set::new(
                |t: Seq<char>| vdv.take(0).to_set().contains(t) && has_substring(t, txt@),
            ));
        }
        while k < vocab.len()
            invariant
                0 <= k <= vocab@.len(),
                self.wf(),
                vdv == vocab.deep_view(),
                vdv.len() == vocab@.len(),
                sorted_tags(vdv),
                needle@ == txt@,
                r.deep_view().to_set() == Set::new(
                    |t: Seq<char>| vdv.take(k as int).to_set().contains(t) && has_substring(t, txt@),
                ),
                forall|a: int, b: int|
                    0 <= a < b < r.deep_view().len() ==> r.deep_view()[a] != r.deep_view()[b],
            decreases vocab@.len() - k,
        {
            let hay = chars_of(vocab[k].as_str());
            let ghost prev = r@;
            let ghost prevdv = r.deep_view();
            let ghost prevset = r.deep_view().to_set();
            if contains_sub(&hay, &needle) {
                r.push(vocab[k].clone());
                proof {
                    assert(hay@ == vdv[k as int]);
                    assert(r@[prev.len() as int]@ == vdv[k as int]);
                    assert forall|a: int, b: int|
                        0 <= a < b < r.deep_view().len() implies r.deep_view()[a]
                        != r.deep_view()[b] by {
                        if b == prev.len() {
                            assert(r.deep_view()[a] == r@[a]@);
                            assert(r@[a] == prev[a]);
                            assert(r.deep_view()[a] == prevdv[a]);
                            assert(r.deep_view()[b] == r@[b]@);
                            assert(r.deep_view()[b] == vdv[k as int]);
                            assert(prevdv.contains(prevdv[a]));
                            assert(prevset.contains(prevdv[a]));
                            let m = choose|m: int|
                                0 <= m < vdv.take(k as int).len() && (#[trigger] vdv.take(
                                    k as int,
                                )[m]) == prevdv[a];
                            assert(vdv[m] == prevdv[a]);
                            if prevdv[a] == vdv[k as int] {
                                assert(lex_lt(vdv[m], vdv[k as int]));
                                lemma_lex_connected(vdv[m], vdv[k as int]);
                            }
                        } else {
                            assert(r@[a] == prev[a] && r@[b] == prev[b]);
                            assert(r.deep_view()[a] == prevdv[a]);
                            assert(r.deep_view()[b] == prevdv[b]);
                        }
                    }
                    assert forall|x: Seq<char>|
                        r.deep_view().to_set().contains(x) == prevset.insert(
                            vdv[k as int],
                        ).contains(x) by {
                        if r.deep_view().to_set().contains(x) {
                            let a = choose|a: int|
                                0 <= a < r.deep_view().len() && r.deep_view()[a] == x;
                            if a < prev.len() {
                                assert(prevdv[a] == x);
                                assert(prevdv.to_set().contains(x));
                            }
                        } else {
                            if prevset.contains(x) {
                                let a = choose|a: int| 0 <= a < prevdv.len() && prevdv[a] == x;
                                assert(r.deep_view()[a] == x);
                            }
                            if x == vdv[k as int] {
                                assert(r.deep_view()[prev.len() as int] == x);
                            }
                        }
                    }
                    lemma_take_to_set_snoc(vdv, k as int);
                    assert(r.deep_view().to_set() =~= Set::new(
                        |t: Seq<char>|
                            vdv.take(k + 1).to_set().contains(t) && has_substring(t, txt@),
                    ));
                }
            } else {
                proof {
                    assert(hay@ == vdv[k as int]);
                    lemma_take_to_set_snoc(vdv, k as int);
                    assert(r.deep_view().to_set() =~= Set::new(
                        |t: Seq<char>|
                            vdv.take(k + 1).to_set().contains(t) && has_substring(t, txt@),
                    ));
                }
            }
            k = k + 1;
        }
        proof {
            assert(vdv.take(vdv.len() as int) =~= vdv);
            assert forall|t: Seq<char>| r.deep_view().to_set().contains(t) == want.contains(t) by {}
            assert(r.deep_view().to_set() =~= want);
        }
        Ok(r)
    }

    /// The advisory comment block listing the existing tags and notes.
    pub open spec fn spec_comments(self) -> Seq<char> {
        "[comment]: # (List of existing tags:)\n"@ + tag_comment_lines(self.spec_vocab())
            + "[comment]: # (List of existing notes:)\n"@ + note_comment_lines(self.models())
    }

    /// The scratch file handed to the external editor: the encoded base note
    /// followed by the advisory listing.
    pub open spec fn spec_scratch(self, base: NoteView) -> Seq<char> {
        spec_encode(base) + self.spec_comments()
    }

    /// Build the scratch text for an editor round over `base`.
    pub fn scratch_text(&self, base: &Note) -> (r: String)
        requires
            self.wf(),
        ensures
            r@ == self.spec_scratch(base@),
    {
        let mut s = encode(base);
        s.append("[comment]: # (List of existing tags:)\n");
        let ghost pre1 = spec_encode(base@) + "[comment]: # (List of existing tags:)\n"@;
        proof {
            assert(s@ == pre1);
        }
        let vocab = self.tags();
        let ghost vdv = vocab.deep_view();
        let mut k: usize = 0;
        proof {
            assert(vdv.skip(0) =~= vdv);
        }
        while k < vocab.len()
            invariant
                0 <= k <= vocab@.len(),
                vdv == vocab.deep_view(),
                vdv.len() == vocab@.len(),
                s@ + tag_comment_lines(vdv.skip(k as int)) == pre1 + tag_comment_lines(vdv),
            decreases vocab@.len() - k,
        {
            let ghost before = s@;
            s.append("[comment]: # (#");
            s.append(vocab[k].as_str());
            s.append(")\n");
            proof {
                assert(vocab@[k as int]@ == vdv[k as int]);
                assert(s@ =~= before + tag_comment_line(vdv[k as int]));
                assert(vdv.skip(k as int)[0] == vdv[k as int]);
                assert(vdv.skip(k as int).drop_first() =~= vdv.skip(k + 1));
                assert(tag_comment_lines(vdv.skip(k as int)) == tag_comment_line(vdv[k as int])
                    + tag_comment_lines(vdv.skip(k + 1)));
                assert(s@ + tag_comment_lines(vdv.skip(k + 1)) =~= before + tag_comment_lines(
                    vdv.skip(k as int),
                ));
            }
            k = k + 1;
        }
        proof {
            assert(vdv.skip(vdv.len() as int) =~= Seq::<Seq<char>>::empty());
            assert(s@ + Seq::<char>::empty() =~= s@);
            assert(s@ == pre1 + tag_comment_lines(vdv));
        }
        s.append("[comment]: # (List of existing notes:)\n");
        let ghost pre2 = pre1 + tag_comment_lines(vdv)
            + "[comment]: # (List of existing notes:)\n"@;
        proof {
            assert(s@ =~= pre2);
            assert(self.models().skip(0) =~= self.models());
        }
        let mut i: usize = 0;
        while i < self.notes.len()
            invariant
                0 <= i <= self.notes@.len(),
                s@ + note_comment_lines(self.models().skip(i as int)) == pre2 + note_comment_lines(
                    self.models(),
                ),
            decreases self.notes@.len() - i,
        {
            let ghost before = s@;
            s.append("[comment]: # (#");
            s.append(self.notes[i].id.as_str());
            s.append(" - ");
            s.append(self.notes[i].title.as_str());
            s.append(")\n");
            proof {
                let cur = self.models()[i as int];
                assert(self.notes@[i as int].id@ == cur.id);
                assert(self.notes@[i as int].title@ == cur.title);
                assert(s@ =~= before + note_comment_line(cur));
                assert(self.models().skip(i as int)[0] == cur);
                assert(self.models().skip(i as int).drop_first() =~= self.models().skip(i + 1));
                assert(note_comment_lines(self.models().skip(i as int)) == note_comment_line(cur)
                    + note_comment_lines(self.models().skip(i + 1)));
                assert(s@ + note_comment_lines(self.models().skip(i + 1)) =~= before
                    + note_comment_lines(self.models().skip(i as int)));
            }
            i = i + 1;
        }
        proof {
            assert(self.models().skip(self.notes@.len() as int) =~= Seq::<NoteView>::empty());
            assert(s@ + Seq::<char>::empty() =~= s@);
            assert(s@ =~= self.spec_scratch(base@));
        }
        s
    }

    /// The scratch text a create round starts from: the template note over
    /// the current listing.
    pub fn iadd_scratch(&self) -> (r: String)
        requires
            self.wf(),
        ensures
            r@ == self.spec_scratch(template_view()),
    {
        let base = Note::templated();
        self.scratch_text(&base)
    }

    /// Resolve the single note an edit query addresses. A query that matches
    /// no note, or more than one, is refused without any editor round.
    pub fn iedit(&self, tags: &Vec<String>, no_tags: &Vec<String>) -> (r: Result<Note, Error>)
        requires
            self.wf(),
        ensures
            r is Ok <==> (exists|id: Seq<char>|
                self.selection(tags.deep_view(), no_tags.deep_view()).contains(id) && self.has_id(
                    id,
                ) && forall|other: Seq<char>|
                    self.selection(tags.deep_view(), no_tags.deep_view()).contains(other)
                        && self.has_id(other) ==> other == id),
            r is Ok ==> self.has_id(r->Ok_0@.id) && r->Ok_0@ == self.note_of(r->Ok_0@.id)
                && self.selection(tags.deep_view(), no_tags.deep_view()).contains(r->Ok_0@.id),
            r is Err ==> r->Err_0.kind == ErrorKind::AmbiguousTarget,
    {
        let found = self.query_and(tags, no_tags);
        match found {
            Ok(mut v) => {
                let ghost old_v = v@;
                if v.len() == 1 {
                    let note = v.remove(0);
                    proof {
                        let id = note@.id;
                        assert forall|other: Seq<char>|
                            self.selection(tags.deep_view(), no_tags.deep_view()).contains(other)
                                && self.has_id(other) implies other == id by {
                            let k = choose|k: int|
                                0 <= k < old_v.len() && (#[trigger] old_v[k])@.id == other;
                        }
                    }
                    Ok(note)
                } else {
                    proof {
                        if exists|id: Seq<char>|
                            self.selection(tags.deep_view(), no_tags.deep_view()).contains(id)
                                && self.has_id(id) && forall|other: Seq<char>|
                                self.selection(tags.deep_view(), no_tags.deep_view()).contains(
                                    other,
                                ) && self.has_id(other) ==> other == id {
                            let id = choose|id: Seq<char>|
                                self.selection(tags.deep_view(), no_tags.deep_view()).contains(id)
                                    && self.has_id(id) && forall|other: Seq<char>|
                                    self.selection(tags.deep_view(), no_tags.deep_view()).contains(
                                        other,
                                    ) && self.has_id(other) ==> other == id;
                            let k = choose|k: int| 0 <= k < v@.len() && (#[trigger] v@[k])@.id == id;
                            if v@.len() >= 2 {
                                let other_k: int = if k == 0 {
                                    1
                                } else {
                                    0
                                };
                                assert(v@[other_k]@.id != id);
                                assert(self.selection(
                                    tags.deep_view(),
                                    no_tags.deep_view(),
                                ).contains(v@[other_k]@.id));
                                assert(self.has_id(v@[other_k]@.id));
                            }
                        }
                    }
                    Err(
                        Error::new(
                            ErrorKind::AmbiguousTarget,
                            "expected the query to match exactly one note",
                        ),
                    )
                }
            },
            Err(e) => {
                proof {
                    assert(false);
                }
                Err(e)
            },
        }
    }
}

/// Fold one note's tags into a sorted vocabulary.
pub open spec fn vocab_fold_tags(acc: Seq<Seq<char>>, tags: Seq<Seq<char>>) -> Seq<Seq<char>>
    decreases tags.len(),
{
    if tags.len() == 0 {
        acc
    } else {
        vocab_fold_tags(insert_tag(acc, tags[0]), tags.drop_first())
    }
}

/// Fold every note's tags into a sorted vocabulary.
pub open spec fn vocab_fold(acc: Seq<Seq<char>>, models: Seq<NoteView>) -> Seq<Seq<char>>
    decreases models.len(),
{
    if models.len() == 0 {
        acc
    } else {
        vocab_fold(vocab_fold_tags(acc, models[0].tags), models.drop_first())
    }
}

pub proof fn lemma_vocab_fold_tags(acc: Seq<Seq<char>>, tags: Seq<Seq<char>>)
    requires
        sorted_tags(acc),
    ensures
        sorted_tags(vocab_fold_tags(acc, tags)),
        vocab_fold_tags(acc, tags).to_set() == acc.to_set().union(tags.to_set()),
    decreases tags.len(),
{
    broadcast use vstd::seq_lib::group_seq_properties;

    if tags.len() == 0 {
        assert(tags.to_set() =~= Set::<Seq<char>>::empty());
        assert(vocab_fold_tags(acc, tags).to_set() =~= acc.to_set().union(tags.to_set()));
    } else {
        lemma_insert_tag(acc, tags[0]);
        lemma_vocab_fold_tags(insert_tag(acc, tags[0]), tags.drop_first());
        assert forall|x: Seq<char>|
            vocab_fold_tags(acc, tags).to_set().contains(x) == acc.to_set().union(
                tags.to_set(),
            ).contains(x) by {
            if tags.to_set().contains(x) {
                let k = choose|k: int| 0 <= k < tags.len() && tags[k] == x;
                if k > 0 {
                    assert(tags.drop_first()[k - 1] == x);
                    assert(tags.drop_first().to_set().contains(x));
                }
            }
            if tags.drop_first().to_set().contains(x) {
                let k = choose|k: int|
                    0 <= k < tags.drop_first().len() && tags.drop_first()[k] == x;
                assert(tags[k + 1] == x);
                assert(tags.to_set().contains(x));
            }
        }
        assert(vocab_fold_tags(acc, tags).to_set() =~= acc.to_set().union(tags.to_set()));
    }
}

/// The tags of all notes in a model sequence.
pub open spec fn tags_union(models: Seq<NoteView>) -> Set<Seq<char>>
    decreases models.len(),
{
    if models.len() == 0 {
        Set::empty()
    } else {
        models[0].tags.to_set().union(tags_union(models.drop_first()))
    }
}

pub proof fn lemma_vocab_fold(acc: Seq<Seq<char>>, models: Seq<NoteView>)
    requires
        sorted_tags(acc),
    ensures
        sorted_tags(vocab_fold(acc, models)),
        vocab_fold(acc, models).to_set() == acc.to_set().union(tags_union(models)),
    decreases models.len(),
{
    if models.len() == 0 {
        assert(vocab_fold(acc, models).to_set() =~= acc.to_set().union(tags_union(models)));
    } else {
        lemma_vocab_fold_tags(acc, models[0].tags);
        lemma_vocab_fold(vocab_fold_tags(acc, models[0].tags), models.drop_first());
        assert(vocab_fold(acc, models).to_set() =~= acc.to_set().union(tags_union(models)));
    }
}

/// Membership in the union of all notes' tags is exactly tag-knownness.
pub proof fn lemma_tags_union_member(models: Seq<NoteView>, t: Seq<char>)
    ensures
        tags_union(models).contains(t) <==> exists|i: int|
            0 <= i < models.len() && (#[trigger] models[i]).tags.contains(t),
    decreases models.len(),
{
    broadcast use vstd::seq_lib::group_seq_properties;

    if models.len() > 0 {
        lemma_tags_union_member(models.drop_first(), t);
        if models[0].tags.to_set().contains(t) {
            assert(models[0].tags.contains(t));
        }
        if exists|i: int|
            0 <= i < models.drop_first().len() && (#[trigger] models.drop_first()[i]).tags.contains(
                t,
            ) {
            let i = choose|i: int|
                0 <= i < models.drop_first().len()
                    && (#[trigger] models.drop_first()[i]).tags.contains(t);
            assert(models[i + 1].tags.contains(t));
        }
        if exists|i: int| 0 <= i < models.len() && (#[trigger] models[i]).tags.contains(t) {
            let i = choose|i: int| 0 <= i < models.len() && (#[trigger] models[i]).tags.contains(t);
            if i > 0 {
                assert(models.drop_first()[i - 1].tags.contains(t));
            } else {
                assert(models[0].tags.to_set().contains(t));
            }
        }
    }
}

/// One advisory comment line naming a tag.
pub open spec fn tag_comment_line(t: Seq<char>) -> Seq<char> {
    "[comment]: # (#"@ + t + ")\n"@
}

pub open spec fn tag_comment_lines(tags: Seq<Seq<char>>) -> Seq<char>
    decreases tags.len(),
{
    if tags.len() == 0 {
        Seq::empty()
    } else {
        tag_comment_line(tags[0]) + tag_comment_lines(tags.drop_first())
    }
}

/// One advisory comment line naming a note and its title.
pub open spec fn note_comment_line(n: NoteView) -> Seq<char> {
    "[comment]: # (#"@ + n.id + " - "@ + n.title + ")\n"@
}

pub open spec fn note_comment_lines(models: Seq<NoteView>) -> Seq<char>
    decreases models.len(),
{
    if models.len() == 0 {
        Seq::empty()
    } else {
        note_comment_line(models[0]) + note_comment_lines(models.drop_first())
    }
}

/// An unconstrained query selects every known identifier: with no include
/// and no exclude tags, the selection is exactly the full set of notes.
pub proof fn lemma_query_all(nb: Notebook)
    ensures
        nb.selection(Seq::empty(), Seq::empty()) == nb.id_set(),
{
    assert(nb.expansions(Seq::empty()) =~= Set::<Seq<char>>::empty());
    assert(nb.selection(Seq::empty(), Seq::empty()) =~= nb.id_set());
}

/// Including and excluding the same tag selects nothing, whatever the tag
/// and whatever the notebook holds.
pub proof fn lemma_query_self_cancel(nb: Notebook, tag: Seq<char>)
    ensures
        nb.selection(seq![tag], seq![tag]) == Set::<Seq<char>>::empty(),
{
    let one = seq![tag];
    assert(one.len() == 1 && one[0] == tag);
    assert(one.drop_first() =~= Seq::<Seq<char>>::empty());
    assert(nb.expansions(Seq::empty()) =~= Set::<Seq<char>>::empty());
    assert(nb.expansions(one) == nb.expansion(tag).union(nb.expansions(one.drop_first())));
    assert(nb.expansions(one) =~= nb.expansion(tag));
    assert(nb.selection(one, one) =~= Set::<Seq<char>>::empty());
}

/// Include tags are joined by union, not intersection: two tags each held by
/// exactly one distinct note select both notes.
pub proof fn lemma_query_union(nb: Notebook, a: Seq<char>, b: Seq<char>, ida: Seq<char>, idb: Seq<
    char,
>)
    requires
        nb.tag_holders(a) == set![ida],
        nb.tag_holders(b) == set![idb],
        ida != idb,
    ensures
        nb.selection(seq![a, b], Seq::empty()) == set![ida, idb],
{
    assert(nb.tag_holders(a).contains(ida));
    assert(nb.carries(ida, a));
    assert(nb.tag_known(a)) by {
        let j = find_id(nb.models(), ida);
        lemma_find_id_bounds(nb.models(), ida, 0);
        assert(nb.models()[j].tags.contains(a));
    }
    assert(nb.tag_holders(b).contains(idb));
    assert(nb.carries(idb, b));
    assert(nb.tag_known(b)) by {
        let j = find_id(nb.models(), idb);
        lemma_find_id_bounds(nb.models(), idb, 0);
        assert(nb.models()[j].tags.contains(b));
    }
    let incl = seq![a, b];
    assert(incl.drop_first() =~= seq![b]);
    assert(seq![b].drop_first() =~= Seq::<Seq<char>>::empty());
    assert(nb.expansions(Seq::empty()) =~= Set::<Seq<char>>::empty());
    assert(nb.expansions(seq![b]) =~= nb.expansion(b));
    assert(nb.expansion(a) == nb.tag_holders(a));
    assert(nb.expansion(b) == nb.tag_holders(b));
    assert(nb.expansions(incl) =~= set![ida].union(set![idb]));
    assert(set![ida].union(set![idb]) =~= set![ida, idb]);
    assert(nb.selection(incl, Seq::empty()) =~= set![ida, idb]);
}

} // verus!
