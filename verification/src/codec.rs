//! The note text encoding: the inline tag grammar, the line format, and the
//! bidirectional mapping between a note and its text form.
//!
//! A tag marker is a `#` that is not immediately preceded by another `#` and
//! is followed by at least one tag character; the token is the maximal run of
//! tag characters after the `#`. A line starting with `"# "` is the title
//! line: its first tag token is the note's identifier and the rest, trimmed,
//! is the title. A line starting with `"[comment]:"` is an advisory comment
//! and is dropped. Every other line joins the body and is scanned for tags.

use vstd::prelude::*;
use crate::note::{Note, NoteView, empty_note_view};
use crate::text::{is_tag_char, is_space, is_tag_token, trim, trim_back, lex_lt, sorted_tags};
use crate::text::{lemma_lex_connected, lemma_lex_transitive, lex_less, tag_char, trim_range};
use crate::text::{chars_of, copy_range, string_of, push_char};

verus! {

/// A tag marker stands at `i` of `line`: an unescaped `#` followed by a tag
/// character.
pub open spec fn tag_marker_at(line: Seq<char>, i: int) -> bool {
    &&& 0 <= i
    &&& i + 1 < line.len()
    &&& line[i] == '#'
    &&& (i == 0 || line[i - 1] != '#')
    &&& is_tag_char(line[i + 1])
}

/// End of the maximal run of tag characters starting at `j`.
pub open spec fn run_end(line: Seq<char>, j: int) -> int
    decreases line.len() - j,
{
    if 0 <= j < line.len() && is_tag_char(line[j]) {
        run_end(line, j + 1)
    } else {
        j
    }
}

/// The token captured by the marker at `i`.
pub open spec fn tag_token_at(line: Seq<char>, i: int) -> Seq<char> {
    line.subrange(i + 1, run_end(line, i + 1))
}

/// All tag tokens of one line.
pub open spec fn line_tag_set(line: Seq<char>) -> Set<Seq<char>> {
    Set::new(
        |t: Seq<char>|
            exists|i: int| #[trigger] tag_marker_at(line, i) && t == tag_token_at(line, i),
    )
}

/// Position of the first tag marker at or after `i`, or `line.len()` if there
/// is none.
pub open spec fn first_marker_from(line: Seq<char>, i: int) -> int
    decreases line.len() - i,
{
    if i >= line.len() {
        line.len() as int
    } else if tag_marker_at(line, i) {
        i
    } else {
        first_marker_from(line, i + 1)
    }
}

/// Position of the first tag marker of the line, or `line.len()` if none.
pub open spec fn first_marker(line: Seq<char>) -> int {
    first_marker_from(line, 0)
}

pub proof fn lemma_run_end_bounds(line: Seq<char>, j: int)
    requires
        0 <= j <= line.len(),
    ensures
        j <= run_end(line, j) <= line.len(),
        forall|k: int| j <= k < run_end(line, j) ==> is_tag_char(#[trigger] line[k]),
        run_end(line, j) < line.len() ==> !is_tag_char(line[run_end(line, j)]),
    decreases line.len() - j,
{
    if j < line.len() && is_tag_char(line[j]) {
        lemma_run_end_bounds(line, j + 1);
    }
}

/// The exec scan and the spec agree: if everything in `[j, e)` is a tag
/// character and `e` ends the run, then `run_end(line, j) == e`.
pub proof fn lemma_run_end_is(line: Seq<char>, j: int, e: int)
    requires
        0 <= j <= e <= line.len(),
        forall|k: int| j <= k < e ==> is_tag_char(#[trigger] line[k]),
        e < line.len() ==> !is_tag_char(line[e]),
    ensures
        run_end(line, j) == e,
    decreases e - j,
{
    if j < e {
        lemma_run_end_is(line, j + 1, e);
    }
}

pub proof fn lemma_first_marker_is(line: Seq<char>, i: int, m: int)
    requires
        0 <= i <= m <= line.len(),
        forall|k: int| i <= k < m ==> !(#[trigger] tag_marker_at(line, k)),
        m < line.len() ==> tag_marker_at(line, m),
    ensures
        first_marker_from(line, i) == if m < line.len() {
            m
        } else {
            line.len() as int
        },
    decreases m - i,
{
    if i < m {
        lemma_first_marker_is(line, i + 1, m);
    }
}


/// `tags` with `t` inserted at its sorted position; a duplicate changes
/// nothing.
pub open spec fn insert_tag(tags: Seq<Seq<char>>, t: Seq<char>) -> Seq<Seq<char>>
    decreases tags.len(),
{
    if tags.len() == 0 {
        seq![t]
    } else if t == tags[0] {
        tags
    } else if lex_lt(t, tags[0]) {
        seq![t] + tags
    } else {
        seq![tags[0]] + insert_tag(tags.drop_first(), t)
    }
}

pub proof fn lemma_insert_tag(tags: Seq<Seq<char>>, t: Seq<char>)
    requires
        sorted_tags(tags),
    ensures
        sorted_tags(insert_tag(tags, t)),
        insert_tag(tags, t).to_set() == tags.to_set().insert(t),
        insert_tag(tags, t).len() <= tags.len() + 1,
    decreases tags.len(),
{
    broadcast use vstd::seq_lib::group_seq_properties;

    let r = insert_tag(tags, t);
    if tags.len() == 0 {
        assert(r =~= seq![t]);
        assert(r.to_set() =~= tags.to_set().insert(t));
    } else if t == tags[0] {
        assert(tags.to_set().contains(tags[0]));
        assert(r.to_set() =~= tags.to_set().insert(t));
    } else if lex_lt(t, tags[0]) {
        assert forall|i: int, j: int| 0 <= i < j < r.len() implies lex_lt(r[i], r[j]) by {
            if i == 0 {
                if j == 1 {
                    assert(r[j] == tags[0]);
                } else {
                    lemma_lex_transitive(t, tags[0], tags[j - 1]);
                }
            }
        }
        assert(r.to_set() =~= tags.to_set().insert(t));
    } else {
        lemma_lex_connected(t, tags[0]);
        assert(lex_lt(tags[0], t));
        let rest = tags.drop_first();
        assert forall|i: int, j: int| 0 <= i < j < rest.len() implies lex_lt(rest[i], rest[j]) by {
            assert(tags[i + 1] == rest[i]);
            assert(tags[j + 1] == rest[j]);
        }
        lemma_insert_tag(rest, t);
        let ri = insert_tag(rest, t);
        assert(r =~= seq![tags[0]] + ri);
        assert forall|i: int, j: int| 0 <= i < j < r.len() implies lex_lt(r[i], r[j]) by {
            if i == 0 {
                assert(ri.to_set().contains(ri[j - 1]));
                if ri[j - 1] == t {
                } else {
                    assert(rest.to_set().contains(ri[j - 1]));
                    let k = choose|k: int| 0 <= k < rest.len() && rest[k] == ri[j - 1];
                    assert(tags[k + 1] == rest[k]);
                    if k == 0 {
                        assert(lex_lt(tags[0], tags[1]));
                    } else {
                        assert(lex_lt(tags[0], tags[k + 1]));
                    }
                }
            } else {
                assert(r[i] == ri[i - 1] && r[j] == ri[j - 1]);
            }
        }
        assert(r.to_set() =~= tags.to_set().insert(t)) by {
            assert(ri.to_set() == rest.to_set().insert(t));
            assert(tags.to_set() =~= rest.to_set().insert(tags[0]));
            assert forall|x: Seq<char>| r.to_set().contains(x) implies tags.to_set().insert(
                t,
            ).contains(x) by {
                let k = choose|k: int| 0 <= k < r.len() && r[k] == x;
                if k > 0 {
                    assert(ri[k - 1] == x);
                    assert(ri.to_set().contains(x));
                }
            }
            assert forall|x: Seq<char>| tags.to_set().insert(t).contains(x) implies r.to_set().contains(
                x,
            ) by {
                if x == tags[0] {
                    assert(r[0] == x);
                } else {
                    assert(ri.to_set().contains(x));
                    let k = choose|k: int| 0 <= k < ri.len() && ri[k] == x;
                    assert(r[k + 1] == x);
                }
            }
        }
    }
}

/// Fold of the tag scan over one line from position `i`: every marker's token
/// is inserted.
pub open spec fn scan_tags(tags: Seq<Seq<char>>, line: Seq<char>, i: int) -> Seq<Seq<char>>
    decreases line.len() - i,
{
    if i >= line.len() {
        tags
    } else if tag_marker_at(line, i) {
        scan_tags(insert_tag(tags, tag_token_at(line, i)), line, i + 1)
    } else {
        scan_tags(tags, line, i + 1)
    }
}

pub proof fn lemma_scan_tags_wf(tags: Seq<Seq<char>>, line: Seq<char>, i: int)
    requires
        sorted_tags(tags),
        i >= 0,
    ensures
        sorted_tags(scan_tags(tags, line, i)),
        scan_tags(tags, line, i).to_set() == tags.to_set().union(
            Set::new(
                |t: Seq<char>|
                    exists|k: int|
                        i <= k && #[trigger] tag_marker_at(line, k) && t == tag_token_at(line, k),
            ),
        ),
    decreases line.len() - i,
{
    let later = Set::new(
        |t: Seq<char>|
            exists|k: int| i <= k && #[trigger] tag_marker_at(line, k) && t == tag_token_at(line, k),
    );
    if i >= line.len() {
        assert forall|t: Seq<char>| !later.contains(t) by {
            if later.contains(t) {
                let k = choose|k: int|
                    i <= k && #[trigger] tag_marker_at(line, k) && t == tag_token_at(line, k);
            }
        }
        assert(scan_tags(tags, line, i).to_set() =~= tags.to_set().union(later));
    } else if tag_marker_at(line, i) {
        lemma_insert_tag(tags, tag_token_at(line, i));
        lemma_scan_tags_wf(insert_tag(tags, tag_token_at(line, i)), line, i + 1);
        assert(scan_tags(tags, line, i).to_set() =~= tags.to_set().union(later));
    } else {
        lemma_scan_tags_wf(tags, line, i + 1);
        assert(scan_tags(tags, line, i).to_set() =~= tags.to_set().union(later));
    }
}

/// The tags of a full line are its tag token set.
pub proof fn lemma_scan_tags_set(tags: Seq<Seq<char>>, line: Seq<char>)
    requires
        sorted_tags(tags),
    ensures
        sorted_tags(scan_tags(tags, line, 0)),
        scan_tags(tags, line, 0).to_set() == tags.to_set().union(line_tag_set(line)),
{
    lemma_scan_tags_wf(tags, line, 0);
    assert(Set::new(
        |t: Seq<char>|
            exists|k: int| 0 <= k && #[trigger] tag_marker_at(line, k) && t == tag_token_at(line, k),
    ) =~= line_tag_set(line));
}

/// Inserting at the scan position found by the exec search agrees with the
/// recursive definition.
pub proof fn lemma_insert_tag_at(tags: Seq<Seq<char>>, t: Seq<char>, idx: int)
    requires
        sorted_tags(tags),
        0 <= idx <= tags.len(),
        forall|i: int| 0 <= i < idx ==> lex_lt(#[trigger] tags[i], t),
        idx < tags.len() ==> !lex_lt(tags[idx], t),
    ensures
        idx < tags.len() && tags[idx] == t ==> insert_tag(tags, t) == tags,
        (idx == tags.len() || tags[idx] != t) ==> insert_tag(tags, t) == tags.insert(idx, t),
    decreases tags.len(),
{
    if tags.len() == 0 {
        assert(insert_tag(tags, t) =~= tags.insert(0, t));
    } else if idx == 0 {
        if tags[0] == t {
        } else {
            lemma_lex_connected(t, tags[0]);
            assert(lex_lt(t, tags[0]));
            assert(insert_tag(tags, t) =~= tags.insert(0, t));
        }
    } else {
        assert(lex_lt(tags[0], t));
        lemma_lex_connected(tags[0], t);
        let rest = tags.drop_first();
        assert forall|i: int, j: int| 0 <= i < j < rest.len() implies lex_lt(rest[i], rest[j]) by {
            assert(tags[i + 1] == rest[i]);
            assert(tags[j + 1] == rest[j]);
        }
        assert forall|i: int| 0 <= i < idx - 1 implies lex_lt(#[trigger] rest[i], t) by {
            assert(tags[i + 1] == rest[i]);
        }
        assert(idx - 1 < rest.len() ==> rest[idx - 1] == tags[idx]);
        lemma_insert_tag_at(rest, t, idx - 1);
        if idx < tags.len() && tags[idx] == t {
            assert(insert_tag(tags, t) =~= tags);
        } else {
            assert(insert_tag(tags, t) =~= seq![tags[0]] + rest.insert(idx - 1, t));
            assert(seq![tags[0]] + rest.insert(idx - 1, t) =~= tags.insert(idx, t));
        }
    }
}

/// Whether a tag marker stands at `i`.
fn marker_at(line: &Vec<char>, i: usize) -> (r: bool)
    requires
        i < line@.len(),
    ensures
        r == tag_marker_at(line@, i as int),
{
    let n = line.len();
    line[i] == '#' && (i == 0 || line[i - 1] != '#') && n - i > 1 && tag_char(line[i + 1])
}

/// Insert a token into a sorted tag list, keeping it sorted and duplicate
/// free.
pub(crate) fn insert_sorted(tags: &mut Vec<Vec<char>>, tok: Vec<char>)
    requires
        sorted_tags(old(tags).deep_view()),
    ensures
        final(tags).deep_view() == insert_tag(old(tags).deep_view(), tok@),
{
    let ghost dv = tags.deep_view();
    let mut idx: usize = 0;
    while idx < tags.len() && lex_less(&tags[idx], &tok)
        invariant
            0 <= idx <= tags@.len(),
            dv == tags.deep_view(),
            dv.len() == tags@.len(),
            forall|i: int| 0 <= i < dv.len() ==> dv[i] == #[trigger] tags@[i]@,
            forall|i: int| 0 <= i < idx ==> lex_lt(#[trigger] dv[i], tok@),
        decreases tags@.len() - idx,
    {
        idx = idx + 1;
    }
    if idx < tags.len() && !lex_less(&tok, &tags[idx]) {
        proof {
            lemma_lex_connected(dv[idx as int], tok@);
            assert(dv[idx as int] == tok@);
            lemma_insert_tag_at(dv, tok@, idx as int);
        }
        return ;
    }
    proof {
        lemma_insert_tag_at(dv, tok@, idx as int);
        if idx < dv.len() {
            lemma_lex_connected(dv[idx as int], tok@);
            assert(dv[idx as int] != tok@);
        }
    }
    tags.insert(idx, tok);
    proof {
        assert forall|i: int| 0 <= i < tags.deep_view().len() implies tags.deep_view()[i]
            == dv.insert(idx as int, tok@)[i] by {
            assert(tags@[i]@ == tags.deep_view()[i]);
        }
        assert(tags.deep_view() =~= dv.insert(idx as int, tok@));
    }
}

/// Whether the line holds a tag marker anywhere.
pub(crate) fn has_marker(line: &Vec<char>) -> (r: bool)
    ensures
        r == (first_marker(line@) < line@.len()),
{
    let n = line.len();
    let mut m: usize = 0;
    while m < n && !marker_at(line, m)
        invariant
            n == line@.len(),
            0 <= m <= n,
            forall|k: int| 0 <= k < m ==> !(#[trigger] tag_marker_at(line@, k)),
        decreases n - m,
    {
        m = m + 1;
    }
    proof {
        lemma_first_marker_is(line@, 0, m as int);
    }
    m < n
}

/// A title line starts with `"# "`.
pub open spec fn is_title_line(line: Seq<char>) -> bool {
    line.len() >= 2 && line[0] == '#' && line[1] == ' '
}

pub open spec fn comment_prefix() -> Seq<char> {
    seq!['[', 'c', 'o', 'm', 'm', 'e', 'n', 't', ']', ':']
}

/// An advisory comment line starts with `"[comment]:"`; it is dropped on
/// decode.
pub open spec fn is_comment_line(line: Seq<char>) -> bool {
    line.len() >= 10 && line.subrange(0, 10) == comment_prefix()
}

/// The trimmed pieces joined by a single space; an empty piece leaves no
/// stray separator.
pub open spec fn join_trimmed(a: Seq<char>, b: Seq<char>) -> Seq<char> {
    if trim(a).len() == 0 {
        trim(b)
    } else if trim(b).len() == 0 {
        trim(a)
    } else {
        trim(a) + seq![' '] + trim(b)
    }
}

/// The title read from the content of a title line (the part after `"# "`):
/// what stands left and right of the identifier token, trimmed and joined.
pub open spec fn title_of(content: Seq<char>) -> Seq<char> {
    let m = first_marker(content);
    if m < content.len() {
        join_trimmed(content.take(m), content.skip(run_end(content, m + 1)))
    } else {
        trim(content)
    }
}

/// One step of the decoder: fold a single line into the note built so far.
pub open spec fn decode_line(st: NoteView, line: Seq<char>) -> NoteView {
    if is_title_line(line) {
        let content = line.skip(2);
        let m = first_marker(content);
        if m < content.len() {
            NoteView { id: tag_token_at(content, m), title: title_of(content), ..st }
        } else {
            NoteView { title: title_of(content), ..st }
        }
    } else if is_comment_line(line) {
        st
    } else {
        NoteView {
            text: st.text + line + seq!['\n'],
            tags: scan_tags(st.tags, line, 0),
            ..st
        }
    }
}

pub open spec fn decode_lines(st: NoteView, lines: Seq<Seq<char>>) -> NoteView
    decreases lines.len(),
{
    if lines.len() == 0 {
        st
    } else {
        decode_lines(decode_line(st, lines[0]), lines.drop_first())
    }
}

/// Position of the first newline at or after `i`, or `text.len()` if none.
pub open spec fn first_nl(text: Seq<char>, i: int) -> int
    decreases text.len() - i,
{
    if i >= text.len() {
        text.len() as int
    } else if text[i] == '\n' {
        i
    } else {
        first_nl(text, i + 1)
    }
}

pub proof fn lemma_first_nl_is(text: Seq<char>, i: int, k: int)
    requires
        0 <= i <= k <= text.len(),
        forall|j: int| i <= j < k ==> text[j] != '\n',
        k < text.len() ==> text[k] == '\n',
    ensures
        first_nl(text, i) == k,
    decreases k - i,
{
    if i < k {
        lemma_first_nl_is(text, i + 1, k);
    }
}

pub proof fn lemma_first_nl_bounds(text: Seq<char>, i: int)
    requires
        0 <= i <= text.len(),
    ensures
        i <= first_nl(text, i) <= text.len(),
        first_nl(text, i) < text.len() ==> text[first_nl(text, i)] == '\n',
        forall|j: int| i <= j < first_nl(text, i) ==> text[j] != '\n',
    decreases text.len() - i,
{
    if i < text.len() && text[i] != '\n' {
        lemma_first_nl_bounds(text, i + 1);
    }
}

/// A carriage return closing a line is dropped, as a line reader would.
pub open spec fn strip_cr(line: Seq<char>) -> Seq<char> {
    if line.len() > 0 && line.last() == '\r' {
        line.drop_last()
    } else {
        line
    }
}

/// Split text into lines at `'\n'`; a final fragment without a closing
/// newline still counts, a closing newline adds no empty line.
pub open spec fn split_lines(text: Seq<char>) -> Seq<Seq<char>>
    decreases text.len(),
    via split_lines_decreases
{
    if text.len() == 0 {
        Seq::empty()
    } else {
        let j = first_nl(text, 0);
        if j >= text.len() {
            seq![strip_cr(text)]
        } else {
            seq![strip_cr(text.take(j))] + split_lines(text.skip(j + 1))
        }
    }
}

#[via_fn]
proof fn split_lines_decreases(text: Seq<char>) {
    if text.len() > 0 {
        lemma_first_nl_bounds(text, 0);
    }
}

/// The note a piece of text decodes to.
pub open spec fn spec_decode(text: Seq<char>) -> NoteView {
    decode_lines(empty_note_view(), split_lines(text))
}

/// The decoder's working state, on plain character vectors.
struct Draft {
    id: Vec<char>,
    title: Vec<char>,
    text: Vec<char>,
    tags: Vec<Vec<char>>,
}

impl Draft {
    spec fn model(self) -> NoteView {
        NoteView { id: self.id@, title: self.title@, text: self.text@, tags: self.tags.deep_view() }
    }

    spec fn wf(self) -> bool {
        &&& sorted_tags(self.tags.deep_view())
        &&& forall|i: int|
            0 <= i < self.tags.deep_view().len() ==> is_tag_token(
                #[trigger] self.tags.deep_view()[i],
            )
    }
}

/// Scan the end of the tag-character run that starts at `j`.
fn find_run_end(line: &Vec<char>, j: usize) -> (e: usize)
    requires
        j <= line@.len(),
    ensures
        e == run_end(line@, j as int),
        j <= e <= line@.len(),
{
    let mut e = j;
    while e < line.len() && tag_char(line[e])
        invariant
            j <= e <= line@.len(),
            forall|k: int| j <= k < e ==> is_tag_char(#[trigger] line@[k]),
        decreases line@.len() - e,
    {
        e = e + 1;
    }
    proof {
        lemma_run_end_is(line@, j as int, e as int);
    }
    e
}

/// Whether the line begins with the comment prefix `"[comment]:"`.
fn comment_line(line: &Vec<char>) -> (r: bool)
    ensures
        r == is_comment_line(line@),
{
    let r = line.len() >= 10 && line[0] == '[' && line[1] == 'c' && line[2] == 'o' && line[3]
        == 'm' && line[4] == 'm' && line[5] == 'e' && line[6] == 'n' && line[7] == 't' && line[8]
        == ']' && line[9] == ':';
    proof {
        if line@.len() >= 10 {
            if r {
                assert(line@.subrange(0, 10) =~= comment_prefix());
            } else {
                if line@.subrange(0, 10) =~= comment_prefix() {
                    assert forall|i: int| 0 <= i < 10 implies line@[i] == comment_prefix()[i] by {
                        assert(line@.subrange(0, 10)[i] == line@[i]);
                    }
                }
            }
        }
    }
    r
}

/// Fold one line into the draft.
fn apply_line(d: &mut Draft, line: &Vec<char>)
    requires
        old(d).wf(),
    ensures
        final(d).wf(),
        final(d).model() == decode_line(old(d).model(), line@),
{
    if line.len() >= 2 && line[0] == '#' && line[1] == ' ' {
        let content = copy_range(line, 2, line.len());
        proof {
            assert(content@ =~= line@.skip(2));
        }
        let n = content.len();
        let mut m: usize = 0;
        while m < n && !marker_at(&content, m)
            invariant
                n == content@.len(),
                0 <= m <= n,
                forall|k: int| 0 <= k < m ==> !(#[trigger] tag_marker_at(content@, k)),
            decreases n - m,
        {
            m = m + 1;
        }
        proof {
            lemma_first_marker_is(content@, 0, m as int);
        }
        if m < n {
            let e = find_run_end(&content, m + 1);
            d.id = copy_range(&content, m + 1, e);
            let tb = trim_range(&content, 0, m);
            let ta = trim_range(&content, e, n);
            proof {
                assert(content@.subrange(0, m as int) =~= content@.take(m as int));
                assert(content@.subrange(e as int, n as int) =~= content@.skip(e as int));
            }
            if tb.len() == 0 {
                d.title = ta;
            } else if ta.len() == 0 {
                d.title = tb;
            } else {
                let mut t = tb;
                t.push(' ');
                let ghost before_append = t@;
                append_vec(&mut t, &ta);
                d.title = t;
                proof {
                    assert(d.title@ =~= trim(content@.take(m as int)) + seq![' '] + trim(
                        content@.skip(e as int),
                    ));
                }
            }
        } else {
            d.title = trim_range(&content, 0, n);
            proof {
                assert(content@.subrange(0, n as int) =~= content@);
            }
        }
        proof {
            assert(is_title_line(line@));
            assert(d.model().id =~= decode_line(old(d).model(), line@).id);
            assert(d.model().title =~= decode_line(old(d).model(), line@).title);
            assert(d.model().text =~= decode_line(old(d).model(), line@).text);
        }
    } else if comment_line(line) {
        proof {
            assert(d.model() =~= decode_line(old(d).model(), line@));
        }
    } else {
        append_vec(&mut d.text, line);
        d.text.push('\n');
        proof {
            assert(d.text@ =~= old(d).text@ + line@ + seq!['\n']);
        }
        let n = line.len();
        let mut k: usize = 0;
        while k < n
            invariant
                n == line@.len(),
                0 <= k <= n,
                d.id@ == old(d).id@,
                d.title@ == old(d).title@,
                d.text@ == old(d).text@ + line@ + seq!['\n'],
                sorted_tags(d.tags.deep_view()),
                forall|i: int|
                    0 <= i < d.tags.deep_view().len() ==> is_tag_token(
                        #[trigger] d.tags.deep_view()[i],
                    ),
                scan_tags(old(d).tags.deep_view(), line@, 0) == scan_tags(
                    d.tags.deep_view(),
                    line@,
                    k as int,
                ),
            decreases n - k,
        {
            if marker_at(line, k) {
                let e = find_run_end(line, k + 1);
                let tok = copy_range(line, k + 1, e);
                proof {
                    assert(tok@ == tag_token_at(line@, k as int));
                    assert(is_tag_char(line@[k + 1]));
                    lemma_run_end_bounds(line@, k as int + 1);
                    assert(e > k + 1);
                    assert(tok@.len() > 0);
                    assert forall|i: int| 0 <= i < tok@.len() implies is_tag_char(
                        #[trigger] tok@[i],
                    ) by {
                        assert(tok@[i] == line@[k + 1 + i]);
                    }
                    lemma_insert_tag(d.tags.deep_view(), tok@);
                    assert forall|t: Seq<char>|
                        insert_tag(d.tags.deep_view(), tok@).to_set().contains(t) implies is_tag_token(
                        t,
                    ) by {
                        broadcast use vstd::seq_lib::group_seq_properties;

                        if t != tok@ {
                            assert(d.tags.deep_view().to_set().contains(t));
                            let i = choose|i: int|
                                0 <= i < d.tags.deep_view().len() && d.tags.deep_view()[i] == t;
                        }
                    }
                }
                let ghost prev = d.tags.deep_view();
                insert_sorted(&mut d.tags, tok);
                proof {
                    broadcast use vstd::seq_lib::group_seq_properties;

                    assert forall|i: int| 0 <= i < d.tags.deep_view().len() implies is_tag_token(
                        #[trigger] d.tags.deep_view()[i],
                    ) by {
                        assert(d.tags.deep_view().to_set().contains(d.tags.deep_view()[i]));
                    }
                }
            }
            k = k + 1;
        }
    }
    proof {
        assert(d.model() =~= decode_line(old(d).model(), line@));
    }
}

/// Append the characters of `b` to `a`.
pub(crate) fn append_vec(a: &mut Vec<char>, b: &Vec<char>)
    ensures
        final(a)@ == old(a)@ + b@,
{
    let mut i: usize = 0;
    while i < b.len()
        invariant
            0 <= i <= b@.len(),
            a@ =~= old(a)@ + b@.take(i as int),
        decreases b@.len() - i,
    {
        a.push(b[i]);
        i = i + 1;
    }
    proof {
        assert(a@ =~= old(a)@ + b@);
    }
}

/// The text a note encodes to: the title line with the identifier re-embedded
/// as a tag token, a blank line, then the body and a closing newline.
pub open spec fn spec_encode(n: NoteView) -> Seq<char> {
    seq!['#', ' ', '#'] + n.id + seq![' '] + n.title + seq!['\n', '\n'] + n.text + seq!['\n']
}

/// Decode a piece of text into a note, line by line.
pub fn decode(text: &str) -> (n: Note)
    ensures
        n@ == spec_decode(text@),
        n@.wf(),
{
    let cs = chars_of(text);
    let mut d = Draft { id: Vec::new(), title: Vec::new(), text: Vec::new(), tags: Vec::new() };
    proof {
        assert(text@.skip(0) =~= text@);
        assert(d.tags.deep_view() =~= Seq::<Seq<char>>::empty());
        assert(d.model() =~= empty_note_view());
    }
    let mut pos: usize = 0;
    while pos < cs.len()
        invariant
            cs@ == text@,
            0 <= pos <= cs@.len(),
            d.wf(),
            decode_lines(empty_note_view(), split_lines(text@)) == decode_lines(
                d.model(),
                split_lines(text@.skip(pos as int)),
            ),
        decreases cs@.len() - pos,
    {
        let mut j: usize = pos;
        while j < cs.len() && cs[j] != '\n'
            invariant
                pos <= j <= cs@.len(),
                forall|k: int| pos <= k < j ==> cs@[k] != '\n',
            decreases cs@.len() - j,
        {
            j = j + 1;
        }
        let mut end: usize = j;
        if end > pos && cs[end - 1] == '\r' {
            end = end - 1;
        }
        let line = copy_range(&cs, pos, end);
        let ghost s = text@.skip(pos as int);
        proof {
            assert forall|k: int| 0 <= k < j - pos implies s[k] != '\n' by {
                assert(s[k] == cs@[pos + k]);
            }
            if j < cs.len() {
                assert(s[j - pos] == cs@[j as int]);
            }
            lemma_first_nl_is(s, 0, j as int - pos as int);
        }
        let ghost st0 = d.model();
        apply_line(&mut d, &line);
        proof {
            let piece = s.take(j - pos as int);
            assert(piece =~= cs@.subrange(pos as int, j as int));
            if end < j {
                assert(piece.len() > 0 && piece.last() == '\r');
                assert(line@ =~= piece.drop_last());
            } else {
                if piece.len() > 0 {
                    assert(piece.last() == cs@[j - 1]);
                }
                assert(line@ =~= piece);
            }
            assert(line@ == strip_cr(piece));
            if j == cs.len() {
                assert(piece =~= s);
                assert(split_lines(s) == seq![line@]);
                assert(seq![line@][0] == line@);
                assert(seq![line@].drop_first() =~= Seq::<Seq<char>>::empty());
                assert(decode_lines(st0, split_lines(s)) == decode_lines(
                    d.model(),
                    Seq::<Seq<char>>::empty(),
                ));
                assert(text@.skip(j as int) =~= Seq::<char>::empty());
            } else {
                let rest = text@.skip(j + 1);
                assert(s.skip(j - pos + 1) =~= rest);
                assert(split_lines(s) == seq![line@] + split_lines(rest));
                assert((seq![line@] + split_lines(rest))[0] == line@);
                assert((seq![line@] + split_lines(rest)).drop_first() =~= split_lines(rest));
                assert(decode_lines(st0, split_lines(s)) == decode_lines(
                    d.model(),
                    split_lines(rest),
                ));
            }
        }
        pos = if j < cs.len() {
            j + 1
        } else {
            j
        };
    }
    proof {
        assert(text@.skip(pos as int) =~= Seq::<char>::empty());
        assert(split_lines(text@.skip(pos as int)) == Seq::<Seq<char>>::empty());
        assert(decode_lines(d.model(), Seq::<Seq<char>>::empty()) == d.model());
    }
    let id = string_of(&d.id);
    let title = string_of(&d.title);
    let body = string_of(&d.text);
    let mut tags: Vec<String> = Vec::new();
    let mut i: usize = 0;
    while i < d.tags.len()
        invariant
            0 <= i <= d.tags@.len(),
            tags@.len() == i,
            forall|k: int| 0 <= k < i ==> tags@[k]@ == #[trigger] d.tags.deep_view()[k],
        decreases d.tags@.len() - i,
    {
        let t = string_of(&d.tags[i]);
        proof {
            assert(d.tags@[i as int]@ == d.tags.deep_view()[i as int]);
        }
        tags.push(t);
        i = i + 1;
    }
    let n = Note { id, title, text: body, tags };
    proof {
        assert forall|k: int| 0 <= k < n.tags.deep_view().len() implies n.tags.deep_view()[k]
            == d.tags.deep_view()[k] by {
            assert(n.tags.deep_view()[k] == tags@[k]@);
        }
        assert(n.tags.deep_view() =~= d.tags.deep_view());
        assert(n@ =~= d.model());
        assert(n@ =~= spec_decode(text@));
    }
    n
}

/// A body line: neither a title line nor a comment line, so the decoder folds
/// it into the text and scans it for tags.
pub open spec fn is_body_line(line: Seq<char>) -> bool {
    !is_title_line(line) && !is_comment_line(line)
}

/// The tag tokens of a sequence of lines.
pub open spec fn lines_tag_set(lines: Seq<Seq<char>>) -> Set<Seq<char>>
    decreases lines.len(),
{
    if lines.len() == 0 {
        Set::empty()
    } else {
        line_tag_set(lines[0]).union(lines_tag_set(lines.drop_first()))
    }
}

/// The tag tokens found anywhere in a body text.
pub open spec fn text_tag_set(text: Seq<char>) -> Set<Seq<char>> {
    lines_tag_set(split_lines(text))
}

pub proof fn lemma_split_prefix(a: Seq<char>, b: Seq<char>)
    requires
        forall|i: int| 0 <= i < a.len() ==> a[i] != '\n',
    ensures
        split_lines(a + seq!['\n'] + b) == seq![strip_cr(a)] + split_lines(b),
{
    let s = a + seq!['\n'] + b;
    assert forall|i: int| 0 <= i < a.len() implies s[i] != '\n' by {
        assert(s[i] == a[i]);
    }
    assert(s[a.len() as int] == '\n');
    lemma_first_nl_is(s, 0, a.len() as int);
    assert(s.take(a.len() as int) =~= a);
    assert(s.skip(a.len() as int + 1) =~= b);
    assert(split_lines(s) == seq![strip_cr(s.take(a.len() as int))] + split_lines(
        s.skip(a.len() as int + 1),
    ));
}

pub proof fn lemma_split_append_nl(a: Seq<char>)
    ensures
        split_lines(a + seq!['\n']) == split_lines(a) + (if a.len() == 0 || a.last() == '\n' {
            seq![Seq::<char>::empty()]
        } else {
            Seq::<Seq<char>>::empty()
        }),
    decreases a.len(),
{
    let s = a + seq!['\n'];
    if a.len() == 0 {
        assert(s =~= seq!['\n']);
        lemma_first_nl_is(s, 0, 0);
        assert(split_lines(s) == seq![strip_cr(s.take(0))] + split_lines(s.skip(1)));
        assert(s.take(0) =~= Seq::<char>::empty());
        assert(s.skip(1) =~= Seq::<char>::empty());
        assert(split_lines(s) =~= split_lines(a) + seq![Seq::<char>::empty()]);
    } else {
        lemma_first_nl_bounds(a, 0);
        let j = first_nl(a, 0);
        assert forall|i: int| 0 <= i < j implies s[i] != '\n' by {
            assert(s[i] == a[i]);
        }
        if j == a.len() {
            assert(a.last() != '\n');
            assert(s[j] == '\n');
            lemma_first_nl_is(s, 0, j);
            assert(split_lines(s) == seq![strip_cr(s.take(j))] + split_lines(s.skip(j + 1)));
            assert(s.take(j) =~= a);
            assert(s.skip(j + 1) =~= Seq::<char>::empty());
            assert(split_lines(s) =~= split_lines(a) + Seq::<Seq<char>>::empty());
        } else {
            assert(s[j] == a[j] && a[j] == '\n');
            lemma_first_nl_is(s, 0, j);
            assert(split_lines(s) == seq![strip_cr(s.take(j))] + split_lines(s.skip(j + 1)));
            assert(split_lines(a) == seq![strip_cr(a.take(j))] + split_lines(a.skip(j + 1)));
            assert(s.take(j) =~= a.take(j));
            assert(s.skip(j + 1) =~= a.skip(j + 1) + seq!['\n']);
            lemma_split_append_nl(a.skip(j + 1));
            if a.skip(j + 1).len() == 0 {
                assert(a.last() == '\n');
                assert(split_lines(s) =~= split_lines(a) + seq![Seq::<char>::empty()]);
            } else {
                assert(a.skip(j + 1).last() == a.last());
                if a.last() == '\n' {
                    assert(split_lines(s) =~= split_lines(a) + seq![Seq::<char>::empty()]);
                } else {
                    assert(split_lines(s) =~= split_lines(a) + Seq::<Seq<char>>::empty());
                }
            }
        }
    }
}

/// Folding body lines never touches the identifier or the title, and adds
/// exactly the lines' tag tokens.
pub proof fn lemma_decode_body_lines(st: NoteView, lines: Seq<Seq<char>>)
    requires
        sorted_tags(st.tags),
        forall|k: int| 0 <= k < lines.len() ==> is_body_line(#[trigger] lines[k]),
    ensures
        decode_lines(st, lines).id == st.id,
        decode_lines(st, lines).title == st.title,
        sorted_tags(decode_lines(st, lines).tags),
        decode_lines(st, lines).tags.to_set() == st.tags.to_set().union(lines_tag_set(lines)),
    decreases lines.len(),
{
    if lines.len() == 0 {
        assert(decode_lines(st, lines).tags.to_set() =~= st.tags.to_set().union(
            lines_tag_set(lines),
        ));
    } else {
        assert(is_body_line(lines[0]));
        let st1 = decode_line(st, lines[0]);
        lemma_scan_tags_set(st.tags, lines[0]);
        lemma_decode_body_lines(st1, lines.drop_first());
        assert(decode_lines(st, lines).tags.to_set() =~= st.tags.to_set().union(
            lines_tag_set(lines),
        ));
    }
}

/// Whitespace-leading text trims to its trimmed tail.
proof fn lemma_trim_space_prefix(t: Seq<char>)
    requires
        t == trim(t),
    ensures
        trim(seq![' '] + t) == t,
{
    let s = seq![' '] + t;
    assert(s[0] == ' ');
    crate::text::lemma_trim_shape(t);
    if t.len() == 0 {
        crate::text::lemma_trim_front_skip(s, 1);
        assert(s.skip(1) =~= t);
        assert(trim_back(Seq::<char>::empty()) == Seq::<char>::empty());
    } else {
        assert(!is_space(t[0]));
        assert(s.skip(1) =~= t);
        crate::text::lemma_trim_front_skip(s, 1);
        assert(!is_space(t.last()));
        crate::text::lemma_trim_back_take(t, t.len() as int);
        assert(t.take(t.len() as int) =~= t);
    }
}

/// What the title line of an encoded note decodes back to: the identifier
/// itself, and the title unchanged.
proof fn lemma_title_line_round_trip(n: NoteView)
    requires
        is_tag_token(n.id),
        n.title == trim(n.title),
        forall|i: int| 0 <= i < n.title.len() ==> n.title[i] != '\n' && n.title[i] != '\r',
    ensures
        ({
            let line = seq!['#', ' ', '#'] + n.id + seq![' '] + n.title;
            &&& is_title_line(line)
            &&& decode_line(empty_note_view(), line).id == n.id
            &&& decode_line(empty_note_view(), line).title == n.title
            &&& decode_line(empty_note_view(), line).text == Seq::<char>::empty()
            &&& decode_line(empty_note_view(), line).tags == Seq::<Seq<char>>::empty()
        }),
{
    let line = seq!['#', ' ', '#'] + n.id + seq![' '] + n.title;
    assert(line[0] == '#' && line[1] == ' ');
    let content = line.skip(2);
    assert(content =~= seq!['#'] + n.id + seq![' '] + n.title);
    assert(content[0] == '#');
    assert(content[1] == n.id[0]);
    assert(is_tag_char(content[1]));
    assert(tag_marker_at(content, 0));
    lemma_first_marker_is(content, 0, 0);
    assert(first_marker(content) == 0);
    let idlen = n.id.len() as int;
    assert forall|k: int| 1 <= k < 1 + idlen implies is_tag_char(#[trigger] content[k]) by {
        assert(content[k] == n.id[k - 1]);
    }
    assert(content[1 + idlen] == ' ');
    assert(!is_tag_char(' '));
    lemma_run_end_is(content, 1, 1 + idlen);
    assert(tag_token_at(content, 0) =~= n.id);
    assert(content.take(0) =~= Seq::<char>::empty());
    assert(trim(Seq::<char>::empty()) == Seq::<char>::empty());
    assert(content.skip(1 + idlen) =~= seq![' '] + n.title);
    lemma_trim_space_prefix(n.title);
    assert(title_of(content) == n.title) by {
        assert(trim(content.take(0)).len() == 0);
        assert(trim(content.skip(1 + idlen)) == n.title);
    }
}

/// The identifier and the title of a note survive an encode/decode round
/// trip, provided the identifier is a well-shaped tag token, the title is a
/// trimmed single line, and no body line would itself be read as a title or
/// comment line.
pub proof fn lemma_round_trip_id_title(n: NoteView)
    requires
        is_tag_token(n.id),
        n.title == trim(n.title),
        forall|i: int| 0 <= i < n.title.len() ==> n.title[i] != '\n' && n.title[i] != '\r',
        forall|k: int|
            0 <= k < split_lines(n.text).len() ==> is_body_line(#[trigger] split_lines(n.text)[k]),
    ensures
        spec_decode(spec_encode(n)).id == n.id,
        spec_decode(spec_encode(n)).title == n.title,
{
    lemma_round_trip_parts(n);
}

/// The tags of a decoded re-encoding are exactly the tag tokens standing in
/// the body text: no tag that occurs in the text is lost. Tags that stood
/// only in the title line are not re-extracted; the premises rule out body
/// lines that the decoder would treat as title or comment lines.
pub proof fn lemma_round_trip_tags(n: NoteView)
    requires
        is_tag_token(n.id),
        n.title == trim(n.title),
        forall|i: int| 0 <= i < n.title.len() ==> n.title[i] != '\n' && n.title[i] != '\r',
        forall|k: int|
            0 <= k < split_lines(n.text).len() ==> is_body_line(#[trigger] split_lines(n.text)[k]),
    ensures
        spec_decode(spec_encode(n)).tags.to_set() == text_tag_set(n.text),
{
    lemma_round_trip_parts(n);
}

/// Common argument for the round-trip laws: the encoded text splits into the
/// title line, a blank line, and the body's lines; the fold then rebuilds the
/// identifier, the title, and the body's tags.
proof fn lemma_round_trip_parts(n: NoteView)
    requires
        is_tag_token(n.id),
        n.title == trim(n.title),
        forall|i: int| 0 <= i < n.title.len() ==> n.title[i] != '\n' && n.title[i] != '\r',
        forall|k: int|
            0 <= k < split_lines(n.text).len() ==> is_body_line(#[trigger] split_lines(n.text)[k]),
    ensures
        spec_decode(spec_encode(n)).id == n.id,
        spec_decode(spec_encode(n)).title == n.title,
        spec_decode(spec_encode(n)).tags.to_set() == text_tag_set(n.text),
{
    let enc = spec_encode(n);
    let line0 = seq!['#', ' ', '#'] + n.id + seq![' '] + n.title;
    assert(enc =~= line0 + seq!['\n'] + (seq!['\n'] + n.text + seq!['\n']));
    assert forall|i: int| 0 <= i < line0.len() implies line0[i] != '\n' by {
        if i <= 2 {
        } else if i < 3 + n.id.len() {
            assert(line0[i] == n.id[i - 3]);
            assert(is_tag_char(line0[i]));
        } else if i == 3 + n.id.len() {
            assert(line0[i] == ' ');
        } else {
            assert(line0[i] == n.title[i - 4 - n.id.len()]);
        }
    }
    lemma_split_prefix(line0, seq!['\n'] + n.text + seq!['\n']);
    assert(strip_cr(line0) == line0) by {
        if n.title.len() > 0 {
            assert(line0.last() == n.title.last());
        } else {
            assert(line0.last() == ' ');
        }
    }
    let tail = n.text + seq!['\n'];
    assert(seq!['\n'] + n.text + seq!['\n'] =~= Seq::<char>::empty() + seq!['\n'] + tail);
    lemma_split_prefix(Seq::<char>::empty(), tail);
    assert(strip_cr(Seq::<char>::empty()) == Seq::<char>::empty());
    lemma_split_append_nl(n.text);
    let extra: Seq<Seq<char>> = if n.text.len() == 0 || n.text.last() == '\n' {
        seq![Seq::<char>::empty()]
    } else {
        Seq::<Seq<char>>::empty()
    };
    let body_lines = split_lines(n.text) + extra;
    assert(split_lines(enc) =~= seq![line0, Seq::<char>::empty()] + body_lines);
    lemma_title_line_round_trip(n);
    let st1 = decode_line(empty_note_view(), line0);
    assert(!is_title_line(Seq::<char>::empty()));
    assert(!is_comment_line(Seq::<char>::empty()));
    let st2 = decode_line(st1, Seq::<char>::empty());
    assert(st2.id == n.id && st2.title == n.title);
    assert(st2.tags =~= Seq::<Seq<char>>::empty()) by {
        assert(scan_tags(st1.tags, Seq::<char>::empty(), 0) == st1.tags);
    }
    assert forall|k: int| 0 <= k < body_lines.len() implies is_body_line(#[trigger] body_lines[k]) by {
        if k < split_lines(n.text).len() {
            assert(body_lines[k] == split_lines(n.text)[k]);
        } else {
            assert(body_lines[k] == Seq::<char>::empty());
        }
    }
    assert(sorted_tags(st2.tags));
    lemma_decode_body_lines(st2, body_lines);
    let lines = split_lines(enc);
    assert(lines[0] == line0);
    assert(lines[1] == Seq::<char>::empty());
    let mid = seq![Seq::<char>::empty()] + body_lines;
    assert(lines.drop_first() =~= mid);
    assert(mid[0] == Seq::<char>::empty());
    assert(mid.drop_first() =~= body_lines);
    assert(decode_lines(empty_note_view(), lines) == decode_lines(st1, mid));
    assert(decode_lines(st1, mid) == decode_lines(st2, body_lines));
    assert(spec_decode(enc) == decode_lines(st2, body_lines));
    assert(spec_decode(enc).id == n.id);
    assert(spec_decode(enc).title == n.title);
    assert(spec_decode(enc).tags.to_set() =~= lines_tag_set(body_lines)) by {
        assert(st2.tags.to_set() =~= Set::<Seq<char>>::empty());
        assert(Set::<Seq<char>>::empty().union(lines_tag_set(body_lines)) =~= lines_tag_set(
            body_lines,
        ));
    }
    assert(lines_tag_set(body_lines) =~= text_tag_set(n.text)) by {
        lemma_lines_tag_set_extra(split_lines(n.text), extra);
    }
}

/// An appended run of empty lines adds no tags.
proof fn lemma_lines_tag_set_extra(lines: Seq<Seq<char>>, extra: Seq<Seq<char>>)
    requires
        forall|k: int| 0 <= k < extra.len() ==> #[trigger] extra[k] == Seq::<char>::empty(),
    ensures
        lines_tag_set(lines + extra) == lines_tag_set(lines),
    decreases lines.len(), extra.len(),
{
    if lines.len() == 0 {
        if extra.len() == 0 {
            assert(lines + extra =~= lines);
        } else {
            assert((lines + extra)[0] == Seq::<char>::empty());
            assert(line_tag_set(Seq::<char>::empty()) =~= Set::<Seq<char>>::empty()) by {
                assert forall|t: Seq<char>| !line_tag_set(Seq::<char>::empty()).contains(t) by {
                    if exists|i: int|
                        #[trigger] tag_marker_at(Seq::<char>::empty(), i) && t == tag_token_at(
                            Seq::<char>::empty(),
                            i,
                        ) {
                        let i = choose|i: int|
                            #[trigger] tag_marker_at(Seq::<char>::empty(), i) && t == tag_token_at(
                                Seq::<char>::empty(),
                                i,
                            );
                    }
                }
            }
            assert((lines + extra).drop_first() =~= extra.drop_first());
            lemma_lines_tag_set_extra(lines, extra.drop_first());
            assert(lines + extra.drop_first() =~= extra.drop_first());
            assert(lines_tag_set(lines + extra) =~= lines_tag_set(lines));
        }
    } else {
        assert((lines + extra)[0] == lines[0]);
        assert((lines + extra).drop_first() =~= lines.drop_first() + extra);
        lemma_lines_tag_set_extra(lines.drop_first(), extra);
        assert(lines_tag_set(lines + extra) =~= lines_tag_set(lines));
    }
}

/// Encode a note into its text form.
pub fn encode(n: &Note) -> (r: String)
    ensures
        r@ == spec_encode(n@),
{
    let mut r = String::new();
    r.append("# #");
    r.append(n.id.as_str());
    push_char(&mut r, ' ');
    r.append(n.title.as_str());
    push_char(&mut r, '\n');
    push_char(&mut r, '\n');
    r.append(n.text.as_str());
    push_char(&mut r, '\n');
    proof {
        reveal_strlit("# #");
        assert("# #"@ =~= seq!['#', ' ', '#']);
        assert(r@ =~= spec_encode(n@));
    }
    r
}

} // verus!
