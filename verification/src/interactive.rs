//! A thin interactive front over the notebook: the same create and edit
//! rounds, addressed through one owning handle.

use vstd::prelude::*;
use crate::err::{Error, ErrorKind};
use crate::note::{Note, NoteView, repair, template_view};
use crate::notebook::{Notebook, EditorOutcome, add_note};
use crate::codec::spec_decode;

verus! {

/// The notebook driven through interactive editor rounds.
pub struct InteractiveNotebook {
    notebook: Notebook,
}

pub type INotebook = InteractiveNotebook;

impl InteractiveNotebook {
    /// The wrapped notebook.
    pub closed spec fn nb(self) -> Notebook {
        self.notebook
    }

    pub fn create(nt: Notebook) -> (r: InteractiveNotebook)
        ensures
            r.nb() == nt,
    {
        InteractiveNotebook { notebook: nt }
    }

    /// The notes a query selects; see `Notebook::query_and`.
    pub fn list(&self, tags: &Vec<String>, no_tags: &Vec<String>) -> (r: Result<Vec<Note>, Error>)
        requires
            self.nb().wf(),
        ensures
            r is Ok,
            forall|k: int|
                0 <= k < r->Ok_0@.len() ==> {
                    let n = (#[trigger] r->Ok_0@[k])@;
                    &&& self.nb().has_id(n.id)
                    &&& n == self.nb().note_of(n.id)
                    &&& self.nb().selection(tags.deep_view(), no_tags.deep_view()).contains(n.id)
                },
            forall|id: Seq<char>|
                #![trigger self.nb().has_id(id)]
                self.nb().selection(tags.deep_view(), no_tags.deep_view()).contains(id)
                    && self.nb().has_id(id) ==> exists|k: int|
                    0 <= k < r->Ok_0@.len() && (#[trigger] r->Ok_0@[k])@.id == id,
    {
        self.notebook.query_and(tags, no_tags)
    }

    /// The scratch text a create round starts from.
    pub fn iadd_scratch(&self) -> (r: String)
        requires
            self.nb().wf(),
        ensures
            r@ == self.nb().spec_scratch(template_view()),
    {
        self.notebook.iadd_scratch()
    }

    /// Merge the outcome of a create round; see `Notebook::iadd`.
    pub fn iadd(&mut self, outcome: &EditorOutcome) -> (r: Result<Note, Error>)
        requires
            old(self).nb().wf(),
        ensures
            final(self).nb().wf(),
            final(self).nb().spec_root() == old(self).nb().spec_root(),
            outcome is Failure ==> r is Err && r->Err_0.kind == ErrorKind::EditorFailure
                && final(self).nb() == old(self).nb(),
            outcome matches EditorOutcome::Saved(text) ==> {
                let cand = spec_decode(text@);
                if cand.title.len() == 0 && cand.text.len() == 0 {
                    r is Err && r->Err_0.kind == ErrorKind::EmptyNote
                        && final(self).nb() == old(self).nb()
                } else {
                    &&& r is Ok
                    &&& r->Ok_0@ == repair(cand)
                    &&& final(self).nb().models() == add_note(old(self).nb().models(), repair(cand))
                }
            },
    {
        self.notebook.iadd(outcome)
    }

    /// Resolve the single note an edit query addresses; see
    /// `Notebook::iedit`.
    pub fn iedit(&self, tags: &Vec<String>, no_tags: &Vec<String>) -> (r: Result<Note, Error>)
        requires
            self.nb().wf(),
        ensures
            r is Ok <==> (exists|id: Seq<char>|
                self.nb().selection(tags.deep_view(), no_tags.deep_view()).contains(id)
                    && self.nb().has_id(id) && forall|other: Seq<char>|
                    self.nb().selection(tags.deep_view(), no_tags.deep_view()).contains(other)
                        && self.nb().has_id(other) ==> other == id),
            r is Ok ==> self.nb().has_id(r->Ok_0@.id) && r->Ok_0@ == self.nb().note_of(r->Ok_0@.id)
                && self.nb().selection(tags.deep_view(), no_tags.deep_view()).contains(
                r->Ok_0@.id,
            ),
            r is Err ==> r->Err_0.kind == ErrorKind::AmbiguousTarget,
    {
        self.notebook.iedit(tags, no_tags)
    }

    /// The scratch text an edit round starts from.
    pub fn iedit_scratch(&self, target: &Note) -> (r: String)
        requires
            self.nb().wf(),
        ensures
            r@ == self.nb().spec_scratch(target@),
    {
        self.notebook.scratch_text(target)
    }

    /// Merge the outcome of an edit round; see `Notebook::iedit_merge`.
    pub fn iedit_merge(&mut self, target_id: &String, outcome: &EditorOutcome) -> (r: Result<
        Note,
        Error,
    >)
        requires
            old(self).nb().wf(),
        ensures
            final(self).nb().wf(),
            final(self).nb().spec_root() == old(self).nb().spec_root(),
            outcome is Failure ==> r is Err && r->Err_0.kind == ErrorKind::EditorFailure
                && final(self).nb() == old(self).nb(),
            outcome is Saved && !old(self).nb().has_id(target_id@) ==> r is Err && r->Err_0.kind
                == ErrorKind::AmbiguousTarget && final(self).nb() == old(self).nb(),
            outcome matches EditorOutcome::Saved(text) ==> old(self).nb().has_id(target_id@) ==> {
                let forced = NoteView { id: target_id@, ..spec_decode(text@) };
                &&& r is Ok
                &&& r->Ok_0@ == repair(forced)
                &&& final(self).nb().models() == add_note(
                    old(self).nb().models(),
                    repair(forced),
                )
            },
    {
        self.notebook.iedit_merge(target_id, outcome)
    }
}

} // verus!
