//! Undo/redo over whole-map snapshots.
//!
//! Maps are small, so a snapshot is cheaper than maintaining an inverse for every
//! mutation — and it can never drift. Consecutive edits that share a [`Tag`]
//! coalesce, so a burst of typing is one undo step rather than one per keystroke.

use vstd::prelude::*;
use crate::graph::model::GraphModel;
use crate::graph::Graph;

verus! {

/// What kind of edit a snapshot precedes. Equal tags coalesce into one step.
#[derive(Clone, Copy, Debug, PartialEq, Eq, Structural)]
pub enum Tag {
    /// Typing into node `id`.
    Text(u64),
    /// Typing into the label of edge `id`. Separate from `Text` because a
    /// hand-edited file can give a node and an edge the same id, and one undo
    /// must not then revert an edit to both.
    EdgeText(u64),
    /// Moving a set of nodes, keyed on the set rather than on any one member.
    Move(u64),
    /// Anything structural — never coalesces.
    Structure,
}

/// How many steps can be undone.
pub const CAP: usize = 200;

pub struct History {
    pub past: Vec<Graph>,
    pub future: Vec<Graph>,
    /// Tag of the most recent push, for coalescing.
    pub last: Option<Tag>,
}

#[verifier::ext_equal]
pub struct HistoryModel {
    pub past: Seq<GraphModel>,
    pub future: Seq<GraphModel>,
    pub last: Option<Tag>,
}

pub open spec fn maps(v: Seq<Graph>) -> Seq<GraphModel> {
    v.map_values(|g: Graph| g@)
}

impl View for History {
    type V = HistoryModel;

    open spec fn view(&self) -> HistoryModel {
        HistoryModel { past: maps(self.past@), future: maps(self.future@), last: self.last }
    }
}

/// The last so many of the steps that can be undone.
pub open spec fn capped(past: Seq<GraphModel>) -> Seq<GraphModel> {
    if past.len() > CAP {
        past.skip(1)
    } else {
        past
    }
}

impl HistoryModel {
    /// An edit that goes on with the gesture of the one before it.
    pub open spec fn continues(self, tag: Tag) -> bool {
        tag != Tag::Structure && self.last == Some(tag) && self.past.len() > 0
    }

    /// The history once an edit of kind `tag` to `before` is about to be made.
    pub open spec fn recorded(self, before: GraphModel, tag: Tag) -> HistoryModel {
        if self.continues(tag) {
            HistoryModel { future: seq![], ..self }
        } else {
            HistoryModel {
                past: capped(self.past.push(before)),
                future: seq![],
                last: Some(tag),
            }
        }
    }

    /// The history with its last step undone, where `current` is to be given up.
    pub open spec fn undone(self, current: GraphModel) -> HistoryModel {
        HistoryModel { past: self.past.drop_last(), future: self.future.push(current), last: None }
    }

    /// The history with its last undone step done again.
    pub open spec fn redone(self, current: GraphModel) -> HistoryModel {
        HistoryModel { past: self.past.push(current), future: self.future.drop_last(), last: None }
    }

    /// There are never more steps than the cap, undone or not.
    pub open spec fn bounded(self) -> bool {
        self.past.len() + self.future.len() <= CAP
    }
}

impl History {
    pub fn new() -> (h: History)
        ensures
            h@ == (HistoryModel { past: seq![], future: seq![], last: None }),
            h@.bounded(),
    {
        let h = History { past: Vec::new(), future: Vec::new(), last: None };
        assert(h@.past =~= seq![] && h@.future =~= seq![]);
        h
    }

    /// Record `before` as the state to return to. Call this before mutating.
    pub fn record(&mut self, before: &Graph, tag: Tag)
        ensures
            final(self)@ == old(self)@.recorded(before@, tag),
            old(self)@.bounded() ==> final(self)@.bounded(),
    {
        let ghost h = self@;
        if tag != Tag::Structure && self.last == Some(tag) && self.past.len() > 0 {
            // Same continuous gesture — the snapshot already on the stack is the
            // one the user means to come back to.
            self.future.clear();
            assert(self@ =~= h.recorded(before@, tag));
            return;
        }
        self.past.push(before.clone());
        assert(maps(self.past@) =~= h.past.push(before@));
        if self.past.len() > CAP {
            self.past.remove(0);
        }
        self.future.clear();
        self.last = Some(tag);
        assert(self@ =~= h.recorded(before@, tag));
    }

    /// Break coalescing, so the next edit starts a fresh undo step.
    pub fn seal(&mut self)
        ensures
            final(self)@ == (HistoryModel { last: None, ..old(self)@ }),
    {
        self.last = None;
    }

    /// Take back the most recent snapshot without offering it as a redo — the
    /// abandoned half of a gesture the user cancelled.
    pub fn discard_last(&mut self) -> (r: Option<Graph>)
        ensures
            match r {
                Some(g) => old(self)@.past.len() > 0 && g@ == old(self)@.past.last()
                    && final(self)@ == (HistoryModel {
                    past: old(self)@.past.drop_last(),
                    last: None,
                    ..old(self)@
                }),
                None => old(self)@.past.len() == 0 && final(self)@ == old(self)@,
            },
            old(self)@.bounded() ==> final(self)@.bounded(),
    {
        let ghost h = self@;
        match self.past.pop() {
            Some(g) => {
                self.last = None;
                assert(self@ =~= HistoryModel { past: h.past.drop_last(), last: None, ..h });
                Some(g)
            },
            None => None,
        }
    }

    /// How many undo steps are stacked.
    pub fn depth(&self) -> (r: usize)
        ensures
            r == self@.past.len(),
    {
        self.past.len()
    }

    pub fn can_undo(&self) -> (r: bool)
        ensures
            r == (self@.past.len() > 0),
    {
        self.past.len() > 0
    }

    pub fn can_redo(&self) -> (r: bool)
        ensures
            r == (self@.future.len() > 0),
    {
        self.future.len() > 0
    }

    /// Returns the map to install, pushing `current` onto the redo stack.
    pub fn undo(&mut self, current: &Graph) -> (r: Option<Graph>)
        ensures
            match r {
                Some(g) => old(self)@.past.len() > 0 && g@ == old(self)@.past.last()
                    && final(self)@ == old(self)@.undone(current@),
                None => old(self)@.past.len() == 0 && final(self)@ == old(self)@,
            },
            old(self)@.bounded() ==> final(self)@.bounded(),
    {
        let ghost h = self@;
        match self.past.pop() {
            Some(g) => {
                self.future.push(current.clone());
                self.last = None;
                assert(self@ =~= h.undone(current@));
                Some(g)
            },
            None => None,
        }
    }

    /// Returns the map to install, pushing `current` back onto the undo stack.
    pub fn redo(&mut self, current: &Graph) -> (r: Option<Graph>)
        ensures
            match r {
                Some(g) => old(self)@.future.len() > 0 && g@ == old(self)@.future.last()
                    && final(self)@ == old(self)@.redone(current@),
                None => old(self)@.future.len() == 0 && final(self)@ == old(self)@,
            },
            old(self)@.bounded() ==> final(self)@.bounded(),
    {
        let ghost h = self@;
        match self.future.pop() {
            Some(g) => {
                self.past.push(current.clone());
                self.last = None;
                assert(self@ =~= h.redone(current@));
                Some(g)
            },
            None => None,
        }
    }
}

/// Undoing and then redoing comes back to where it began: redo gives the map that
/// undo gave up, and the stacks are as before.
pub proof fn redo_undoes_undo(h: HistoryModel, current: GraphModel)
    requires
        h.past.len() > 0,
    ensures
        h.undone(current).future.len() > 0,
        h.undone(current).future.last() == current,
        h.undone(current).redone(h.past.last()).past == h.past,
        h.undone(current).redone(h.past.last()).future == h.future,
{
    let u = h.undone(current);
    assert(u.future.drop_last() =~= h.future);
    assert(u.past.push(h.past.last()) =~= h.past);
}

/// Redoing and then undoing likewise.
pub proof fn undo_undoes_redo(h: HistoryModel, current: GraphModel)
    requires
        h.future.len() > 0,
    ensures
        h.redone(current).past.len() > 0,
        h.redone(current).past.last() == current,
        h.redone(current).undone(h.future.last()).past == h.past,
        h.redone(current).undone(h.future.last()).future == h.future,
{
    let u = h.redone(current);
    assert(u.past.drop_last() =~= h.past);
    assert(u.future.push(h.future.last()) =~= h.future);
}

/// What an edit that begins a gesture was recorded with is what undo comes back
/// to, whatever the gesture went on with; and it leaves nothing to redo.
pub proof fn a_gesture_is_one_step(
    h: HistoryModel,
    first: GraphModel,
    second: GraphModel,
    tag: Tag,
)
    requires
        !h.continues(tag),
    ensures
        h.recorded(first, tag).past.len() > 0,
        h.recorded(first, tag).past.last() == first,
        h.recorded(first, tag).future.len() == 0,
        tag != Tag::Structure ==> h.recorded(first, tag).recorded(second, tag) == h.recorded(
            first,
            tag,
        ),
        tag == Tag::Structure ==> h.recorded(first, tag).recorded(second, tag).past.last()
            == second,
{
    let p = h.past.push(first);
    assert(capped(p).last() == first);
    let q = h.recorded(first, tag).past.push(second);
    assert(capped(q).last() == second);
}

/// After a seal, the next edit is a step of its own.
pub proof fn a_seal_splits_a_gesture(h: HistoryModel, before: GraphModel, tag: Tag)
    ensures
        !(HistoryModel { last: None, ..h }).continues(tag),
        (HistoryModel { last: None, ..h }).recorded(before, tag).past.last() == before,
{
    let p = h.past.push(before);
    assert(capped(p).last() == before);
}

} // verus!
