//! What holds of the map and its history together, whatever is done.

use vstd::prelude::*;
use crate::graph::model::GraphModel;
use crate::history::{Tag, CAP};
use crate::ui::editor::EditorModel;

verus! {

impl EditorModel {
    /// The map and every map that can be gone back or forward to are valid, and
    /// there are no more of them than can be kept.
    pub open spec fn sound(self) -> bool {
        &&& self.graph.valid()
        &&& self.history.bounded()
        &&& forall|i: int|
            0 <= i < self.history.past.len() ==> (#[trigger] self.history.past[i]).valid()
        &&& forall|i: int|
            0 <= i < self.history.future.len() ==> (#[trigger] self.history.future[i]).valid()
    }
}

/// A change that is noted first and leaves a valid map keeps the editor sound.
pub proof fn a_noted_change_keeps_sound(e: EditorModel, tag: Tag, after: GraphModel)
    requires
        e.sound(),
        after.valid(),
    ensures
        e.recorded(tag).with(after).sound(),
        e.with(after).sound(),
        e.sealed().sound(),
{
    let n = e.recorded(tag).with(after);
    let all = e.history.past.push(e.graph);
    assert forall|i: int| 0 <= i < n.history.past.len() implies (
    #[trigger] n.history.past[i]).valid() by {
        if e.history.continues(tag) {
            assert(n.history.past == e.history.past);
        } else if all.len() > CAP {
            assert(n.history.past[i] == all[i + 1]);
        } else {
            assert(n.history.past[i] == all[i]);
        }
    }
    assert forall|i: int| 0 <= i < n.history.future.len() implies (
    #[trigger] n.history.future[i]).valid() by {
        assert(n.history.future[i] == e.history.future[i]);
    }
}

/// Going back and forward keeps the editor sound.
pub proof fn going_back_and_forward_keeps_sound(e: EditorModel)
    requires
        e.sound(),
    ensures
        e.history.past.len() > 0 ==> (EditorModel {
            graph: e.history.past.last(),
            history: e.history.undone(e.graph),
        }).sound(),
        e.history.future.len() > 0 ==> (EditorModel {
            graph: e.history.future.last(),
            history: e.history.redone(e.graph),
        }).sound(),
{
}

} // verus!
