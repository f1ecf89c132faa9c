//! What the pointer is over: which controls a node shows, and how the pointer
//! looks.

use std::collections::HashSet;
use vstd::prelude::*;
use crate::coord::Coord;
use crate::graph::model::GraphModel;
use crate::graph::spatial;
use crate::graph::{Graph, Mode, Node};
use crate::ids;
use crate::ui::frame::Hover;

verus! {

broadcast use {vstd::std_specs::hash::group_hash_axioms, vstd::std_specs::btree::group_btree_axioms};

/// What the pointer is over. A node wins over an edge.
pub fn hover(node: Option<u64>, edge: Option<u64>) -> (r: Option<Hover>)
    ensures
        r == (match (node, edge) {
            (Some(id), _) => Some(Hover::Node(id)),
            (None, Some(id)) => Some(Hover::Edge(id)),
            (None, None) => None,
        }),
{
    match node {
        Some(id) => Some(Hover::Node(id)),
        None => match edge {
            Some(id) => Some(Hover::Edge(id)),
            None => None,
        },
    }
}

/// How the pointer looks.
#[derive(Clone, Copy, Debug, PartialEq, Eq, Structural)]
pub enum Look {
    ClosedHand,
    Beam,
    PointingHand,
    Crosshair,
}

/// The pointer is over the label that is typed into.
pub open spec fn over_text(g: GraphModel, hover: Option<Hover>) -> bool {
    g.mode == Mode::Edit && match hover {
        Some(Hover::Node(id)) => id == g.focus && g.edge_focus is None,
        Some(Hover::Edge(id)) => g.edge_focus == Some(id),
        None => false,
    }
}

/// How the pointer looks over what it is over.
pub fn look(g: &Graph, hover: Option<Hover>, panning: bool) -> (r: Look)
    ensures
        r == (if panning {
            Look::ClosedHand
        } else if over_text(g@, hover) {
            Look::Beam
        } else if hover is Some {
            Look::PointingHand
        } else {
            Look::Crosshair
        }),
{
    if panning {
        return Look::ClosedHand;
    }
    let text = g.is_editing() && match hover {
        Some(Hover::Node(id)) => id == g.focused_id && g.focused_edge.is_none(),
        Some(Hover::Edge(id)) => g.focused_edge == Some(id),
        None => false,
    };
    if text {
        Look::Beam
    } else if hover.is_some() {
        Look::PointingHand
    } else {
        Look::Crosshair
    }
}

/// A picture shows the grip at its corner while it is pointed at, selected or
/// under the cursor.
pub open spec fn has_grip(g: GraphModel, hover: Option<Hover>, id: u64) -> bool {
    &&& g.has(id)
    &&& g.nodes[id].image is Some
    &&& hover == Some(Hover::Node(id)) || g.selected.contains(id) || (g.focus == id
        && g.edge_focus is None)
}

/// A node shows the control that folds it if something hangs under it and it has
/// a label.
pub open spec fn has_bubble(g: GraphModel, id: u64) -> bool {
    g.has(id) && g.nodes[id].image is None && exists|c: u64| #[trigger] g.children(id).contains(c)
}

/// Which grip is hit: of those that are shown and in sight, the nearest that
/// `near` answers for.
pub fn hit_grip<S: Fn(u64, &Node) -> Option<Coord>>(
    g: &Graph,
    hover: Option<Hover>,
    hidden: &HashSet<u64>,
    near: &S,
) -> (r: Option<u64>)
    requires
        forall|id: u64, n: &Node| #[trigger] near.requires((id, n)),
    ensures
        spatial::nearest_by(
            g,
            Set::new(|id: u64| has_grip(g@, hover, id) && !hidden@.contains(id)),
            near,
            r,
        ),
{
    let all = ids::sorted_keys(&g.nodes);
    let count: usize = all.len();
    let mut skip: HashSet<u64> = HashSet::new();
    let mut i: usize = 0;
    assert(g@.nodes.dom() =~= g.nodes@.dom());
    while i < count
        invariant
            i <= count,
            count == all@.len(),
            g@.nodes.dom() == g.nodes@.dom(),
            forall|x: u64| #[trigger] all@.contains(x) <==> g.nodes@.dom().contains(x),
            forall|x: u64| #[trigger] skip@.contains(x) ==> g@.has(x) && !has_grip(g@, hover, x),
            forall|k: int|
                0 <= k < i ==> (skip@.contains(#[trigger] all@[k]) <==> !has_grip(
                    g@,
                    hover,
                    all@[k],
                )),
        decreases count - i,
    {
        let id: u64 = all[i];
        assert(all@.contains(all@[i as int]));
        let picture = match g.nodes.get(&id) {
            Some(n) => {
                assert(n@ == g@.nodes[id]);
                n.image.is_some()
            },
            None => false,
        };
        let shown = picture && (match hover {
            Some(Hover::Node(h)) => h == id,
            _ => false,
        } || g.is_node_selected(id) || (g.focused_id == id && g.focused_edge.is_none()));
        assert(shown == has_grip(g@, hover, id));
        if !shown {
            skip.insert(id);
        }
        i = i + 1;
    }
    let r = g.hit_test_masked(&skip, hidden, near);
    proof {
        let who = Set::new(|id: u64| has_grip(g@, hover, id) && !hidden@.contains(id));
        let seen = g@.nodes.dom().difference(skip@).difference(hidden@);
        assert(who =~= seen) by {
            assert forall|x: u64| who.contains(x) <==> seen.contains(x) by {
                if g@.has(x) {
                    assert(all@.contains(x));
                    let k = choose|k: int| 0 <= k < all@.len() && all@[k] == x;
                    assert(skip@.contains(all@[k]) <==> !has_grip(g@, hover, all@[k]));
                }
            }
        }
    }
    r
}

/// Which fold control is hit: of those that are shown, the nearest that `near`
/// answers for.
pub fn hit_bubble<S: Fn(u64, &Node) -> Option<Coord>>(g: &Graph, near: &S) -> (r: Option<u64>)
    requires
        forall|id: u64, n: &Node| #[trigger] near.requires((id, n)),
    ensures
        spatial::nearest_by(
            g,
            Set::new(|id: u64| has_bubble(g@, id) && !g@.hidden().contains(id)),
            near,
            r,
        ),
{
    let hidden = g.hidden_set();
    let counts = g.child_counts();
    let all = ids::sorted_keys(&g.nodes);
    let count: usize = all.len();
    let mut skip: HashSet<u64> = HashSet::new();
    let mut i: usize = 0;
    assert(g@.nodes.dom() =~= g.nodes@.dom());
    while i < count
        invariant
            i <= count,
            count == all@.len(),
            g@.nodes.dom() == g.nodes@.dom(),
            forall|x: u64| #[trigger] all@.contains(x) <==> g.nodes@.dom().contains(x),
            forall|x: u64| #[trigger]
                counts@.dom().contains(x) <==> exists|c: u64| #[trigger] g@.children(x).contains(c),
            forall|x: u64| #[trigger] skip@.contains(x) ==> g@.has(x) && !has_bubble(g@, x),
            forall|k: int|
                0 <= k < i ==> (skip@.contains(#[trigger] all@[k]) <==> !has_bubble(g@, all@[k])),
        decreases count - i,
    {
        let id: u64 = all[i];
        assert(all@.contains(all@[i as int]));
        let labelled = match g.nodes.get(&id) {
            Some(n) => {
                assert(n@ == g@.nodes[id]);
                n.image.is_none()
            },
            None => false,
        };
        let shown = labelled && counts.contains_key(&id);
        assert(shown == has_bubble(g@, id));
        if !shown {
            skip.insert(id);
        }
        i = i + 1;
    }
    let r = g.hit_test_masked(&skip, &hidden, near);
    proof {
        let who = Set::new(|id: u64| has_bubble(g@, id) && !g@.hidden().contains(id));
        let seen = g@.nodes.dom().difference(skip@).difference(hidden@);
        assert(who =~= seen) by {
            assert forall|x: u64| who.contains(x) <==> seen.contains(x) by {
                if g@.has(x) {
                    assert(all@.contains(x));
                    let k = choose|k: int| 0 <= k < all@.len() && all@[k] == x;
                    assert(skip@.contains(all@[k]) <==> !has_bubble(g@, all@[k]));
                }
            }
        }
    }
    r
}

} // verus!
