//! What the verbs do to a map, said of its nodes, its edges, its cursor and its
//! selection.

use vstd::prelude::*;
use vstd::utf8::*;
use crate::coord::Coord;
use crate::graph::depth;
use crate::graph::model::{GraphModel, NodeModel};
use crate::graph::order;
use crate::graph::sanitize;
use crate::graph::spatial;
use crate::graph::tree;
use crate::graph::{Direction, Graph, Mode, Node};
use crate::ids;

verus! {

/// Nothing of a node has changed, but that it may have been unfolded.
pub open spec fn but_for_the_fold(n: NodeModel, m: NodeModel) -> bool {
    m == (NodeModel { collapsed: m.collapsed, ..n }) && (m.collapsed ==> n.collapsed)
}

/// A child that is made hangs under the parent that was asked for, with the text and at
/// the place that were asked for, plain and unfolded. One new edge leads to it. The
/// cursor is on it, it alone is selected, and its text can be typed on at the end. What
/// was there stays, but that the way to the child is unfolded.
pub proof fn a_child_is_made_ready_to_be_named(
    g: GraphModel,
    parent: u64,
    t: Seq<char>,
    x: Coord,
    y: Coord,
)
    requires
        g.has(parent),
        encode_utf8(t).len() <= usize::MAX,
    ensures
        ({
            let (r, h) = g.child_created(parent, t, x, y);
            &&& r matches Some(id) ==> {
                &&& !g.has(id)
                &&& h.has(id)
                &&& h.nodes[id].text == t
                &&& (h.nodes[id].x, h.nodes[id].y) == (x, y)
                &&& h.nodes[id].parent == Some(parent)
                &&& !h.nodes[id].collapsed && h.nodes[id].color is None && h.nodes[id].image is None
                &&& h.nodes.dom() == g.nodes.dom().insert(id)
                &&& h.focus == id
                &&& h.selected == set![id]
                &&& h.edge_focus is None
                &&& h.mode == Mode::Edit
                &&& h.caret == encode_utf8(t).len()
                &&& h.anchor is None
                &&& exists|e: u64|
                    !g.edges.dom().contains(e) && #[trigger] h.edges.dom().contains(e)
                        && h.edges[e].from == parent && h.edges[e].to == id && h.edges[e].label.len()
                        == 0 && h.edges == g.edges.insert(e, h.edges[e])
            }
            &&& r is None ==> h.edges == g.edges && h.nodes.dom() == g.nodes.dom() && h.focus
                == g.focus
            &&& h.root == g.root
            &&& !h.collapsed(parent)
            &&& forall|k: u64| #[trigger] g.has(k) ==> h.has(k) && but_for_the_fold(g.nodes[k], h.nodes[k])
            &&& forall|k: u64| #[trigger] g.over(k, parent) && g.has(k) ==> !h.collapsed(k)
        }),
{
    let o = g.opened(parent);
    let f = g.with_fold(parent, false);
    assert(o.nodes.dom() =~= g.nodes.dom());
    let (r, h) = g.child_created(parent, t, x, y);
    assert forall|k: u64| #[trigger] g.has(k) implies h.has(k) && but_for_the_fold(
        g.nodes[k],
        h.nodes[k],
    ) by {
        assert(o.has(k));
    }
    assert forall|k: nat, a: u64| #[trigger] f.ancestor(a, k) == g.ancestor(a, k) by {
        lemma_fold_keeps_ancestors(g, parent, a, k);
    }
    assert forall|k: u64| #[trigger] g.over(k, parent) && g.has(k) implies !h.collapsed(k) by {
        let n = choose|n: nat| 1 <= n && #[trigger] g.ancestor(parent, n) == Some(k);
        assert(f.ancestor(parent, n) == Some(k));
        assert(f.over(k, parent));
        assert(o.has(k));
    }
    assert(o.has(parent));
    if r is Some {
        let id = r->0;
        let e = (id + 1) as u64;
        assert(h.edges.dom().contains(e));
        assert(h.edges =~= g.edges.insert(e, h.edges[e]));
        assert(h.nodes.dom() =~= g.nodes.dom().insert(id));
    }
}

proof fn lemma_fold_keeps_ancestors(g: GraphModel, id: u64, a: u64, k: nat)
    ensures
        g.with_fold(id, false).ancestor(a, k) == g.ancestor(a, k),
    decreases k,
{
    if k > 0 {
        lemma_fold_keeps_ancestors(g, id, a, (k - 1) as nat);
        let f = g.with_fold(id, false);
        assert(forall|x: u64| #[trigger] f.parent_of(x) == g.parent_of(x));
    }
}

/// A floating node is made at its place, with nothing above it and no edge to it, ready
/// to be named. Nothing else changes.
pub proof fn a_floating_node_is_made_ready_to_be_named(g: GraphModel, x: Coord, y: Coord)
    ensures
        ({
            let (r, h) = g.free_created(x, y);
            &&& r matches Some(id) ==> {
                &&& !g.has(id)
                &&& h.nodes == g.nodes.insert(id, h.nodes[id])
                &&& h.nodes[id].text.len() == 0
                &&& (h.nodes[id].x, h.nodes[id].y) == (x, y)
                &&& h.nodes[id].parent is None
                &&& h.focus == id
                &&& h.selected == set![id]
                &&& h.mode == Mode::Edit
                &&& h.caret == 0
            }
            &&& r is None ==> h == g
            &&& h.edges == g.edges
            &&& h.root == g.root
        }),
{
}

/// A branch that is deleted goes with everything under it and every edge at it, and
/// nothing else goes. A cursor that was in it lands on what the branch hung under, and
/// any other stays. What is selected outside of it stays selected.
pub proof fn a_deleted_branch_goes_whole(g: GraphModel, id: u64, k: u64, e: u64)
    requires
        g.has(id),
        id != g.root,
    ensures
        ({
            let h = g.deleted(id);
            &&& h.has(k) <==> g.has(k) && !g.above(id, k)
            &&& h.has(k) ==> h.nodes[k] == g.nodes[k]
            &&& h.edges.dom().contains(e) <==> g.edges.dom().contains(e) && !(g.has(g.edges[e].from)
                && g.above(id, g.edges[e].from)) && !(g.has(g.edges[e].to) && g.above(
                id,
                g.edges[e].to,
            ))
            &&& h.edges.dom().contains(e) ==> h.edges[e] == g.edges[e]
            &&& g.has(g.focus) && !g.above(id, g.focus) ==> h.focus == g.focus
            &&& g.has(g.focus) && g.above(id, g.focus) ==> (match g.parent_of(id) {
                Some(p) => g.has(p) && !g.above(id, p) ==> h.focus == p,
                None => h.focus == g.root,
            })
            &&& g.selected.contains(k) && !(g.has(k) && g.above(id, k)) ==> h.selected.contains(k)
            &&& h.mode == Mode::Browse
            &&& h.root == g.root
        }),
{
    let gone = g.subtree(id);
    assert(gone.contains(k) <==> g.has(k) && g.above(id, k));
    assert(gone.contains(g.focus) <==> g.has(g.focus) && g.above(id, g.focus));
    let left = g.selected.difference(gone);
    if g.selected.contains(k) && !gone.contains(k) {
        assert(left.contains(k));
        assert(left != Set::<u64>::empty());
    }
}

/// The root is never deleted.
pub proof fn the_root_is_never_deleted(g: GraphModel)
    ensures
        g.deleted(g.root) == g,
        !g.may_hang(g.root, g.focus),
{
}

/// A node may be hung under any other that it does not hang under already and that is
/// not under it, unless it is the root.
pub proof fn a_node_may_hang_anywhere_but_under_itself(g: GraphModel, id: u64, parent: u64)
    requires
        g.has(id),
        g.has(parent),
    ensures
        g.may_hang(id, parent) <==> id != g.root && !g.above(id, parent) && g.nodes[id].parent != Some(
            parent,
        ) && id != parent,
{
    assert(g.subtree(id).contains(parent) <==> g.above(id, parent));
}

/// A node that is hung elsewhere hangs there, with what is under it. The edges that led
/// to it are gone, and a new one from its new parent has the label of the first of them.
/// No other node hangs elsewhere, and no other edge changes.
pub proof fn a_node_is_hung_with_its_label(g: GraphModel, id: u64, parent: u64, k: u64, e: u64)
    requires
        g.has(id),
        g.has(parent),
        id != parent,
        g.edges.dom().finite(),
    ensures
        ({
            let h = g.reparented(id, parent);
            &&& h.nodes.dom() == g.nodes.dom()
            &&& h.nodes[id].parent == Some(parent)
            &&& g.has(k) && k != id ==> h.nodes[k].parent == g.nodes[k].parent
            &&& g.has(k) ==> h.nodes[k].text == g.nodes[k].text && (h.nodes[k].x, h.nodes[k].y) == (
                g.nodes[k].x,
                g.nodes[k].y,
            )
            &&& !h.collapsed(parent)
            &&& g.edges.dom().contains(e) && g.edges[e].to != id ==> h.edges.dom().contains(e)
                && h.edges[e] == g.edges[e]
            &&& h.edges.dom().contains(e) && h.edges[e].to == id ==> h.edges[e].from == parent && (
            forall|first: u64|
                g.edges.dom().contains(first) && g.edges[first].to == id && (forall|f: u64|
                    #[trigger] g.edges.dom().contains(f) && g.edges[f].to == id ==> first <= f)
                    ==> h.edges[e].label == #[trigger] g.edges[first].label)
        }),
{
    let u = g.unlinked(id);
    let o = u.opened(parent);
    let p = o.hung(id, Some(parent));
    let h = g.reparented(id, parent);
    assert(o.nodes.dom() =~= g.nodes.dom());
    assert(h.nodes.dom() =~= g.nodes.dom());
    assert(u.has(k) == g.has(k));
    assert(o.edges == u.edges);
    assert(u.edges.dom().contains(e) <==> g.edges.dom().contains(e) && g.edges[e].to != id);
    if h.edges.dom().contains(e) && h.edges[e].to == id {
        assert(!u.edges.dom().contains(e) || u.edges[e].to != id);
        assert forall|first: u64|
            g.edges.dom().contains(first) && g.edges[first].to == id && (forall|f: u64| #[trigger]
                g.edges.dom().contains(f) && g.edges[f].to == id ==> first <= f) implies h.edges[e].label
            == #[trigger] g.edges[first].label by {
            let into = g.edges_into(id);
            assert(into.contains(first));
            assert forall|f: u64| #[trigger] into.contains(f) implies first <= f by {
                assert(g.edges.dom().contains(f));
            }
            assert(ids::least_of(into, first));
            let l = choose|x: u64| ids::least_of(into, x);
            assert(ids::least_of(into, l));
            assert(into.contains(l));
            assert(l == first);
            assert(ids::least(into) == Some(first));
        }
    }
}

/// A node that is cut free hangs nowhere and no edge leads to it. Nothing else changes.
pub proof fn a_node_is_cut_free(g: GraphModel, id: u64, k: u64, e: u64)
    requires
        g.has(id),
    ensures
        ({
            let h = g.unlinked(id).hung(id, None);
            &&& h.nodes[id] == (NodeModel { parent: None, ..g.nodes[id] })
            &&& k != id ==> (h.has(k) <==> g.has(k)) && h.nodes[k] == g.nodes[k]
            &&& h.edges.dom().contains(e) <==> g.edges.dom().contains(e) && g.edges[e].to != id
            &&& h.edges.dom().contains(e) ==> h.edges[e] == g.edges[e]
        }),
{
}

/// Focusing a node puts the cursor on it and selects it alone, with the caret after its
/// text.
pub proof fn focus_selects_one(g: GraphModel, id: u64)
    requires
        g.has(id),
        encode_utf8(g.nodes[id].text).len() <= usize::MAX,
    ensures
        ({
            let h = g.focused_on(id);
            &&& h.focus == id
            &&& h.selected == set![id]
            &&& h.edge_focus is None
            &&& h.caret == encode_utf8(g.nodes[id].text).len()
            &&& h.anchor is None
            &&& h.nodes == g.nodes && h.edges == g.edges && h.mode == g.mode
            &&& g.focus_kept(id).selected == g.selected
            &&& g.focus_kept(id).focus == id
        }),
{
}

/// Adding a node to the selection puts the cursor on it, and taking it out again leaves
/// what was selected before. The cursor is never left on a node that was taken out while
/// another is selected.
pub proof fn toggling_adds_and_takes_out(g: GraphModel, id: u64)
    requires
        g.has(id),
        g.selected.finite(),
    ensures
        !g.selected.contains(id) ==> {
            let h = g.node_toggled(id);
            &&& h.selected == g.selected.insert(id)
            &&& h.focus == id
            &&& h.node_toggled(id).selected == g.selected
        },
        g.selected.contains(id) ==> {
            let h = g.node_toggled(id);
            &&& h.selected == g.selected.remove(id)
            &&& g.focus != id ==> h.focus == g.focus
            &&& g.focus == id && g.selected.remove(id).len() > 0 && g.selected.subset_of(
                g.nodes.dom(),
            ) ==> h.selected.contains(h.focus)
        },
{
    if !g.selected.contains(id) {
        let h = g.node_toggled(id);
        assert(h.selected.contains(id));
        assert(g.selected.insert(id).remove(id) =~= g.selected);
    } else {
        let left = g.selected.remove(id);
        if g.focus == id && left.len() > 0 && g.selected.subset_of(g.nodes.dom()) {
            ids::lemma_has_list(left);
            ids::lemma_least(ids::listed(left), left);
            ids::lemma_lists_len(ids::listed(left), left);
            let first = ids::listed(left)[0];
            assert(ids::listed(left).contains(first));
        }
    }
}

/// A new selection holds what was picked, as far as it is there, and the cursor is on one
/// of it if there is any.
pub proof fn a_selection_is_what_was_picked(g: GraphModel, picked: Set<u64>, k: u64)
    requires
        picked.finite(),
    ensures
        ({
            let h = g.selection_set(picked);
            &&& h.selected.contains(k) <==> picked.contains(k) && g.has(k)
            &&& h.selected.contains(k) ==> h.selected.contains(h.focus)
            &&& picked.contains(g.focus) && g.has(g.focus) ==> h.focus == g.focus
            &&& h.nodes == g.nodes && h.edges == g.edges
        }),
{
    let s = picked.intersect(g.nodes.dom());
    if s.contains(k) && !s.contains(g.focus) {
        ids::lemma_has_list(s);
        ids::lemma_least(ids::listed(s), s);
        ids::lemma_lists_len(ids::listed(s), s);
        assert(ids::listed(s).contains(k));
        let first = ids::listed(s)[0];
        assert(ids::listed(s).contains(first));
    }
}

/// A colour goes to exactly the nodes that are selected, and changes nothing else.
pub proof fn a_colour_goes_to_the_selection(g: GraphModel, color: Option<u8>, k: u64)
    requires
        g.has(k),
    ensures
        ({
            let h = g.coloured(color);
            &&& h.nodes.dom() == g.nodes.dom()
            &&& g.selected.contains(k) ==> h.nodes[k] == (NodeModel { color, ..g.nodes[k] })
            &&& !g.selected.contains(k) ==> h.nodes[k] == g.nodes[k]
            &&& h == (GraphModel { nodes: h.nodes, ..g })
        }),
{
    assert(g.coloured(color).nodes.dom() =~= g.nodes.dom());
}

/// A move carries what is picked. A node that is folded takes what is under it along, and
/// one that is not does not.
pub proof fn a_folded_node_takes_its_branch_along(g: GraphModel, picked: Set<u64>, k: u64)
    requires
        g.has(k),
    ensures
        picked.contains(k) ==> g.carried(picked).contains(k),
        !picked.contains(k) ==> (g.carried(picked).contains(k) <==> exists|top: u64|
            picked.contains(top) && g.has(top) && g.nodes[top].collapsed && #[trigger] g.above(
                top,
                k,
            )),
{
    if !picked.contains(k) {
        if exists|top: u64|
            picked.contains(top) && g.has(top) && g.nodes[top].collapsed && #[trigger] g.above(top, k) {
            let top = choose|top: u64|
                picked.contains(top) && g.has(top) && g.nodes[top].collapsed && #[trigger] g.above(
                    top,
                    k,
                );
            assert(g.subtree(top).contains(k));
        }
        if g.carried(picked).contains(k) {
            let top = choose|top: u64|
                picked.contains(top) && g.collapsed(top) && #[trigger] g.subtree(top).contains(k);
            assert(g.above(top, k));
        }
    }
}

/// Folding turns one node's fold over and no other's, and touches no text, no place and no
/// link. Twice is back to where it was.
pub proof fn folding_turns_one_fold_over(g: GraphModel, id: u64, k: u64)
    requires
        g.has(id),
        g.has(k),
    ensures
        ({
            let h = g.fold_toggled(id);
            &&& h.nodes.dom() == g.nodes.dom()
            &&& h.nodes[id] == (NodeModel { collapsed: !g.nodes[id].collapsed, ..g.nodes[id] })
            &&& k != id ==> h.nodes[k] == g.nodes[k]
            &&& h.edges == g.edges
            &&& h.fold_toggled(id).nodes == g.nodes
        }),
{
    let h = g.fold_toggled(id);
    assert(h.nodes.dom() =~= g.nodes.dom());
    assert(h.has(id));
    assert(h.fold_toggled(id).nodes =~= g.nodes);
}

/// Revealing a node unfolds everything above it, and nothing else.
pub proof fn revealing_unfolds_what_is_above(g: GraphModel, id: u64, k: u64)
    requires
        g.has(k),
    ensures
        ({
            let h = g.revealed(id);
            &&& h.nodes.dom() == g.nodes.dom()
            &&& g.over(k, id) ==> h.nodes[k] == (NodeModel { collapsed: false, ..g.nodes[k] })
            &&& !g.over(k, id) ==> h.nodes[k] == g.nodes[k]
            &&& h == (GraphModel { nodes: h.nodes, ..g })
        }),
{
    assert(g.revealed(id).nodes.dom() =~= g.nodes.dom());
}

/// Looking at an edge puts the cursor on the node it leads to and selects nothing, with
/// the caret after its label. Leaving it selects that node.
pub proof fn an_edge_is_looked_at(g: GraphModel, e: u64)
    requires
        g.edges.dom().contains(e),
        g.has(g.edges[e].to),
        encode_utf8(g.edges[e].label).len() <= usize::MAX,
    ensures
        ({
            let h = g.edge_focused(e);
            &&& h.edge_focus == Some(e)
            &&& h.focus == g.edges[e].to
            &&& h.selected == Set::<u64>::empty()
            &&& h.active_text() == g.edges[e].label
            &&& h.caret == encode_utf8(g.edges[e].label).len()
            &&& h.edge_left().edge_focus is None
            &&& h.edge_left().selected == set![g.edges[e].to]
            &&& h.nodes == g.nodes && h.edges == g.edges
        }),
{
}

/// What is nearest is one of the hits, none is nearer, and none before it is as near.
/// There is one wherever something is hit.
pub proof fn the_nearest_is_hit(hits: Seq<(u64, Coord)>)
    requires
        forall|i: int| 0 <= i < hits.len() ==> !(#[trigger] hits[i]).1.not_a_number(),
    ensures
        hits.len() == 0 <==> spatial::nearest(hits) is None,
        hits.len() > 0 ==> exists|i: int|
            {
                &&& 0 <= i < hits.len()
                &&& spatial::nearest(hits) == Some((#[trigger] hits[i]).0)
                &&& forall|j: int| 0 <= j < hits.len() ==> (#[trigger] hits[j]).1.rank()
                    >= hits[i].1.rank()
                &&& forall|j: int| 0 <= j < i ==> (#[trigger] hits[j]).1.rank() > hits[i].1.rank()
            },
{
    if hits.len() > 0 {
        let i = lemma_best(hits);
        assert(spatial::nearest(hits) == Some(hits[i].0));
    }
}

proof fn lemma_best(hits: Seq<(u64, Coord)>) -> (i: int)
    requires
        hits.len() > 0,
        forall|i: int| 0 <= i < hits.len() ==> !(#[trigger] hits[i]).1.not_a_number(),
    ensures
        0 <= i < hits.len(),
        spatial::best(hits) == Some(hits[i]),
        forall|j: int| 0 <= j < hits.len() ==> (#[trigger] hits[j]).1.rank() >= hits[i].1.rank(),
        forall|j: int| 0 <= j < i ==> (#[trigger] hits[j]).1.rank() > hits[i].1.rank(),
    decreases hits.len(),
{
    let less = hits.drop_last();
    let n = hits.len() - 1;
    assert(hits.last() == hits[n]);
    if less.len() == 0 {
        assert(less =~= seq![]);
        assert(spatial::best(less) is None);
        n
    } else {
        assert forall|i: int| 0 <= i < less.len() implies !(#[trigger] less[i]).1.not_a_number() by {
            assert(less[i] == hits[i]);
        }
        let i = lemma_best(less);
        assert forall|j: int| 0 <= j < n implies (#[trigger] hits[j]).1.rank() >= less[i].1.rank() by {
            assert(less[j] == hits[j]);
        }
        assert forall|j: int| 0 <= j < i implies (#[trigger] hits[j]).1.rank() > less[i].1.rank() by {
            assert(less[j] == hits[j]);
        }
        if hits[n].1.below(less[i].1) {
            n
        } else {
            i
        }
    }
}

/// The neighbour of a node is a sibling that comes right after it, from top to bottom, or
/// right before it: no other sibling is in between.
pub proof fn a_neighbour_is_next(g: GraphModel, id: u64, up: bool, k: u64)
    requires
        g.nodes.dom().finite(),
        g.has(id),
    ensures
        g.neighbour(id, up) matches Some(s) ==> {
            let a = (g.nodes[id].y.rank(), id as int);
            let b = (g.nodes[s].y.rank(), s as int);
            &&& g.has(s) && s != id && g.nodes[s].parent == g.nodes[id].parent
            &&& up ==> b.0 < a.0 || b.0 == a.0 && b.1 < a.1
            &&& !up ==> a.0 < b.0 || a.0 == b.0 && a.1 < b.1
            &&& g.has(k) && g.nodes[k].parent == g.nodes[id].parent && k != id && k != s ==> {
                let c = (g.nodes[k].y.rank(), k as int);
                &&& up ==> !((b.0 < c.0 || b.0 == c.0 && b.1 < c.1) && (c.0 < a.0 || c.0 == a.0 && c.1
                    < a.1))
                &&& !up ==> !((a.0 < c.0 || a.0 == c.0 && a.1 < c.1) && (c.0 < b.0 || c.0 == b.0
                    && c.1 < b.1))
            }
        },
        g.neighbour(id, up) is None ==> (g.has(k) && g.nodes[k].parent == g.nodes[id].parent && k
            != id ==> {
            let a = (g.nodes[id].y.rank(), id as int);
            let c = (g.nodes[k].y.rank(), k as int);
            if up {
                a.0 < c.0 || a.0 == c.0 && a.1 < c.1
            } else {
                c.0 < a.0 || c.0 == a.0 && c.1 < a.1
            }
        }),
{
    let all = g.siblings(id);
    let v = g.siblings_down(id);
    assert(all.finite()) by {
        assert(all.subset_of(g.nodes.dom()));
        vstd::set_lib::lemma_set_subset_finite(g.nodes.dom(), all);
    }
    assert(order::arranges(v, all, g.down())) by {
        lemma_arranged(g, all);
    }
    assert(all.contains(id));
    assert(v.contains(id));
    let i = v.index_of(id);
    assert(0 <= i < v.len() && v[i] == id);
    let here = g.has(k) && g.nodes[k].parent == g.nodes[id].parent && k != id;
    if here {
        assert(all.contains(k));
        assert(v.contains(k));
        let j = v.index_of(k);
        assert(0 <= j < v.len() && v[j] == k);
        if i < j {
            assert(order::before(g.down()(v[i]), g.down()(v[j])));
        } else {
            assert(order::before(g.down()(v[j]), g.down()(v[i])));
        }
        if let Some(s) = g.neighbour(id, up) {
            let m = if up {
                i - 1
            } else {
                i + 1
            };
            assert(v[m] == s);
            if k != s {
                if up && j < m {
                    assert(order::before(g.down()(v[j]), g.down()(v[m])));
                }
                if !up && m < j {
                    assert(order::before(g.down()(v[m]), g.down()(v[j])));
                }
            }
        }
    }
    if let Some(s) = g.neighbour(id, up) {
        let m = if up {
            i - 1
        } else {
            i + 1
        };
        assert(v[m] == s);
        assert(v.contains(s));
        assert(all.contains(s));
        if up {
            assert(order::before(g.down()(v[m]), g.down()(v[i])));
        } else {
            assert(order::before(g.down()(v[i]), g.down()(v[m])));
        }
    }
}

proof fn lemma_arranged(g: GraphModel, s: Set<u64>)
    requires
        s.finite(),
    ensures
        order::arranges(order::arranged(s, g.down()), s, g.down()),
{
    order::lemma_has_arrangement(s, g.down());
}

/// A node without a parent is at depth zero, and any other one link deeper than its
/// parent.
pub proof fn a_child_is_one_deeper(g: GraphModel, id: u64, d: usize, over: usize)
    requires
        g.has(id),
        depth::is_depth(g, id, d),
    ensures
        g.nodes[id].parent is None ==> d == 0,
        g.nodes[id].parent matches Some(p) ==> (g.rooted(id) && depth::is_depth(g, p, over) && d
            < usize::MAX ==> d == over + 1),
{
    if g.nodes[id].parent is None {
        assert(g.ancestor(id, 0) == Some(id));
        assert(g.ends_after(id, 0));
    }
    if let Some(p) = g.nodes[id].parent {
        if g.rooted(id) && depth::is_depth(g, p, over) && d < usize::MAX {
            let k = choose|k: nat| #[trigger] g.top_at(id, k);
            assert(g.ends_after(id, k));
            assert(k > 0) by {
                assert(g.ancestor(id, 0) == Some(id));
            }
            tree::lemma_ancestor_shift(g, id, (k - 1) as nat);
            assert(g.ancestor(p, (k - 1) as nat) == g.ancestor(id, k));
            assert(g.ends_after(p, (k - 1) as nat));
        }
    }
}

/// A repair loses no node and no text: every node that was there is there, with its text,
/// its fold and its colour. One that hung under a node that is there, and was neither the
/// root nor on a loop, hangs there still; what was on a loop hangs under the root, and the
/// root hangs nowhere. A place that is no number becomes the middle.
pub proof fn a_repair_loses_no_node(before: GraphModel, after: GraphModel, id: u64)
    requires
        sanitize::sanitized(before, after),
        before.has(before.root),
        before.has(id),
    ensures
        after.root == before.root,
        after.nodes.dom() == before.nodes.dom(),
        after.nodes[id].text == before.nodes[id].text,
        after.nodes[id].collapsed == before.nodes[id].collapsed,
        after.nodes[id].color == before.nodes[id].color,
        before.nodes[id].x.finite() ==> after.nodes[id].x == before.nodes[id].x,
        before.nodes[id].y.finite() ==> after.nodes[id].y == before.nodes[id].y,
        !before.nodes[id].x.finite() ==> after.nodes[id].x.rank() == 0,
        !before.nodes[id].y.finite() ==> after.nodes[id].y.rank() == 0,
        before.nodes[id].image is Some <==> after.nodes[id].image is Some,
        before.nodes[id].image is Some ==> after.nodes[id].image->0.name
            == before.nodes[id].image->0.name,
        id == before.root ==> after.nodes[id].parent is None,
        id != before.root && before.cleaned().on_loop(id) ==> after.nodes[id].parent == Some(
            before.root,
        ),
        id != before.root && !before.cleaned().on_loop(id) ==> (match before.nodes[id].parent {
            Some(p) => after.nodes[id].parent == (if before.has(p) && p != id {
                Some(p)
            } else {
                None
            }),
            None => after.nodes[id].parent is None,
        }),
{
    let a = before.with_root();
    let g = a.cleaned().unlooped();
    let (n, links) = choose|n: u64, links: Seq<(u64, u64)>| #[trigger]
        g.counts_past(n) && #[trigger] (GraphModel { next_id: n, ..g }).pruned().lists_undrawn(links)
            && after == (GraphModel { next_id: n, ..g }).pruned().drawn(links).pointed();
    let p = (GraphModel { next_id: n, ..g }).pruned();
    lemma_drawing_keeps_nodes(p, links);
    assert(after.nodes == g.nodes);
    assert(g.nodes.dom() =~= before.nodes.dom());
    assert(a.cleaned().has(id));
    if a.cleaned().on_loop(before.root) {
        let c = a.cleaned();
        let k = choose|k: nat| 1 <= k && #[trigger] c.ancestor(c.root, k) == Some(c.root);
        assert(c.parent_of(c.root) is None);
        tree::lemma_ancestor_shift(c, c.root, (k - 1) as nat);
    }
}

proof fn lemma_drawing_keeps_nodes(g: GraphModel, links: Seq<(u64, u64)>)
    ensures
        g.drawn(links).nodes == g.nodes,
        g.drawn(links).root == g.root,
    decreases links.len(),
{
    if links.len() > 0 {
        lemma_drawing_keeps_nodes(g, links.drop_last());
    }
}

/// Of several edges that draw one link a repair keeps the first, with its label, and it
/// keeps none that draws no link.
pub proof fn a_repair_keeps_the_first_edge(g: GraphModel, e: u64)
    ensures
        g.pruned().edges.dom().contains(e) ==> g.edges.dom().contains(e) && g.pruned().edges[e]
            == g.edges[e] && g.parent_of(g.edges[e].to) == Some(g.edges[e].from),
        g.edges.dom().contains(e) && g.parent_of(g.edges[e].to) == Some(g.edges[e].from) ==> (
        g.pruned().edges.dom().contains(e) <==> forall|f: u64| #[trigger]
            g.edges.dom().contains(f) && g.edges[f].to == g.edges[e].to && g.edges[f].from
                == g.edges[e].from ==> e <= f),
{
    if g.edges.dom().contains(e) && g.parent_of(g.edges[e].to) == Some(g.edges[e].from) {
        assert(g.wanted(e));
        if g.kept(e) {
            assert forall|f: u64| #[trigger]
                g.edges.dom().contains(f) && g.edges[f].to == g.edges[e].to && g.edges[f].from
                    == g.edges[e].from implies e <= f by {
                assert(g.wanted(f));
            }
        } else {
            let f = choose|f: u64| #[trigger]
                g.wanted(f) && g.edges[f].to == g.edges[e].to && !(e <= f);
            assert(g.edges.dom().contains(f));
        }
    }
}

/// A side of a picture is brought between its bounds, and one that is between them is left
/// alone.
pub proof fn a_side_is_brought_between_its_bounds(side: Coord)
    ensures
        ({
            let least = Coord { bits: spatial::MIN_IMAGE_BOX };
            let greatest = Coord { bits: spatial::MAX_IMAGE_BOX };
            let r = spatial::boxed(side);
            &&& least.rank() <= r.rank() <= greatest.rank()
            &&& !side.not_a_number() && least.rank() <= side.rank() <= greatest.rank() ==> r == side
            &&& !side.not_a_number() && side.rank() > greatest.rank() ==> r == greatest
            &&& side.not_a_number() || side.rank() < least.rank() ==> r == least
        }),
{
}

/// Left goes to the parent where that can be seen, and right into the branch where that
/// can be stepped into.
pub proof fn left_goes_up_and_right_goes_down<
    A: Fn(u64, &Node) -> bool,
    B: Fn(u64, &Node) -> Option<Coord>,
    T: Fn(u64, &Node) -> Option<Coord>,
>(g: &Graph, ahead: &A, beside: &B, toward: &T, r: Option<u64>, p: u64, k: u64)
    requires
        g@.nodes.dom().finite(),
        g@.has(g@.focus),
    ensures
        g@.nodes[g@.focus].parent == Some(p) && !g@.folded_above(p) && spatial::arrow_target(
            g,
            Direction::Left,
            ahead,
            beside,
            toward,
            r,
        ) ==> r == Some(p),
        g@.has(k) && g@.nodes[k].parent == Some(g@.focus) && !g@.folded_above(k)
            && !g@.nodes[g@.focus].collapsed && spatial::arrow_target(
            g,
            Direction::Right,
            ahead,
            beside,
            toward,
            r,
        ) ==> r is Some && g@.has(r->0) && g@.nodes[r->0].parent == Some(g@.focus),
{
    let m = g@;
    if m.has(k) && m.nodes[k].parent == Some(m.focus) && !m.folded_above(k)
        && !m.nodes[m.focus].collapsed && spatial::arrow_target(
        g,
        Direction::Right,
        ahead,
        beside,
        toward,
        r,
    ) {
        let s = m.steppable(m.focus);
        assert(m.children(m.focus).contains(k));
        assert(s.contains(k));
        assert(s != Set::<u64>::empty());
        assert(s.subset_of(m.nodes.dom()));
        vstd::set_lib::lemma_set_subset_finite(m.nodes.dom(), s);
        ids::lemma_has_list(s);
        let kids = ids::listed(s);
        assert(spatial::step_into(g, kids, ahead, r));
        assert(kids.contains(r->0));
        assert(s.contains(r->0));
    }
}

/// A cursor that went with what was deleted lands on the nearest of its ancestors that is
/// left, and on the root where none is.
pub proof fn the_nearest_ancestor_survives(g: GraphModel, chain: Seq<u64>, i: int)
    ensures
        0 <= i < chain.len() && g.has(chain[i]) && (forall|j: int|
            0 <= j < i ==> !g.has(#[trigger] chain[j])) ==> g.survivor(chain) == chain[i],
        (forall|j: int| 0 <= j < chain.len() ==> !g.has(#[trigger] chain[j])) ==> g.survivor(chain)
            == g.root,
    decreases chain.len(),
{
    if chain.len() > 0 {
        let rest = chain.skip(1);
        the_nearest_ancestor_survives(g, rest, i - 1);
        if 0 < i < chain.len() {
            assert(rest[i - 1] == chain[i]);
        }
        if 0 < i < chain.len() && g.has(chain[i]) && (forall|j: int|
            0 <= j < i ==> !g.has(#[trigger] chain[j])) {
            assert(!g.has(chain[0]));
            assert forall|j: int| 0 <= j < i - 1 implies !g.has(#[trigger] rest[j]) by {
                assert(rest[j] == chain[j + 1]);
            }
        }
        if forall|j: int| 0 <= j < chain.len() ==> !g.has(#[trigger] chain[j]) {
            assert(!g.has(chain[0]));
            assert forall|j: int| 0 <= j < rest.len() implies !g.has(#[trigger] rest[j]) by {
                assert(rest[j] == chain[j + 1]);
            }
        }
    }
}

/// A move shifts what it carries, each by the same shift, and leaves everything else where
/// it is. No text and no link changes.
pub proof fn a_move_shifts_what_it_carries<F: Fn(Coord, Coord) -> (Coord, Coord)>(
    before: GraphModel,
    after: GraphModel,
    who: Set<u64>,
    shift: &F,
    k: u64,
)
    requires
        spatial::shifted(before, after, who, shift),
        before.has(k),
    ensures
        after.has(k),
        who.contains(k) ==> shift.ensures(
            (before.nodes[k].x, before.nodes[k].y),
            (after.nodes[k].x, after.nodes[k].y),
        ),
        !who.contains(k) ==> after.nodes[k] == before.nodes[k],
        after.nodes[k].text == before.nodes[k].text,
        after.nodes[k].parent == before.nodes[k].parent,
        after.edges == before.edges,
        after.selected == before.selected,
{
}

/// What is carried along goes where its own place is carried, and nothing else moves.
pub proof fn a_branch_is_carried_along<C: Fn(Coord, Coord, Coord) -> Coord>(
    before: GraphModel,
    after: GraphModel,
    who: Set<u64>,
    from: (Coord, Coord),
    to: (Coord, Coord),
    carry: &C,
    k: u64,
)
    requires
        spatial::carried_along(before, after, who, from, to, carry),
        before.has(k),
    ensures
        after.has(k),
        who.contains(k) ==> carry.ensures((before.nodes[k].x, from.0, to.0), after.nodes[k].x)
            && carry.ensures((before.nodes[k].y, from.1, to.1), after.nodes[k].y),
        !who.contains(k) ==> after.nodes[k] == before.nodes[k],
        after.nodes[k].text == before.nodes[k].text,
        after.nodes[k].parent == before.nodes[k].parent,
        after.edges == before.edges,
{
}

proof fn lemma_nearest_is_one<S: Fn(u64, &Node) -> Option<Coord>>(
    g: &Graph,
    who: Set<u64>,
    score: &S,
    x: u64,
)
    requires
        spatial::nearest_by(g, who, score, Some(x)),
    ensures
        who.contains(x),
        g@.has(x),
{
    let hits = choose|hits: Seq<(u64, Coord)>| #[trigger]
        spatial::scored(g, who, score, hits) && Some(x) == spatial::nearest(hits);
    lemma_best_is_a_hit(hits);
    let i = choose|i: int| 0 <= i < hits.len() && hits[i] == spatial::best(hits)->0;
    assert(hits[i].0 == x);
}

proof fn lemma_best_is_a_hit(hits: Seq<(u64, Coord)>)
    ensures
        spatial::best(hits) matches Some(b) ==> exists|i: int| 0 <= i < hits.len() && hits[i] == b,
    decreases hits.len(),
{
    if hits.len() > 0 {
        lemma_best_is_a_hit(hits.drop_last());
        if let Some(b) = spatial::best(hits.drop_last()) {
            let i = choose|i: int| 0 <= i < hits.drop_last().len() && hits.drop_last()[i] == b;
            assert(hits[i] == b);
        }
        assert(hits[hits.len() - 1] == hits.last());
    }
}

/// An arrow to the left or to the right never lands on what a fold hides. Up and down land
/// on another node that is there: on a sibling, or on one that can be seen.
pub proof fn an_arrow_lands_on_what_can_be_seen<
    A: Fn(u64, &Node) -> bool,
    B: Fn(u64, &Node) -> Option<Coord>,
    T: Fn(u64, &Node) -> Option<Coord>,
>(g: &Graph, direction: Direction, ahead: &A, beside: &B, toward: &T, x: u64)
    requires
        g@.nodes.dom().finite(),
        spatial::arrow_target(g, direction, ahead, beside, toward, Some(x)),
    ensures
        g@.has(g@.focus),
        direction == Direction::Left || direction == Direction::Right ==> !g@.folded_above(x),
        direction == Direction::Up || direction == Direction::Down ==> g@.has(x) && x != g@.focus && (
        !g@.folded_above(x) || g@.nodes[x].parent == g@.nodes[g@.focus].parent),
{
    let m = g@;
    let cur = m.focus;
    if direction == Direction::Right && m.steppable(cur) != Set::<u64>::empty() {
        let s = m.steppable(cur);
        assert(s.subset_of(m.nodes.dom()));
        vstd::set_lib::lemma_set_subset_finite(m.nodes.dom(), s);
        ids::lemma_has_list(s);
        let kids = ids::listed(s);
        assert(spatial::step_into(g, kids, ahead, Some(x)));
        assert(kids.contains(x));
        assert(s.contains(x));
    } else if direction == Direction::Left && (m.parent_of(cur) matches Some(p) && !m.folded_above(
        p,
    )) {
    } else if direction == Direction::Left || direction == Direction::Right {
        lemma_nearest_is_one(g, m.others_in_sight(cur), toward, x);
    } else {
        match m.parent_of(cur) {
            Some(p) => {
                if spatial::nearest_by(g, m.children(p).remove(cur), beside, Some(x)) {
                    lemma_nearest_is_one(g, m.children(p).remove(cur), beside, x);
                    assert(m.children(p).contains(x));
                } else {
                    lemma_nearest_is_one(g, m.others_in_sight(cur), toward, x);
                }
            },
            None => {
                lemma_nearest_is_one(g, m.others_in_sight(cur), toward, x);
            },
        }
    }
}

} // verus!
