//! The operations on a map keep it valid.

use vstd::prelude::*;
use vstd::utf8::*;
use crate::coord::Coord;
use crate::graph::fold;
use crate::graph::laws;
use crate::graph::model;
use crate::graph::model::GraphModel;
use crate::graph::tree;
use crate::graph::Selection;
use crate::ids;
use crate::text;

verus! {

/// A new map is valid, and has no link to draw.
pub proof fn new_map_is_valid(t: Seq<char>)
    requires
        encode_utf8(t).len() <= usize::MAX,
    ensures
        model::new_map(t).valid(),
        model::new_map(t).links_ok(),
{
    let g = model::new_map(t);
    encode_utf8_valid_utf8(t);
    assert(g.ancestor(1, 0) == Some(1u64));
    assert(g.top_at(1, 0));
    assert(g.rooted(1));
}

/// `h` has the nodes of `g` with the same parents and texts, and the same edges,
/// cursor and caret.
pub open spec fn same_shape(g: GraphModel, h: GraphModel) -> bool {
    &&& h.nodes.dom() == g.nodes.dom()
    &&& forall|id: u64| #[trigger]
        g.nodes.dom().contains(id) ==> h.nodes[id].parent == g.nodes[id].parent && h.nodes[id].text
            == g.nodes[id].text
    &&& h == (GraphModel { nodes: h.nodes, ..g })
}

pub proof fn lemma_same_shape(g: GraphModel, h: GraphModel)
    requires
        same_shape(g, h),
        g.valid(),
    ensures
        h.valid(),
        g.links_ok() ==> h.links_ok(),
{
    assert forall|id: u64| #[trigger] h.parent_of(id) == g.parent_of(id) by {
        assert(g.nodes.dom().contains(id) <==> h.nodes.dom().contains(id));
    }
    assert forall|id: u64| h.has(id) implies #[trigger] h.rooted(id) by {
        assert(g.rooted(id));
        let k = choose|k: nat| #[trigger] g.top_at(id, k);
        fold::lemma_same_parents(g, h, id, k);
        assert(h.top_at(id, k));
    }
    assert forall|id: u64| (#[trigger] h.parent_of(id)) is Some implies h.has(
        h.parent_of(id)->0,
    ) by {
        assert(g.parent_of(id) == h.parent_of(id));
    }
    lemma_edges_carried(g, h);
    assert forall|id: u64| #[trigger] h.has(id) implies h.past(id) by {
        assert(g.has(id));
    }
    assert forall|e: u64| #[trigger] h.edges.dom().contains(e) implies h.past(e) by {
        assert(g.edges.dom().contains(e));
    }
    assert(h.active_text() == g.active_text());
}

/// With the same parents and the same edges, the same links are drawn.
pub proof fn lemma_edges_carried(g: GraphModel, h: GraphModel)
    requires
        h.edges == g.edges,
        h.nodes.dom() == g.nodes.dom(),
        forall|id: u64| #[trigger] h.parent_of(id) == g.parent_of(id),
    ensures
        g.edges_ok() ==> h.edges_ok(),
        g.links_ok() ==> h.links_ok(),
{
    assert forall|e: u64| #[trigger] g.wanted(e) <==> h.wanted(e) by {
        let to = g.edges[e].to;
        assert(h.parent_of(to) == g.parent_of(to));
    }
    assert forall|c: u64| #[trigger] g.is_drawn(c) implies h.is_drawn(c) by {
        let e = choose|e: u64| #[trigger] g.wanted(e) && g.edges[e].to == c;
        assert(h.wanted(e));
    }
    if g.edges_ok() {
        assert forall|e: u64, f: u64| #[trigger]
            h.wanted(e) && #[trigger] h.wanted(f) && h.edges[e].to == h.edges[f].to implies e == f by {
            assert(g.wanted(e) && g.wanted(f));
        }
        assert forall|e: u64| #[trigger] h.edges.dom().contains(e) implies h.wanted(e) by {
            assert(g.edges.dom().contains(e));
            assert(g.wanted(e));
        }
    }
    if g.links_ok() {
        assert forall|id: u64| #[trigger] h.has(id) && h.nodes[id].parent is Some implies h.is_drawn(
            id,
        ) by {
            assert(g.has(id));
            assert(h.parent_of(id) == g.parent_of(id));
            assert(g.is_drawn(id));
        }
    }
}

/// Folding, unfolding and revealing keep a map valid.
pub proof fn folding_keeps_valid(g: GraphModel, id: u64, collapsed: bool)
    requires
        g.valid(),
    ensures
        g.with_fold(id, collapsed).valid(),
        g.revealed(id).valid(),
        g.opened(id).valid(),
        g.links_ok() ==> g.with_fold(id, collapsed).links_ok() && g.revealed(id).links_ok()
            && g.opened(id).links_ok(),
{
    let a = g.with_fold(id, collapsed);
    assert(a.nodes.dom() =~= g.nodes.dom());
    lemma_same_shape(g, a);
    let b = g.revealed(id);
    assert(b.nodes.dom() =~= g.nodes.dom());
    lemma_same_shape(g, b);
    let c = g.with_fold(id, false);
    assert(c.nodes.dom() =~= g.nodes.dom());
    lemma_same_shape(g, c);
    let d = g.opened(id);
    assert(d.nodes.dom() =~= c.nodes.dom());
    lemma_same_shape(c, d);
}

/// A node that nothing hangs under may come and go: the ancestors of the others
/// do not change.
proof fn lemma_new_leaf(g: GraphModel, h: GraphModel, id: u64)
    requires
        g.tree_ok(),
        !g.has(id),
        h.root == g.root,
        h.nodes.dom() == g.nodes.dom().insert(id),
        forall|x: u64| x != id ==> #[trigger] h.parent_of(x) == g.parent_of(x),
        h.parent_of(id) matches Some(p) ==> g.has(p),
    ensures
        h.tree_ok(),
{
    assert forall|x: u64| g.has(x) implies #[trigger] h.rooted(x) by {
        assert(g.rooted(x));
        assert forall|a: u64| #[trigger] g.above(a, x) implies g.has(a) by {
            laws::lemma_above_has(g, a, x);
        }
        laws::lemma_still_rooted(g, h, x);
    }
    assert(h.rooted(id)) by {
        match h.parent_of(id) {
            Some(p) => {
                assert(h.rooted(p));
                let k = choose|k: nat| #[trigger] h.top_at(p, k);
                tree::lemma_ancestor_shift(h, id, k);
                assert(h.top_at(id, k + 1));
            },
            None => {
                assert(h.ancestor(id, 0) == Some(id));
                assert(h.top_at(id, 0));
            },
        }
    }
    assert forall|x: u64| (#[trigger] h.parent_of(x)) is Some implies h.has(h.parent_of(x)->0) by {
        if x != id {
            assert(h.parent_of(x) == g.parent_of(x));
        }
    }
}

/// Creating a child keeps a map valid and every link drawn. What it makes is a
/// new node, under the parent that was asked for.
pub proof fn create_keeps_valid(g: GraphModel, parent: u64, t: Seq<char>, x: Coord, y: Coord)
    requires
        g.valid(),
        g.has(parent),
        encode_utf8(t).len() <= usize::MAX,
    ensures
        g.child_created(parent, t, x, y).1.valid(),
        g.links_ok() ==> g.child_created(parent, t, x, y).1.links_ok(),
        g.child_created(parent, t, x, y).0 matches Some(id) ==> {
            &&& !g.has(id)
            &&& g.child_created(parent, t, x, y).1.parent_of(id) == Some(parent)
        },
        g.child_created(parent, t, x, y).0 is None ==> g.next_id >= u64::MAX - 1,
{
    folding_keeps_valid(g, parent, false);
    let o = g.opened(parent);
    let (r, h) = g.child_created(parent, t, x, y);
    let id = o.next_id;
    let eid = (id + 1) as u64;
    if r is Some {
        assert(h.nodes.dom() =~= o.nodes.dom().insert(id));
        assert forall|k: u64| k != id implies #[trigger] h.parent_of(k) == o.parent_of(k) by {}
        lemma_new_leaf(o, h, id);
        assert(h.wanted(eid));
        assert forall|e: u64| e != eid implies (#[trigger] h.wanted(e) <==> o.wanted(e)) by {
            if o.wanted(e) {
                assert(o.has(o.edges[e].to));
            }
            if h.wanted(e) {
                assert(o.edges.dom().contains(e));
                assert(o.wanted(e));
            }
        }
        assert forall|e: u64| #[trigger] h.edges.dom().contains(e) implies h.wanted(e) by {
            if e != eid {
                assert(o.edges.dom().contains(e));
                assert(o.wanted(e));
            }
        }
        assert forall|e: u64, f: u64| #[trigger]
            h.wanted(e) && #[trigger] h.wanted(f) && h.edges[e].to == h.edges[f].to implies e == f by {
            if e != eid && f != eid {
                assert(o.wanted(e) && o.wanted(f));
            } else if e != f {
                let other = if e == eid {
                    f
                } else {
                    e
                };
                assert(o.wanted(other));
                assert(o.edges[other].to == id);
            }
        }
        if g.links_ok() {
            assert forall|k: u64| #[trigger] h.has(k) && h.nodes[k].parent is Some implies h.is_drawn(
                k,
            ) by {
                if k == id {
                    assert(h.wanted(eid));
                } else {
                    assert(o.has(k));
                    assert(o.is_drawn(k));
                    let e = choose|e: u64| #[trigger] o.wanted(e) && o.edges[e].to == k;
                    assert(h.wanted(e));
                }
            }
        }
        assert forall|k: u64| #[trigger] h.has(k) implies h.past(k) by {
            if k != id {
                assert(o.has(k));
                assert(o.past(k));
            }
        }
        assert forall|e: u64| #[trigger] h.edges.dom().contains(e) implies h.past(e) by {
            if e != eid {
                assert(o.edges.dom().contains(e));
                assert(o.past(e));
            }
        }
        assert(h.active_text() == t);
        encode_utf8_valid_utf8(t);
    } else {
        lemma_not_free(o, id);
        if id != u64::MAX {
            lemma_not_free(o, eid);
        }
    }
}

/// A counter that has passed every id is at its end where it is not free.
proof fn lemma_not_free(g: GraphModel, id: u64)
    requires
        g.ids_ok(),
        id >= g.next_id,
    ensures
        g.free(id) || id == u64::MAX || g.next_id == u64::MAX,
{
    if g.has(id) {
        assert(g.past(id));
    }
    if g.edges.dom().contains(id) {
        assert(g.past(id));
    }
}

/// Creating a floating node keeps a map valid.
pub proof fn create_free_keeps_valid(g: GraphModel, x: Coord, y: Coord)
    requires
        g.valid(),
    ensures
        g.free_created(x, y).1.valid(),
        g.links_ok() ==> g.free_created(x, y).1.links_ok(),
        g.free_created(x, y).0 matches Some(id) ==> !g.has(id),
        g.free_created(x, y).0 is None ==> g.next_id == u64::MAX,
{
    let (r, h) = g.free_created(x, y);
    let id = g.next_id;
    lemma_not_free(g, id);
    if r is Some {
        assert(h.nodes.dom() =~= g.nodes.dom().insert(id));
        assert forall|k: u64| k != id implies #[trigger] h.parent_of(k) == g.parent_of(k) by {}
        lemma_new_leaf(g, h, id);
        assert forall|e: u64| #[trigger] h.wanted(e) <==> g.wanted(e) by {
            if g.wanted(e) {
                assert(g.has(g.edges[e].to));
            }
        }
        assert forall|e: u64, f: u64| #[trigger]
            h.wanted(e) && #[trigger] h.wanted(f) && h.edges[e].to == h.edges[f].to implies e == f by {
            assert(g.wanted(e) && g.wanted(f));
        }
        assert forall|e: u64| #[trigger] h.edges.dom().contains(e) implies h.wanted(e) by {
            assert(g.edges.dom().contains(e));
            assert(g.wanted(e));
        }
        if g.links_ok() {
            assert forall|k: u64| #[trigger] h.has(k) && h.nodes[k].parent is Some implies h.is_drawn(
                k,
            ) by {
                assert(g.has(k));
                assert(g.is_drawn(k));
                let e = choose|e: u64| #[trigger] g.wanted(e) && g.edges[e].to == k;
                assert(h.wanted(e));
            }
        }
        assert forall|k: u64| #[trigger] h.has(k) implies h.past(k) by {
            if k != id {
                assert(g.has(k));
                assert(g.past(k));
            }
        }
        assert forall|e: u64| #[trigger] h.edges.dom().contains(e) implies h.past(e) by {
            assert(g.edges.dom().contains(e));
            assert(g.past(e));
        }
        assert(h.active_text() =~= Seq::<char>::empty());
        assert(text::boundary(h.active_bytes(), 0));
    }
}

/// Hanging `id` elsewhere keeps a tree one, as long as it is not hung under
/// itself.
proof fn lemma_rehung(g: GraphModel, h: GraphModel, id: u64)
    requires
        g.tree_ok(),
        g.has(id),
        id != g.root,
        h.root == g.root,
        h.nodes.dom() == g.nodes.dom(),
        forall|x: u64| x != id ==> #[trigger] h.parent_of(x) == g.parent_of(x),
        h.parent_of(id) matches Some(p) ==> g.has(p) && !g.above(id, p),
    ensures
        h.tree_ok(),
{
    assert forall|x: u64| g.has(x) && !g.above(id, x) implies #[trigger] h.rooted(x) by {
        assert(g.rooted(x));
        assert forall|a: u64| #[trigger] g.above(a, x) implies g.has(a) by {
            laws::lemma_above_has(g, a, x);
        }
        laws::lemma_still_rooted(g, h, x);
    }
    assert(h.rooted(id)) by {
        match h.parent_of(id) {
            Some(p) => {
                assert(h.rooted(p));
                let k = choose|k: nat| #[trigger] h.top_at(p, k);
                tree::lemma_ancestor_shift(h, id, k);
                assert(h.top_at(id, k + 1));
            },
            None => {
                assert(h.ancestor(id, 0) == Some(id));
                assert(h.top_at(id, 0));
            },
        }
    }
    assert forall|x: u64| h.has(x) implies #[trigger] h.rooted(x) by {
        if g.above(id, x) {
            let k = choose|k: nat| g.ancestor(x, k) == Some(id);
            lemma_way_to(g, h, id, x, k);
            let j = choose|j: nat| h.ancestor(x, j) == Some(id);
            let t = choose|t: nat| #[trigger] h.top_at(id, t);
            tree::lemma_ancestor_sum(h, x, j, t);
            assert(h.top_at(x, j + t));
        }
    }
    assert forall|x: u64| (#[trigger] h.parent_of(x)) is Some implies h.has(h.parent_of(x)->0) by {
        if x != id {
            assert(h.parent_of(x) == g.parent_of(x));
        }
    }
}

/// The way up to `id` does not depend on where `id` hangs.
proof fn lemma_way_to(g: GraphModel, h: GraphModel, id: u64, x: u64, k: nat)
    requires
        forall|a: u64| a != id ==> #[trigger] h.parent_of(a) == g.parent_of(a),
        g.ancestor(x, k) == Some(id),
    ensures
        exists|j: nat| h.ancestor(x, j) == Some(id),
    decreases k,
{
    if exists|m: nat| m < k && #[trigger] g.ancestor(x, m) == Some(id) {
        let m = choose|m: nat| m < k && #[trigger] g.ancestor(x, m) == Some(id);
        lemma_way_to(g, h, id, x, m);
    } else {
        assert forall|j: nat| j < k implies (#[trigger] g.ancestor(x, j) matches Some(a)
            ==> g.parent_of(a) == h.parent_of(a)) by {
            if let Some(a) = g.ancestor(x, j) {
                assert(a != id);
            }
        }
        laws::lemma_same_way(g, h, x, k);
        assert(h.ancestor(x, k) == Some(id));
    }
}

/// Taking out the edges into `id`, and hanging it elsewhere.
proof fn lemma_unlinked(g: GraphModel, h: GraphModel, id: u64)
    requires
        g.valid(),
        g.has(id),
        id != g.root,
        g.edge_focus matches Some(e) ==> g.edges[e].to != id,
        h.nodes.dom() == g.nodes.dom(),
        forall|x: u64| x != id ==> #[trigger] h.parent_of(x) == g.parent_of(x),
        forall|x: u64| #[trigger] g.nodes.dom().contains(x) ==> h.nodes[x].text == g.nodes[x].text,
        h.parent_of(id) matches Some(p) ==> g.has(p) && !g.above(id, p),
        h == (GraphModel { nodes: h.nodes, edges: g.edges.remove_keys(g.edges_into(id)), ..g }),
    ensures
        h.valid(),
        !h.is_drawn(id),
        g.links_ok() ==> forall|k: u64| #[trigger]
            h.has(k) && k != id && h.nodes[k].parent is Some ==> h.is_drawn(k),
{
    lemma_rehung(g, h, id);
    assert forall|e: u64| #[trigger] h.wanted(e) <==> g.wanted(e) && g.edges[e].to != id by {
        if h.edges.dom().contains(e) {
            let to = g.edges[e].to;
            assert(h.parent_of(to) == g.parent_of(to) || to == id);
        }
        if g.wanted(e) && g.edges[e].to != id {
            assert(!g.edges_into(id).contains(e));
            assert(h.edges.dom().contains(e));
        }
    }
    assert forall|e: u64, f: u64| #[trigger]
        h.wanted(e) && #[trigger] h.wanted(f) && h.edges[e].to == h.edges[f].to implies e == f by {
        assert(g.wanted(e) && g.wanted(f));
    }
    assert forall|e: u64| #[trigger] h.edges.dom().contains(e) implies h.wanted(e) by {
        assert(g.edges.dom().contains(e));
        assert(g.wanted(e));
    }
    assert forall|k: u64| #[trigger] h.has(k) implies h.past(k) by {
        assert(g.has(k));
        assert(g.past(k));
    }
    assert forall|e: u64| #[trigger] h.edges.dom().contains(e) implies h.past(e) by {
        assert(g.edges.dom().contains(e));
        assert(g.past(e));
    }
    if g.links_ok() {
        assert forall|k: u64| #[trigger]
            h.has(k) && k != id && h.nodes[k].parent is Some implies h.is_drawn(k) by {
            assert(g.has(k));
            assert(h.parent_of(k) == g.parent_of(k));
            assert(g.is_drawn(k));
            let e = choose|e: u64| #[trigger] g.wanted(e) && g.edges[e].to == k;
            assert(h.wanted(e));
        }
    }
    assert(h.active_text() == g.active_text());
}

/// Hanging a node under another keeps a map valid and every link drawn, unless
/// the ids have run out. The edge that is looked at must not be the one replaced.
pub proof fn reparent_keeps_valid(g: GraphModel, id: u64, parent: u64)
    requires
        g.valid(),
        g.may_hang(id, parent),
        g.edge_focus matches Some(e) ==> g.edges[e].to != id,
    ensures
        g.reparented(id, parent).valid(),
        g.reparented(id, parent).parent_of(id) == Some(parent),
        g.links_ok() && g.next_id != u64::MAX ==> g.reparented(id, parent).links_ok(),
{
    let u = g.unlinked(id);
    let o = u.opened(parent);
    let h = o.hung(id, Some(parent));
    assert(o.nodes.dom() =~= g.nodes.dom());
    assert(h.nodes.dom() =~= g.nodes.dom());
    assert forall|x: u64| x != id implies #[trigger] h.parent_of(x) == g.parent_of(x) by {
        assert(u.has(x) <==> g.has(x));
    }
    assert(!g.above(id, parent)) by {
        assert(!g.subtree(id).contains(parent));
    }
    lemma_unlinked(g, h, id);
    let label = g.label_into(id);
    let r = g.reparented(id, parent);
    let eid = h.next_id;
    lemma_not_free(h, eid);
    if h.free(eid) {
        laws::lemma_same_tree(h, r);
        assert(r.wanted(eid));
        assert forall|e: u64| e != eid implies (#[trigger] r.wanted(e) <==> h.wanted(e)) by {}
        assert forall|e: u64| #[trigger] r.edges.dom().contains(e) implies r.wanted(e) by {
            if e != eid {
                assert(h.edges.dom().contains(e));
                assert(h.wanted(e));
            }
        }
        assert forall|e: u64, f: u64| #[trigger]
            r.wanted(e) && #[trigger] r.wanted(f) && r.edges[e].to == r.edges[f].to implies e == f by {
            if e != eid && f != eid {
                assert(h.wanted(e) && h.wanted(f));
            } else if e != f {
                let other = if e == eid {
                    f
                } else {
                    e
                };
                assert(h.wanted(other) && h.edges[other].to == id);
                assert(h.is_drawn(id));
            }
        }
        assert forall|k: u64| #[trigger] r.has(k) implies r.past(k) by {
            assert(h.has(k));
            assert(h.past(k));
        }
        assert forall|e: u64| #[trigger] r.edges.dom().contains(e) implies r.past(e) by {
            if e != eid {
                assert(h.edges.dom().contains(e));
                assert(h.past(e));
            }
        }
        if g.links_ok() {
            assert forall|k: u64| #[trigger] r.has(k) && r.nodes[k].parent is Some implies r.is_drawn(
                k,
            ) by {
                if k == id {
                    assert(r.wanted(eid));
                } else {
                    assert(h.has(k));
                    assert(h.is_drawn(k));
                    let e = choose|e: u64| #[trigger] h.wanted(e) && h.edges[e].to == k;
                    assert(r.wanted(e));
                }
            }
        }
        assert(r.active_text() == h.active_text());
    }
}

/// Cutting a node's link keeps a map valid and every link drawn. The edge that is
/// looked at must not be the one cut.
pub proof fn detach_keeps_valid(g: GraphModel, id: u64)
    requires
        g.valid(),
        g.parent_of(id) is Some,
        g.edge_focus matches Some(e) ==> g.edges[e].to != id,
    ensures
        g.unlinked(id).hung(id, None).valid(),
        g.unlinked(id).hung(id, None).parent_of(id) is None,
        g.links_ok() ==> g.unlinked(id).hung(id, None).links_ok(),
{
    let h = g.unlinked(id).hung(id, None);
    assert(h.nodes.dom() =~= g.nodes.dom());
    assert forall|x: u64| x != id implies #[trigger] h.parent_of(x) == g.parent_of(x) by {}
    lemma_unlinked(g, h, id);
    if g.links_ok() {
        assert forall|k: u64| #[trigger] h.has(k) && h.nodes[k].parent is Some implies h.is_drawn(
            k,
        ) by {
            assert(k != id);
        }
    }
}

// ---------------------------------------------------------------------------
// Deleting
// ---------------------------------------------------------------------------

/// After a text that fits, the caret stands at a boundary.
proof fn lemma_end_ok(h: GraphModel)
    requires
        h.texts_fit(),
        h.caret == h.caret_at_end().caret,
        h.anchor is None,
    ensures
        h.caret_ok(),
        h.anchor_ok(),
{
    encode_utf8_valid_utf8(h.active_text());
    match h.selection() {
        Selection::Edge(e) => {
            assert(h.edges.dom().contains(e));
        },
        Selection::Node(n) => {
            if h.has(n) {
                assert(encode_utf8(h.nodes[n].text).len() <= usize::MAX);
            }
        },
    }
}

/// What stands above something outside a subtree stands outside it too.
proof fn lemma_outside(g: GraphModel, top: u64, a: u64, x: u64)
    requires
        g.has(top),
        g.has(x),
        g.has(a),
        g.above(a, x),
        !g.subtree(top).contains(x),
    ensures
        !g.subtree(top).contains(a),
{
    if g.above(top, a) {
        laws::lemma_above_chain(g, top, a, x);
    }
}

/// Taking out a set that holds with a node everything under it leaves the others'
/// ancestors as they were.
proof fn lemma_pruned_tree(g: GraphModel, h: GraphModel, gone: Set<u64>)
    requires
        g.tree_ok(),
        h.nodes == g.nodes.remove_keys(gone),
        h.root == g.root,
        !gone.contains(g.root),
        forall|a: u64, x: u64|
            g.has(x) && !gone.contains(x) && #[trigger] g.above(a, x) ==> !gone.contains(a),
    ensures
        h.tree_ok(),
        forall|a: u64, x: u64| h.has(x) ==> (#[trigger] h.above(a, x) <==> g.above(a, x)),
{
    assert forall|x: u64| h.has(x) implies #[trigger] h.rooted(x) by {
        assert(g.rooted(x));
        assert forall|a: u64| #[trigger] g.above(a, x) implies g.has(a) by {
            laws::lemma_above_has(g, a, x);
        }
        assert forall|a: u64| #[trigger] g.above(a, x) && g.has(a) implies h.has(a) && h.parent_of(
            a,
        ) == g.parent_of(a) by {
            assert(!gone.contains(a));
        }
        laws::lemma_still_rooted(g, h, x);
    }
    assert forall|x: u64| (#[trigger] h.parent_of(x)) is Some implies h.has(h.parent_of(x)->0) by {
        let p = h.parent_of(x)->0;
        assert(g.parent_of(x) == Some(p));
        assert(g.ancestor(x, 0) == Some(x));
        assert(g.ancestor(x, 1) == Some(p));
        assert(g.above(p, x));
    }
    assert forall|a: u64, x: u64| h.has(x) implies (#[trigger] h.above(a, x) <==> g.above(a, x)) by {
        assert forall|k: nat| #[trigger] g.ancestor(x, k) == h.ancestor(x, k) by {
            assert forall|j: nat| j < k implies (#[trigger] g.ancestor(x, j) matches Some(b)
                ==> g.parent_of(b) == h.parent_of(b)) by {
                if let Some(b) = g.ancestor(x, j) {
                    assert(g.above(b, x));
                    assert(!gone.contains(b));
                }
            }
            laws::lemma_same_way(g, h, x, k);
        }
        if h.above(a, x) {
            let k = choose|k: nat| h.ancestor(x, k) == Some(a);
            assert(g.ancestor(x, k) == Some(a));
        }
        if g.above(a, x) {
            let k = choose|k: nat| g.ancestor(x, k) == Some(a);
            assert(h.ancestor(x, k) == Some(a));
        }
    }
}

/// The root is in no subtree but its own.
proof fn lemma_root_outside(g: GraphModel, id: u64)
    requires
        g.tree_ok(),
        id != g.root,
    ensures
        !g.subtree(id).contains(g.root),
{
    if g.subtree(id).contains(g.root) {
        laws::lemma_above_top(g, id, g.root);
    }
}

/// Deleting a subtree keeps a map valid and every link drawn. The root survives,
/// and exactly the subtree goes.
pub proof fn delete_keeps_valid(g: GraphModel, id: u64)
    requires
        g.valid(),
        g.texts_fit(),
    ensures
        g.deleted(id).valid(),
        g.deleted(id).texts_fit(),
        g.links_ok() ==> g.deleted(id).links_ok(),
        g.deleted(id).has(g.root),
        g.deleted(id).nodes == (if id == g.root {
            g.nodes
        } else {
            g.nodes.remove_keys(g.subtree(id))
        }),
{
    let gone = g.subtree(id);
    let h = g.deleted(id);
    if id != g.root && g.has(id) {
        lemma_root_outside(g, id);
        assert forall|a: u64, x: u64|
            g.has(x) && !gone.contains(x) && #[trigger] g.above(a, x) implies !gone.contains(a) by {
            laws::lemma_above_has(g, a, x);
            lemma_outside(g, id, a, x);
        }
        lemma_pruned_tree(g, h, gone);
        assert forall|e: u64| #[trigger] h.edges.dom().contains(e) implies h.wanted(e) by {
            assert(g.edges.dom().contains(e));
            assert(g.wanted(e));
        }
        assert forall|e: u64| #[trigger] h.wanted(e) implies g.wanted(e) by {
            assert(g.edges.dom().contains(e));
        }
        assert forall|e: u64, f: u64| #[trigger]
            h.wanted(e) && #[trigger] h.wanted(f) && h.edges[e].to == h.edges[f].to implies e == f by {
            assert(g.wanted(e) && g.wanted(f));
        }
        assert forall|k: u64| #[trigger] h.has(k) implies h.past(k) by {
            assert(g.has(k));
            assert(g.past(k));
        }
        assert forall|e: u64| #[trigger] h.edges.dom().contains(e) implies h.past(e) by {
            assert(g.edges.dom().contains(e));
            assert(g.past(e));
        }
        if g.links_ok() {
            assert forall|k: u64| #[trigger] h.has(k) && h.nodes[k].parent is Some implies h.is_drawn(
                k,
            ) by {
                assert(g.has(k));
                assert(g.is_drawn(k));
                let e = choose|e: u64| #[trigger] g.wanted(e) && g.edges[e].to == k;
                let p = g.edges[e].from;
                assert(g.parent_of(k) == Some(p));
                assert(g.ancestor(k, 0) == Some(k));
                assert(g.ancestor(k, 1) == Some(p));
                assert(g.above(p, k));
                assert(!gone.contains(p));
                assert(h.edges.dom().contains(e));
                assert(h.wanted(e));
            }
        }
        assert forall|k: u64| #[trigger] h.has(k) implies encode_utf8(h.nodes[k].text).len()
            <= usize::MAX by {
            assert(g.has(k));
        }
        assert forall|e: u64| #[trigger] h.edges.dom().contains(e) implies encode_utf8(
            h.edges[e].label,
        ).len() <= usize::MAX by {
            assert(g.edges.dom().contains(e));
        }
        lemma_end_ok(h);
    } else if !g.has(id) {
        assert(g.nodes.remove_keys(gone) =~= g.nodes);
    }
}

/// Deleting the subtrees of the first `n` of `v` takes exactly what they doom.
proof fn lemma_all_deleted(g: GraphModel, v: Seq<u64>, n: nat)
    requires
        g.valid(),
        g.texts_fit(),
        n <= v.len(),
        forall|i: int| 0 <= i < v.len() ==> g.has(#[trigger] v[i]),
    ensures
        ({
            let h = g.all_deleted(v.take(n as int));
            &&& h.valid()
            &&& h.texts_fit()
            &&& h.root == g.root
            &&& g.links_ok() ==> h.links_ok()
            &&& h.nodes == g.nodes.remove_keys(g.doomed(v.take(n as int).to_set()))
        }),
    decreases n,
{
    let u = v.take(n as int);
    if n == 0 {
        assert(u =~= Seq::<u64>::empty());
        assert(g.doomed(u.to_set()) =~= Set::<u64>::empty());
        assert(g.nodes.remove_keys(Set::<u64>::empty()) =~= g.nodes);
    } else {
        let m = (n - 1) as nat;
        lemma_all_deleted(g, v, m);
        let t = v.take(m as int);
        let id = v[m as int];
        assert(u.drop_last() =~= t);
        assert(u.last() == id);
        let h = g.all_deleted(t);
        let gone = g.doomed(t.to_set());
        delete_keeps_valid(h, id);
        ids::lemma_contains_push(v, m as int);
        assert forall|a: u64, x: u64|
            g.has(x) && !gone.contains(x) && #[trigger] g.above(a, x) implies !gone.contains(a) by {
            if gone.contains(a) {
                let k = choose|k: u64|
                    t.to_set().contains(k) && k != g.root && #[trigger] g.subtree(k).contains(a);
                laws::lemma_above_chain(g, k, a, x);
                assert(g.subtree(k).contains(x));
                lemma_root_outside(g, k);
            }
        }
        lemma_pruned_tree(g, h, gone);
        let now = g.doomed(u.to_set());
        assert forall|x: u64| g.has(x) implies (#[trigger] now.contains(x) <==> gone.contains(x) || (
        id != g.root && h.subtree(id).contains(x))) by {
            if now.contains(x) {
                let k = choose|k: u64|
                    u.to_set().contains(k) && k != g.root && #[trigger] g.subtree(k).contains(x);
                if t.contains(k) {
                    assert(t.to_set().contains(k));
                } else {
                    assert(k == id);
                    if !gone.contains(x) {
                        assert(h.has(x));
                        assert(h.above(id, x));
                        if gone.contains(id) {
                            assert(g.above(id, x));
                        }
                        assert(h.has(id));
                    }
                }
            }
            if gone.contains(x) {
                let k = choose|k: u64|
                    t.to_set().contains(k) && k != g.root && #[trigger] g.subtree(k).contains(x);
                assert(u.contains(k));
                assert(u.to_set().contains(k));
            }
            if id != g.root && h.subtree(id).contains(x) {
                assert(h.above(id, x));
                assert(g.above(id, x));
                assert(g.subtree(id).contains(x));
                assert(u.contains(id));
                assert(u.to_set().contains(id));
                lemma_root_outside(g, id);
            }
        }
        assert(g.all_deleted(u).nodes =~= g.nodes.remove_keys(now));
    }
}

/// Deleting the selection keeps a map valid. Exactly what the selected nodes doom
/// goes, which never takes the root, and nothing is selected then.
pub proof fn delete_selection_keeps_valid(g: GraphModel)
    requires
        g.valid(),
        g.texts_fit(),
        g.nodes.dom().finite(),
    ensures
        g.selection_of_nodes_deleted().valid(),
        g.links_ok() ==> g.selection_of_nodes_deleted().links_ok(),
        g.selection_of_nodes_deleted().nodes == g.nodes.remove_keys(g.doomed(g.selected)),
        g.selection_of_nodes_deleted().has(g.root),
        g.selection_of_nodes_deleted().nodes.dom().len() + g.doomed(g.selected).len()
            == g.nodes.dom().len(),
        g.selection_of_nodes_deleted().selected == Set::<u64>::empty(),
{
    vstd::set_lib::lemma_len_subset(g.selected, g.nodes.dom());
    ids::lemma_has_list(g.selected);
    let v = ids::listed(g.selected);
    assert forall|i: int| 0 <= i < v.len() implies g.has(#[trigger] v[i]) by {
        assert(v.contains(v[i]));
    }
    lemma_all_deleted(g, v, v.len());
    assert(v.take(v.len() as int) =~= v);
    assert(v.to_set() =~= g.selected);
    let a = g.all_deleted(v);
    let h = GraphModel { selected: Set::empty(), ..a };
    laws::lemma_same_tree(a, h);
    laws::lemma_same_links(a, h);
    assert forall|k: u64| #[trigger] h.has(k) implies h.past(k) by {
        assert(a.has(k));
        assert(a.past(k));
    }
    assert forall|e: u64| #[trigger] h.edges.dom().contains(e) implies h.past(e) by {
        assert(a.edges.dom().contains(e));
        assert(a.past(e));
    }
    assert(h.active_text() == a.active_text());
    assert(h.focus_ok());
    let gone = g.doomed(g.selected);
    assert(!gone.contains(g.root));
    assert(h.nodes.dom() =~= g.nodes.dom().difference(gone));
    assert(gone.subset_of(g.nodes.dom()));
    vstd::set_lib::lemma_len_subset(gone, g.nodes.dom());
    vstd::set_lib::lemma_set_disjoint_lens(h.nodes.dom(), gone);
    assert(h.nodes.dom() + gone =~= g.nodes.dom());
}

// ---------------------------------------------------------------------------
// Folding
// ---------------------------------------------------------------------------

/// What was revealed is not hidden, and what was opened is not folded either: a
/// child made under a node, and a branch hung under it, can be seen.
pub proof fn revealed_is_not_hidden(g: GraphModel, id: u64)
    ensures
        !g.revealed(id).folded_above(id),
        !g.opened(id).folded_above(id),
        !g.opened(id).collapsed(id),
        forall|a: u64| #[trigger] g.over(a, id) ==> !g.opened(id).collapsed(a),
{
    lemma_revealed(g, id);
    let h = g.with_fold(id, false);
    lemma_revealed(h, id);
    assert forall|x: u64| #[trigger] g.parent_of(x) == h.parent_of(x) by {}
    assert forall|a: u64| #[trigger] g.over(a, id) implies !g.opened(id).collapsed(a) by {
        let k = choose|k: nat| 1 <= k && #[trigger] g.ancestor(id, k) == Some(a);
        fold::lemma_same_parents(g, h, id, k);
        assert(h.ancestor(id, k) == Some(a));
        assert(h.over(a, id));
    }
}

proof fn lemma_revealed(g: GraphModel, id: u64)
    ensures
        !g.revealed(id).folded_above(id),
{
    let h = g.revealed(id);
    assert forall|x: u64| #[trigger] g.parent_of(x) == h.parent_of(x) by {}
    if h.folded_above(id) {
        let k = choose|k: nat| 1 <= k && #[trigger] h.folded_at(id, k);
        fold::lemma_same_parents(g, h, id, k);
        let a = h.ancestor(id, k)->0;
        assert(g.ancestor(id, k) == Some(a));
        assert(g.over(a, id));
    }
}

/// Asking about one node and asking about all agree: what is hidden is what has a
/// folded ancestor, however far up.
pub proof fn hidden_is_folded_above(g: GraphModel)
    requires
        g.tree_ok(),
    ensures
        g.hidden() == g.nodes.dom().filter(|id: u64| g.folded_above(id)),
{
    assert(g.hidden() =~= g.nodes.dom().filter(|id: u64| g.folded_above(id)));
}

/// Folding never leaves the cursor or the selection on something hidden, when
/// neither the cursor nor what is folded was hidden before.
pub proof fn folding_keeps_cursor_in_sight(g: GraphModel, id: u64)
    requires
        g.has(id),
        g.rooted(id),
        !g.folded_above(id),
        !g.folded_above(g.focus),
    ensures
        !g.fold_toggled(id).folded_above(g.fold_toggled(id).focus),
        forall|s: u64| #[trigger]
            g.fold_toggled(id).selected.contains(s) ==> !g.fold_toggled(id).folded_above(s),
        g.fold_toggled(id).selected != Set::<u64>::empty(),
{
    let a = g.with_fold(id, !g.collapsed(id));
    let b = if a.collapsed(id) && (a.folded_above(a.focus) || a.focus == id) {
        a.focused_on(id)
    } else {
        a
    };
    let h = g.fold_toggled(id);
    assert(b.nodes == a.nodes && h.nodes == a.nodes);
    assert forall|x: u64| #[trigger] g.parent_of(x) == a.parent_of(x) by {}
    assert forall|x: u64| #[trigger] a.folded_above(x) == b.folded_above(x) && a.folded_above(x) == h.folded_above(x) by {
        fold::lemma_fold_same(a, b, x);
        fold::lemma_fold_same(a, h, x);
    }
    // Only `id` changed, and it is not above itself where it was not hidden.
    assert(!a.folded_above(id)) by {
        if a.folded_above(id) {
            let k = choose|k: nat| 1 <= k && #[trigger] a.folded_at(id, k);
            fold::lemma_same_parents(g, a, id, k);
            let p = a.ancestor(id, k)->0;
            if p != id {
                assert(g.folded_at(id, k));
            } else {
                laws::lemma_no_loop(g, id, k);
            }
        }
    }
    if !a.collapsed(id) && a.folded_above(g.focus) {
        let k = choose|k: nat| 1 <= k && #[trigger] a.folded_at(g.focus, k);
        fold::lemma_same_parents(g, a, g.focus, k);
        assert(g.folded_at(g.focus, k));
    }
    if h.selected == Set::<u64>::empty() {
        assert(set![id].contains(id));
    }
}

} // verus!
