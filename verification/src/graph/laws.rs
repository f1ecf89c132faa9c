//! What holds of every map: a tree under one root, edges that agree with it, ids
//! that the counter has passed, and a cursor that points at something.

use vstd::prelude::*;
use vstd::utf8::*;
use crate::graph::fold;
use crate::graph::model;
use crate::graph::model::GraphModel;
use crate::graph::sanitize;
use crate::graph::tree;
use crate::text;

verus! {

impl GraphModel {
    /// The nodes are trees: the root is one of the tops, every parent is there,
    /// and going up ends.
    pub open spec fn tree_ok(self) -> bool {
        &&& self.has(self.root)
        &&& self.parent_of(self.root) is None
        &&& forall|id: u64| self.has(id) ==> #[trigger] self.rooted(id)
        &&& forall|id: u64| #[trigger] self.parent_of(id) matches Some(p) ==> self.has(p)
    }

    /// Every edge draws a link of the tree, and no two draw the same.
    pub open spec fn edges_ok(self) -> bool {
        &&& forall|e: u64| #[trigger] self.edges.dom().contains(e) ==> self.wanted(e)
        &&& forall|e: u64, f: u64| #[trigger]
            self.wanted(e) && #[trigger] self.wanted(f) && self.edges[e].to == self.edges[f].to ==> e
                == f
    }

    /// Every link of the tree is drawn.
    pub open spec fn links_ok(self) -> bool {
        forall|id: u64| #[trigger]
            self.has(id) && self.nodes[id].parent is Some ==> self.is_drawn(id)
    }

    /// The counter has passed every id, as far as it goes.
    pub open spec fn ids_ok(self) -> bool {
        &&& forall|id: u64| #[trigger] self.has(id) ==> self.past(id)
        &&& forall|e: u64| #[trigger] self.edges.dom().contains(e) ==> self.past(e)
    }

    /// The cursor, the edge, the selection, the caret and the anchor point at
    /// something that is there.
    pub open spec fn pointers_ok(self) -> bool {
        &&& self.focus_ok()
        &&& self.edge_focus matches Some(e) ==> self.edges.dom().contains(e)
        &&& self.selected.subset_of(self.nodes.dom())
        &&& self.caret_ok()
        &&& self.anchor_ok()
    }

    /// What every operation on a map keeps.
    pub open spec fn valid(self) -> bool {
        self.tree_ok() && self.edges_ok() && self.ids_ok() && self.pointers_ok()
    }
}

// ---------------------------------------------------------------------------
// The tree
// ---------------------------------------------------------------------------

/// Where two maps agree on the parents on the way, they agree on the ancestors.
pub proof fn lemma_same_way(g: GraphModel, h: GraphModel, id: u64, k: nat)
    requires
        forall|j: nat|
            j < k ==> (#[trigger] g.ancestor(id, j) matches Some(a) ==> g.parent_of(a)
                == h.parent_of(a)),
    ensures
        forall|j: nat| j <= k ==> #[trigger] h.ancestor(id, j) == g.ancestor(id, j),
    decreases k,
{
    if k > 0 {
        let m = (k - 1) as nat;
        lemma_same_way(g, h, id, m);
        assert(h.ancestor(id, m) == g.ancestor(id, m));
        assert(h.ancestor(id, k) == g.ancestor(id, k)) by {
            if let Some(a) = g.ancestor(id, m) {
                assert(g.parent_of(a) == h.parent_of(a));
            }
        }
    }
}

/// Past a top there is nothing.
pub proof fn lemma_top_ends(g: GraphModel, id: u64, k: nat, j: nat)
    requires
        g.top_at(id, k),
        j > k,
    ensures
        g.ancestor(id, j) is None,
{
    assert(g.ancestor(id, k + 1) is None);
    tree::lemma_ancestor_sum(g, id, k + 1, (j - k - 1) as nat);
}

/// A way up that keeps clear of changed nodes still ends.
pub proof fn lemma_still_rooted(g: GraphModel, h: GraphModel, id: u64)
    requires
        g.rooted(id),
        forall|a: u64| #[trigger] g.above(a, id) ==> g.has(a) ==> h.has(a) && h.parent_of(a)
            == g.parent_of(a),
        forall|a: u64| #[trigger] g.above(a, id) ==> g.has(a),
    ensures
        h.rooted(id),
{
    let k = choose|k: nat| #[trigger] g.top_at(id, k);
    assert forall|j: nat| j < k + 1 implies (#[trigger] g.ancestor(id, j) matches Some(a)
        ==> g.parent_of(a) == h.parent_of(a)) by {
        if let Some(a) = g.ancestor(id, j) {
            assert(g.above(a, id));
        }
    }
    lemma_same_way(g, h, id, k + 1);
    let r = g.ancestor(id, k)->0;
    assert(g.above(r, id));
    assert(h.ancestor(id, k) == Some(r));
    assert(h.top_at(id, k));
}

/// In a tree every ancestor of a node is a node.
pub proof fn lemma_above_has(g: GraphModel, a: u64, id: u64)
    requires
        g.tree_ok(),
        g.has(id),
        g.above(a, id),
    ensures
        g.has(a),
{
    let k = choose|k: nat| g.ancestor(id, k) == Some(a);
    lemma_ancestor_has(g, id, k);
}

proof fn lemma_ancestor_has(g: GraphModel, id: u64, k: nat)
    requires
        forall|x: u64| #[trigger] g.parent_of(x) matches Some(p) ==> g.has(p),
        g.has(id),
    ensures
        g.ancestor(id, k) matches Some(a) ==> g.has(a),
    decreases k,
{
    if k > 0 {
        lemma_ancestor_has(g, id, (k - 1) as nat);
    }
}

/// In a tree no node is above itself but by standing still.
pub proof fn lemma_no_loop(g: GraphModel, id: u64, k: nat)
    requires
        g.rooted(id),
        k >= 1,
    ensures
        g.ancestor(id, k) != Some(id),
{
    let t = choose|t: nat| #[trigger] g.top_at(id, t);
    if g.ancestor(id, k) == Some(id) {
        lemma_loop_goes_on(g, id, k, t);
    }
}

/// Going round a loop never ends.
proof fn lemma_loop_goes_on(g: GraphModel, id: u64, k: nat, t: nat)
    requires
        k >= 1,
        g.ancestor(id, k) == Some(id),
    ensures
        !g.top_at(id, t),
    decreases t,
{
    if g.top_at(id, t) {
        if t < k {
            lemma_top_ends(g, id, t, k);
        } else {
            tree::lemma_ancestor_sum(g, id, k, (t - k) as nat);
            assert(g.top_at(id, (t - k) as nat));
            lemma_loop_goes_on(g, id, k, (t - k) as nat);
        }
    }
}

/// Being above goes on upwards.
pub proof fn lemma_above_chain(g: GraphModel, a: u64, b: u64, c: u64)
    requires
        g.above(a, b),
        g.above(b, c),
    ensures
        g.above(a, c),
{
    let j = choose|j: nat| g.ancestor(c, j) == Some(b);
    let k = choose|k: nat| g.ancestor(b, k) == Some(a);
    tree::lemma_ancestor_sum(g, c, j, k);
    assert(g.ancestor(c, j + k) == Some(a));
}

/// Nothing is above a node without a parent but the node itself.
pub proof fn lemma_above_top(g: GraphModel, a: u64, id: u64)
    requires
        g.parent_of(id) is None,
        g.above(a, id),
    ensures
        a == id,
{
    let k = choose|k: nat| g.ancestor(id, k) == Some(a);
    if k > 0 {
        tree::lemma_ancestor_shift(g, id, (k - 1) as nat);
    }
}

// ---------------------------------------------------------------------------
// Making a map safe
// ---------------------------------------------------------------------------

/// Breaking the loops of a map whose parents are all there makes it a tree.
proof fn lemma_unlooped_tree(g: GraphModel)
    requires
        g.nodes.dom().finite(),
        g.has(g.root),
        g.parent_of(g.root) is None,
        forall|x: u64| #[trigger] g.parent_of(x) matches Some(p) ==> g.has(p),
    ensures
        g.unlooped().tree_ok(),
{
    let h = g.unlooped();
    assert(!g.on_loop(g.root)) by {
        if g.on_loop(g.root) {
            let k = choose|k: nat| 1 <= k && #[trigger] g.ancestor(g.root, k) == Some(g.root);
            tree::lemma_ancestor_shift(g, g.root, (k - 1) as nat);
        }
    }
    assert(h.parent_of(h.root) is None);
    assert(h.top_at(h.root, 0)) by {
        assert(h.ancestor(h.root, 0) == Some(h.root));
    }
    assert forall|id: u64| h.has(id) implies #[trigger] h.rooted(id) by {
        lemma_unlooped_rooted(g, id, 0);
    }
    assert forall|id: u64| (#[trigger] h.parent_of(id)) is Some implies h.has(h.parent_of(id)->0) by {
        assert(h.parent_of(id) == g.parent_of(id) || h.parent_of(id) == Some(g.root));
    }
}

/// Going up from `id` after the loops are broken ends, when the first `n` links
/// meet neither an end nor a loop.
proof fn lemma_unlooped_rooted(g: GraphModel, id: u64, n: nat)
    requires
        g.nodes.dom().finite(),
        g.has(g.root),
        g.parent_of(g.root) is None,
        !g.on_loop(g.root),
        forall|x: u64| #[trigger] g.parent_of(x) matches Some(p) ==> g.has(p),
        g.has(id),
        n <= g.nodes.dom().len() + 1,
        forall|j: nat|
            j < n ==> (#[trigger] g.ancestor(id, j) matches Some(a) && !g.on_loop(a) && g.parent_of(
                a,
            ) is Some),
        n > 0 ==> g.ancestor(id, n) is Some,
    ensures
        g.unlooped().rooted(id),
    decreases g.nodes.dom().len() + 1 - n,
{
    let h = g.unlooped();
    assert forall|j: nat| j < n implies (#[trigger] g.ancestor(id, j) matches Some(a)
        ==> g.parent_of(a) == h.parent_of(a)) by {
        lemma_ancestor_has(g, id, j);
    }
    lemma_same_way(g, h, id, n);
    assert(g.ancestor(id, 0) == Some(id));
    assert(h.ancestor(id, n) == g.ancestor(id, n));
    let a = g.ancestor(id, n)->0;
    lemma_ancestor_has(g, id, n);
    assert(h.ancestor(h.root, 0) == Some(h.root));
    assert(h.top_at(h.root, 0));
    if g.on_loop(a) {
        assert(h.parent_of(a) == Some(h.root));
        assert(h.ancestor(id, n + 1) == Some(h.root));
        assert(h.top_at(id, n + 1));
    } else if g.parent_of(a) is None {
        assert(h.top_at(id, n));
    } else if n == g.nodes.dom().len() + 1 {
        assert forall|k: nat| k < n implies (#[trigger] g.ancestor(id, k) matches Some(b) && g.has(
            b,
        )) by {
            lemma_ancestor_has(g, id, k);
        }
        let (i, j) = sanitize::lemma_repeats(g, id, n);
        sanitize::lemma_repeat_is_loop(g, id, i, j);
        assert(g.ancestor(id, i) is Some);
    } else {
        assert(g.ancestor(id, n + 1) == g.parent_of(a));
        lemma_unlooped_rooted(g, id, n + 1);
    }
}

/// The edges that pruning leaves agree with the tree.
proof fn lemma_pruned_edges(g: GraphModel)
    ensures
        g.pruned().edges_ok(),
{
    let h = g.pruned();
    assert forall|e: u64| #[trigger] h.edges.dom().contains(e) implies h.wanted(e) by {
        assert(g.kept(e));
    }
    assert forall|e: u64, f: u64| #[trigger]
        h.wanted(e) && #[trigger] h.wanted(f) && h.edges[e].to == h.edges[f].to implies e == f by {
        assert(g.kept(e) && g.kept(f));
        assert(g.wanted(e) && g.wanted(f));
    }
}

/// Drawing the links that lack an edge keeps the edges in agreement with the
/// tree, and draws them all unless the ids run out.
proof fn lemma_drawn(g: GraphModel, links: Seq<(u64, u64)>, n: nat)
    requires
        g.edges_ok(),
        g.ids_ok(),
        g.lists_undrawn(links),
        n <= links.len(),
    ensures
        ({
            let h = g.drawn(links.take(n as int));
            &&& h == (GraphModel { next_id: h.next_id, edges: h.edges, ..g })
            &&& h.edges_ok()
            &&& h.ids_ok()
            &&& forall|c: u64| #[trigger]
                h.is_drawn(c) ==> g.is_drawn(c) || exists|k: int|
                    0 <= k < n && (#[trigger] links[k]).1 == c
            &&& forall|c: u64| #[trigger] g.is_drawn(c) ==> h.is_drawn(c)
            &&& h.next_id == u64::MAX || forall|k: int|
                0 <= k < n ==> h.is_drawn((#[trigger] links[k]).1)
        }),
    decreases n,
{
    if n == 0 {
        assert(links.take(0) =~= Seq::<(u64, u64)>::empty());
        assert(g.drawn(links.take(0)) == g);
    } else {
        let m = (n - 1) as nat;
        lemma_drawn(g, links, m);
        let u = links.take(n as int);
        assert(u.drop_last() =~= links.take(m as int));
        assert(u.last() == links[m as int]);
        let h = g.drawn(links.take(m as int));
        let i = g.drawn(u);
        let (from, to) = links[m as int];
        assert(links.contains(links[m as int]));
        assert(g.undrawn((from, to)));
        assert(!h.is_drawn(to)) by {
            if h.is_drawn(to) {
                let k = choose|k: int| 0 <= k < m && (#[trigger] links[k]).1 == to;
                assert(links.contains(links[k]));
                assert(g.undrawn(links[k]));
                assert(sanitize::link_before(links[k], links[m as int]));
            }
        }
        if h.free(h.next_id) {
            let eid = h.next_id;
            assert(i.wanted(eid));
            assert forall|e: u64| #[trigger] i.wanted(e) implies e == eid || h.wanted(e) by {}
            assert forall|e: u64| #[trigger] h.wanted(e) implies i.wanted(e) && i.edges[e]
                == h.edges[e] by {}
            assert forall|e: u64| #[trigger] i.edges.dom().contains(e) implies i.wanted(e) by {
                if e != eid {
                    assert(h.edges.dom().contains(e));
                    assert(h.wanted(e));
                }
            }
            assert forall|e: u64, f: u64| #[trigger]
                i.wanted(e) && #[trigger] i.wanted(f) && i.edges[e].to == i.edges[f].to implies e
                == f by {
                if e != eid && f != eid {
                    assert(h.wanted(e) && h.wanted(f));
                } else if e != f {
                    let o = if e == eid {
                        f
                    } else {
                        e
                    };
                    assert(h.wanted(o) && h.edges[o].to == to);
                    assert(h.is_drawn(to));
                }
            }
            assert forall|c: u64| #[trigger] i.is_drawn(c) implies h.is_drawn(c) || c == to by {
                let e = choose|e: u64| #[trigger] i.wanted(e) && i.edges[e].to == c;
                if e != eid {
                    assert(h.wanted(e));
                }
            }
            assert forall|c: u64| #[trigger] h.is_drawn(c) implies i.is_drawn(c) by {
                let e = choose|e: u64| #[trigger] h.wanted(e) && h.edges[e].to == c;
                assert(i.wanted(e));
            }
            assert(i.is_drawn(to));
            assert forall|e: u64| #[trigger] i.edges.dom().contains(e) implies i.past(e) by {
                if e != eid {
                    assert(h.edges.dom().contains(e));
                }
            }
            assert forall|x: u64| #[trigger] i.has(x) implies i.past(x) by {
                assert(h.has(x));
            }
        } else {
            // The counter has passed every id, so it has run out.
            assert(h.next_id == u64::MAX) by {
                if h.has(h.next_id) {
                    assert(h.past(h.next_id));
                }
                if h.edges.dom().contains(h.next_id) {
                    assert(h.past(h.next_id));
                }
            }
        }
    }
}

/// A map that was made safe is valid, and every link is drawn unless the ids ran
/// out.
pub proof fn sanitized_is_valid(before: GraphModel, after: GraphModel)
    requires
        before.nodes.dom().finite(),
        sanitize::sanitized(before, after),
    ensures
        after.valid(),
        after.links_ok() || after.next_id == u64::MAX,
{
    let a = before.with_root();
    sanitize::lemma_root_there(before);
    assert(a.nodes.dom().finite());
    let b = a.cleaned();
    assert(b.nodes.dom() =~= a.nodes.dom());
    assert(b.has(b.root) && b.parent_of(b.root) is None);
    let g = b.unlooped();
    lemma_unlooped_tree(b);
    assert(g.nodes.dom() =~= b.nodes.dom());
    let (n, links) = choose|n: u64, links: Seq<(u64, u64)>| #[trigger]
        g.counts_past(n) && #[trigger] (GraphModel { next_id: n, ..g }).pruned().lists_undrawn(links)
            && after == (GraphModel { next_id: n, ..g }).pruned().drawn(links).pointed();
    let c = GraphModel { next_id: n, ..g };
    let p = c.pruned();
    lemma_pruned_edges(c);
    assert(p.ids_ok()) by {
        assert forall|id: u64| #[trigger] p.has(id) implies p.past(id) by {
            assert(g.nodes.dom().contains(id));
        }
        assert forall|e: u64| #[trigger] p.edges.dom().contains(e) implies p.past(e) by {
            assert(g.edges.dom().contains(e));
        }
    }
    lemma_drawn(p, links, links.len());
    assert(links.take(links.len() as int) =~= links);
    let d = p.drawn(links);
    lemma_same_tree(g, d);
    lemma_pointed(d);
    if d.next_id != u64::MAX {
        assert forall|id: u64| #[trigger] d.has(id) && d.nodes[id].parent is Some implies d.is_drawn(
            id,
        ) by {
            let from = d.nodes[id].parent->0;
            if !p.is_drawn(id) {
                assert(p.undrawn((from, id)));
                assert(links.contains((from, id)));
                let k = choose|k: int| 0 <= k < links.len() && links[k] == (from, id);
                assert(d.is_drawn(links[k].1));
            }
        }
        lemma_same_links(d, after);
    }
}

/// The tree is a matter of the nodes and the root alone.
pub proof fn lemma_same_tree(g: GraphModel, h: GraphModel)
    requires
        g.tree_ok(),
        h.nodes == g.nodes,
        h.root == g.root,
    ensures
        h.tree_ok(),
{
    assert forall|id: u64| h.has(id) implies #[trigger] h.rooted(id) by {
        assert(g.rooted(id));
        let k = choose|k: nat| #[trigger] g.top_at(id, k);
        fold::lemma_same_parents(g, h, id, k);
        assert(h.top_at(id, k));
    }
    assert forall|id: u64| (#[trigger] h.parent_of(id)) is Some implies h.has(h.parent_of(id)->0) by {
        assert(g.parent_of(id) == h.parent_of(id));
    }
}

/// Which links are drawn is a matter of the nodes and the edges alone.
pub proof fn lemma_same_links(g: GraphModel, h: GraphModel)
    requires
        h.nodes == g.nodes,
        h.edges == g.edges,
    ensures
        g.edges_ok() ==> h.edges_ok(),
        g.links_ok() ==> h.links_ok(),
        forall|c: u64| #[trigger] g.is_drawn(c) <==> h.is_drawn(c),
{
    assert forall|e: u64| #[trigger] g.wanted(e) <==> h.wanted(e) by {}
    assert forall|c: u64| #[trigger] g.is_drawn(c) <==> h.is_drawn(c) by {
        if g.is_drawn(c) {
            let e = choose|e: u64| #[trigger] g.wanted(e) && g.edges[e].to == c;
            assert(h.wanted(e));
        }
        if h.is_drawn(c) {
            let e = choose|e: u64| #[trigger] h.wanted(e) && h.edges[e].to == c;
            assert(g.wanted(e));
        }
    }
    if g.edges_ok() {
        assert forall|e: u64, f: u64| #[trigger]
            h.wanted(e) && #[trigger] h.wanted(f) && h.edges[e].to == h.edges[f].to implies e == f by {
            assert(g.wanted(e) && g.wanted(f));
        }
        assert forall|e: u64| #[trigger] h.edges.dom().contains(e) implies h.wanted(e) by {
            assert(g.edges.dom().contains(e));
            assert(g.wanted(e));
        }
    }
    if g.links_ok() {
        assert forall|id: u64| #[trigger] h.has(id) && h.nodes[id].parent is Some implies h.is_drawn(
            id,
        ) by {
            assert(g.has(id));
            assert(g.is_drawn(id));
        }
    }
}

/// Pointing everything at something that is there.
proof fn lemma_pointed(d: GraphModel)
    requires
        d.tree_ok(),
        d.edges_ok(),
        d.ids_ok(),
    ensures
        d.pointed().valid(),
{
    let h = d.pointed();
    lemma_same_tree(d, h);
    lemma_same_links(d, h);
    assert(h.ids_ok()) by {
        assert forall|id: u64| #[trigger] h.has(id) implies h.past(id) by {
            assert(d.has(id));
        }
        assert forall|e: u64| #[trigger] h.edges.dom().contains(e) implies h.past(e) by {
            assert(d.edges.dom().contains(e));
        }
    }
    encode_utf8_valid_utf8(h.active_text());
    lemma_clamped(h.active_bytes(), d.caret as int);
}

proof fn lemma_clamped(b: Seq<u8>, at: int)
    requires
        valid_utf8(b),
        0 <= at <= usize::MAX,
    ensures
        text::boundary(b, model::clamped_offset(b, at)),
        0 <= model::clamped_offset(b, at) <= at,
    decreases at,
{
    text::lemma_boundary(b, 0);
    is_char_boundary_start_end_of_seq(b);
    if at > 0 && at <= b.len() && !text::boundary(b, at) {
        lemma_clamped(b, at - 1);
    }
}

} // verus!
