//! Making a map from an untrusted source safe: a tree under one root, edges that
//! agree with it, and a cursor, a selection and a caret that point at something.

use std::collections::HashSet;
use vstd::prelude::*;
use vstd::set_lib::*;
use vstd::utf8::*;
use vstd::string::StringSliceAdditionalSpecFns;
use crate::coord;
use crate::coord::Coord;
use crate::graph::model;
use crate::graph::model::{GraphModel, NodeModel};
use crate::graph::spatial;
use crate::graph::tree;
use crate::graph::{Edge, Graph, NodeImage};
use crate::ids;
use crate::text;

verus! {

broadcast use {vstd::std_specs::hash::group_hash_axioms, vstd::std_specs::btree::group_btree_axioms};

/// A coordinate that is a number, or else the origin.
pub open spec fn settled(c: Coord) -> Coord {
    if c.finite() {
        c
    } else {
        coord::spec_whole(0)
    }
}

impl GraphModel {
    /// Going up from `id` comes back to `id`.
    pub open spec fn on_loop(self, id: u64) -> bool {
        exists|k: nat| 1 <= k && #[trigger] self.ancestor(id, k) == Some(id)
    }

    /// A map whose root is there: the lowest node takes its place, and a map
    /// without nodes begins anew.
    pub open spec fn with_root(self) -> GraphModel {
        if self.has(self.root) {
            self
        } else {
            match ids::least(self.nodes.dom()) {
                Some(id) => GraphModel { root: id, ..self },
                None => model::new_map(seq![]),
            }
        }
    }

    /// No parent for the root, no parent that is missing or the node itself,
    /// every position a number and every picture's box between its bounds.
    pub open spec fn cleaned(self) -> GraphModel {
        GraphModel {
            nodes: Map::new(
                |id: u64| self.has(id),
                |id: u64|
                    NodeModel {
                        parent: match self.nodes[id].parent {
                            Some(p) if id != self.root && self.has(p) && p != id => Some(p),
                            _ => None,
                        },
                        ..spatial::placed(self.nodes[id])
                    },
            ),
            ..self
        }
    }

    /// Every node that was on a loop hung under the root. What hangs off a loop
    /// keeps its parent.
    pub open spec fn unlooped(self) -> GraphModel {
        GraphModel {
            nodes: Map::new(
                |id: u64| self.has(id),
                |id: u64|
                    if self.on_loop(id) {
                        NodeModel { parent: Some(self.root), ..self.nodes[id] }
                    } else {
                        self.nodes[id]
                    },
            ),
            ..self
        }
    }

    /// The counter after `id`, as far as it goes.
    pub open spec fn past(self, id: u64) -> bool {
        self.next_id > id || self.next_id == u64::MAX
    }

    /// `n` is the least counter that is no less than before and past every id.
    pub open spec fn counts_past(self, n: u64) -> bool {
        &&& n >= self.next_id
        &&& forall|id: u64|
            #![trigger self.nodes.dom().contains(id)]
            #![trigger self.edges.dom().contains(id)]
            self.nodes.dom().contains(id) || self.edges.dom().contains(id) ==> n > id || n
                == u64::MAX
        &&& n == self.next_id || exists|id: u64|
            #![trigger self.nodes.dom().contains(id)]
            #![trigger self.edges.dom().contains(id)]
            (self.nodes.dom().contains(id) || self.edges.dom().contains(id)) && (n == id + 1 || (n
                == u64::MAX && id == u64::MAX))
    }

    /// `e` draws a link of the tree.
    pub open spec fn wanted(self, e: u64) -> bool {
        &&& self.edges.dom().contains(e)
        &&& self.parent_of(self.edges[e].to) == Some(self.edges[e].from)
    }

    /// `e` is the first edge that draws its link.
    pub open spec fn kept(self, e: u64) -> bool {
        &&& self.wanted(e)
        &&& forall|f: u64| #[trigger]
            self.wanted(f) && self.edges[f].to == self.edges[e].to ==> e <= f
    }

    /// One edge at most for each link, and none for anything else.
    pub open spec fn pruned(self) -> GraphModel {
        GraphModel {
            edges: self.edges.restrict(self.edges.dom().filter(|e: u64| self.kept(e))),
            ..self
        }
    }

    /// An edge draws the link to `c`.
    pub open spec fn is_drawn(self, c: u64) -> bool {
        exists|e: u64| #[trigger] self.wanted(e) && self.edges[e].to == c
    }

    /// A link that no edge draws.
    pub open spec fn undrawn(self, link: (u64, u64)) -> bool {
        self.has(link.1) && self.nodes[link.1].parent == Some(link.0) && !self.is_drawn(link.1)
    }

    /// `links` holds what no edge draws, in ascending order.
    pub open spec fn lists_undrawn(self, links: Seq<(u64, u64)>) -> bool {
        &&& forall|l: (u64, u64)| #[trigger] links.contains(l) <==> self.undrawn(l)
        &&& forall|i: int, j: int|
            0 <= i < j < links.len() ==> link_before(#[trigger] links[i], #[trigger] links[j])
    }

    /// An edge without a label for each of `links`, as far as the ids go.
    pub open spec fn drawn(self, links: Seq<(u64, u64)>) -> GraphModel
        decreases links.len(),
    {
        if links.len() == 0 {
            self
        } else {
            let g = self.drawn(links.drop_last());
            let (from, to) = links.last();
            if g.free(g.next_id) {
                GraphModel {
                    next_id: (g.next_id + 1) as u64,
                    ..g.linked(g.next_id, from, to, seq![])
                }
            } else {
                g
            }
        }
    }

    /// The cursor, the edge, the selection, the caret and the anchor on something
    /// that is there.
    pub open spec fn pointed(self) -> GraphModel {
        let g = (GraphModel {
            focus: if self.focus_ok() {
                self.focus
            } else {
                self.root
            },
            edge_focus: match self.edge_focus {
                Some(e) if self.edges.dom().contains(e) => Some(e),
                _ => None,
            },
            selected: self.selected.intersect(self.nodes.dom()),
            ..self
        }).clamped();
        GraphModel {
            anchor: match g.anchor {
                Some(a) if text::boundary(g.active_bytes(), a as int) => Some(a),
                _ => None,
            },
            ..g
        }
    }
}

pub open spec fn link_before(a: (u64, u64), b: (u64, u64)) -> bool {
    a.0 < b.0 || (a.0 == b.0 && a.1 < b.1)
}

/// `after` is `before` made safe.
pub open spec fn sanitized(before: GraphModel, after: GraphModel) -> bool {
    let g = before.with_root().cleaned().unlooped();
    exists|n: u64, links: Seq<(u64, u64)>| #[trigger]
        g.counts_past(n) && #[trigger] (GraphModel { next_id: n, ..g }).pruned().lists_undrawn(links)
            && after == (GraphModel { next_id: n, ..g }).pruned().drawn(links).pointed()
}

// ---------------------------------------------------------------------------
// Loops
// ---------------------------------------------------------------------------

/// The first `n` of a node and its ancestors, as long as there are that many.
pub open spec fn lineage(g: GraphModel, id: u64, n: nat) -> Seq<u64> {
    Seq::new(n, |k: int| g.ancestor(id, k as nat)->0)
}

/// As many ancestors as there are nodes, and one more, cannot all be different.
pub proof fn lemma_repeats(g: GraphModel, id: u64, n: nat) -> (r: (nat, nat))
    requires
        g.nodes.dom().finite(),
        n > g.nodes.dom().len(),
        forall|k: nat| k < n ==> (#[trigger] g.ancestor(id, k) matches Some(a) && g.has(a)),
    ensures
        ({
            let (i, j) = r;
            i < j < n && g.ancestor(id, i) == g.ancestor(id, j)
        }),
{
    let v = lineage(g, id, n);
    if v.no_duplicates() {
        v.unique_seq_to_set();
        assert(v.to_set().subset_of(g.nodes.dom())) by {
            assert forall|x: u64| v.to_set().contains(x) implies g.nodes.dom().contains(x) by {
                let k = choose|k: int| 0 <= k < v.len() && v[k] == x;
                assert(g.ancestor(id, k as nat) is Some);
            }
        }
        lemma_len_subset(v.to_set(), g.nodes.dom());
        assert(false);
    }
    let (a, b) = choose|a: int, b: int|
        0 <= a < v.len() && 0 <= b < v.len() && a != b && v[a] == v[b];
    assert(g.ancestor(id, a as nat) is Some && g.ancestor(id, b as nat) is Some);
    if a < b {
        (a as nat, b as nat)
    } else {
        (b as nat, a as nat)
    }
}

/// Where going up repeats, it repeats on a loop.
pub proof fn lemma_repeat_is_loop(g: GraphModel, id: u64, i: nat, j: nat)
    requires
        i < j,
        g.ancestor(id, i) is Some,
        g.ancestor(id, i) == g.ancestor(id, j),
    ensures
        g.on_loop(g.ancestor(id, i)->0),
{
    let a = g.ancestor(id, i)->0;
    tree::lemma_ancestor_sum(g, id, i, (j - i) as nat);
    assert(g.ancestor(a, (j - i) as nat) == Some(a));
}

/// A loop through `id` comes round within as many links as there are nodes.
proof fn lemma_loop_is_short(g: GraphModel, id: u64, k: nat)
    requires
        g.nodes.dom().finite(),
        1 <= k,
        g.ancestor(id, k) == Some(id),
    ensures
        exists|j: nat| 1 <= j <= g.nodes.dom().len() && #[trigger] g.ancestor(id, j) == Some(id),
    decreases k,
{
    if k > g.nodes.dom().len() {
        assert forall|m: nat| m < k implies (#[trigger] g.ancestor(id, m) matches Some(a) && g.has(
            a,
        )) by {
            lemma_before_some(g, id, m, k);
        }
        let (i, j) = lemma_repeats(g, id, k);
        // Leaving out the part from `i` to `j` still comes back to `id`.
        tree::lemma_ancestor_sum(g, id, j, (k - j) as nat);
        tree::lemma_ancestor_sum(g, id, i, (k - j) as nat);
        lemma_before_some(g, id, i, k);
        assert(g.ancestor(id, (i + (k - j)) as nat) == Some(id));
        lemma_loop_is_short(g, id, (i + (k - j)) as nat);
    }
}

/// Whatever stands above a node stands above it within as many links as there
/// are nodes.
pub proof fn lemma_short_way(g: GraphModel, id: u64, k: nat)
    requires
        g.nodes.dom().finite(),
        1 <= k,
        g.ancestor(id, k) is Some,
    ensures
        exists|j: nat|
            1 <= j <= g.nodes.dom().len() && #[trigger] g.ancestor(id, j) == g.ancestor(id, k),
    decreases k,
{
    if k > g.nodes.dom().len() {
        assert forall|m: nat| m < k implies (#[trigger] g.ancestor(id, m) matches Some(a) && g.has(
            a,
        )) by {
            lemma_before_some(g, id, m, k);
        }
        let (i, j) = lemma_repeats(g, id, k);
        // Leaving out the part from `i` to `j` still comes to the same node.
        tree::lemma_ancestor_sum(g, id, j, (k - j) as nat);
        tree::lemma_ancestor_sum(g, id, i, (k - j) as nat);
        let short = (i + (k - j)) as nat;
        assert(g.ancestor(id, short) == g.ancestor(id, k));
        lemma_short_way(g, id, short);
        let near = choose|near: nat|
            1 <= near <= g.nodes.dom().len() && #[trigger] g.ancestor(id, near) == g.ancestor(
                id,
                short,
            );
        assert(g.ancestor(id, near) == g.ancestor(id, k));
    }
}

/// A fold above a node is found within as many links as there are nodes.
pub proof fn lemma_folded_near(g: GraphModel, id: u64)
    requires
        g.nodes.dom().finite(),
    ensures
        g.folded_above(id) <==> g.folded_within(id, g.nodes.dom().len()),
{
    if g.folded_above(id) {
        let k = choose|k: nat| 1 <= k && #[trigger] g.folded_at(id, k);
        lemma_short_way(g, id, k);
        let j = choose|j: nat|
            1 <= j <= g.nodes.dom().len() && #[trigger] g.ancestor(id, j) == g.ancestor(id, k);
        assert(g.folded_at(id, j));
    }
    if g.folded_within(id, g.nodes.dom().len()) {
        let k = choose|k: nat| 1 <= k <= g.nodes.dom().len() && #[trigger] g.folded_at(id, k);
        assert(g.folded_at(id, k));
    }
}

/// An ancestor that has one further up is a node.
proof fn lemma_before_some(g: GraphModel, id: u64, m: nat, k: nat)
    requires
        m < k,
        g.ancestor(id, k) is Some,
    ensures
        g.ancestor(id, m) matches Some(a) && g.has(a),
    decreases k - m,
{
    if m + 1 < k {
        lemma_before_some(g, id, m + 1, k);
    }
}

impl Graph {
    /// Whether going up from `id` comes back to it.
    fn is_on_loop(&self, id: u64) -> (r: bool)
        ensures
            r == self@.on_loop(id),
    {
        let ghost g = self@;
        let n: usize = self.nodes.len();
        let mut cur: Option<u64> = self.parent_of(id);
        let mut step: usize = 1;
        proof {
            assert(g.nodes.dom() =~= self.nodes@.dom());
            assert(g.ancestor(id, 0) == Some(id));
            assert(cur == g.ancestor(id, 1));
        }
        while step <= n
            invariant
                g == self@,
                n == g.nodes.dom().len(),
                g.nodes.dom().finite(),
                1 <= step,
                step <= n + 1,
                cur == g.ancestor(id, step as nat),
                forall|k: nat| 1 <= k < step ==> #[trigger] g.ancestor(id, k) != Some(id),
            decreases n + 1 - step,
        {
            match cur {
                Some(a) => {
                    if a == id {
                        assert(g.ancestor(id, step as nat) == Some(id));
                        return true;
                    }
                    cur = self.parent_of(a);
                },
                None => {
                    proof {
                        assert forall|k: nat| 1 <= k implies #[trigger] g.ancestor(id, k) != Some(
                            id,
                        ) by {
                            if k >= step {
                                tree::lemma_ancestor_sum(
                                    g,
                                    id,
                                    step as nat,
                                    (k - step) as nat,
                                );
                            }
                        }
                    }
                    return false;
                },
            }
            if step == n {
                proof {
                    if g.on_loop(id) {
                        let k = choose|k: nat|
                            1 <= k && #[trigger] g.ancestor(id, k) == Some(id);
                        lemma_loop_is_short(g, id, k);
                        let j = choose|j: nat|
                            1 <= j <= g.nodes.dom().len() && #[trigger] g.ancestor(id, j) == Some(
                                id,
                            );
                        assert(g.ancestor(id, j) == Some(id));
                    }
                }
                return false;
            }
            step = step + 1;
        }
        proof {
            if g.on_loop(id) {
                let k = choose|k: nat| 1 <= k && #[trigger] g.ancestor(id, k) == Some(id);
                lemma_loop_is_short(g, id, k);
            }
        }
        false
    }

    /// Make sure that the root is there.
    fn ensure_root(&mut self)
        ensures
            final(self)@ == old(self)@.with_root(),
    {
        if self.nodes.contains_key(&self.root_id) {
            return;
        }
        let all = ids::sorted_keys(&self.nodes);
        proof {
            assert(self@.nodes.dom() =~= self.nodes@.dom());
            ids::lemma_least(all@, self@.nodes.dom());
        }
        if all.len() > 0 {
            self.root_id = all[0];
        } else {
            proof {
                reveal_strlit("");
                assert(""@ =~= Seq::<char>::empty());
            }
            *self = Graph::new("");
        }
    }

    /// Drop parents that cannot be and positions that are not numbers, and bring
    /// every picture's box between its bounds.
    fn clean_nodes(&mut self)
        ensures
            final(self)@ == old(self)@.cleaned(),
    {
        let ghost g = self@;
        let ghost want = g.cleaned().nodes;
        let all = ids::keys(&self.nodes);
        let known = ids::lookup(&all);
        let root: u64 = self.root_id;
        let mut i: usize = 0;
        assert(g.nodes.dom() =~= self.nodes@.dom());
        while i < all.len()
            invariant
                i <= all@.len(),
                all@.no_duplicates(),
                all@.to_set() == g.nodes.dom(),
                known@ == g.nodes.dom(),
                root == g.root,
                want == g.cleaned().nodes,
                self@ == (GraphModel { nodes: self@.nodes, ..g }),
                self@.nodes.dom() == g.nodes.dom(),
                forall|id: u64| #[trigger]
                    g.nodes.dom().contains(id) ==> self@.nodes[id] == (if all@.take(
                        i as int,
                    ).contains(id) {
                        want[id]
                    } else {
                        g.nodes[id]
                    }),
            decreases all@.len() - i,
        {
            let id: u64 = all[i];
            proof {
                lemma_fresh(all@, i as int);
                assert(all@.contains(id));
                assert(all@.to_set().contains(id));
                assert(g.nodes.dom().contains(id));
            }
            match self.nodes.remove(&id) {
                Some(node) => {
                    let mut node = node;
                    assert(node@ == g.nodes[id]);
                    node.parent = match node.parent {
                        Some(p) => if id != root && known.contains(&p) && p != id {
                            Some(p)
                        } else {
                            None
                        },
                        None => None,
                    };
                    if !node.x.is_finite() {
                        node.x = Coord::zero();
                    }
                    if !node.y.is_finite() {
                        node.y = Coord::zero();
                    }
                    node.image = match node.image {
                        Some(image) => Some(
                            NodeImage {
                                name: image.name,
                                w: spatial::box_side(image.w),
                                h: spatial::box_side(image.h),
                            },
                        ),
                        None => None,
                    };
                    assert(node@ =~= want[id]);
                    self.nodes.insert(id, node);
                },
                None => {},
            }
            assert(self@.nodes.dom() =~= g.nodes.dom());
            i = i + 1;
        }
        assert(all@.take(i as int) =~= all@);
        assert(self@.nodes =~= want) by {
            assert forall|id: u64| #[trigger] g.nodes.dom().contains(id) implies all@.contains(id) by {
                assert(all@.to_set().contains(id));
            }
        }
    }

    /// Hang the nodes on a loop under the root.
    fn break_loops(&mut self)
        ensures
            final(self)@ == old(self)@.unlooped(),
    {
        let ghost g = self@;
        let ghost want = g.unlooped().nodes;
        let all = ids::keys(&self.nodes);
        let mut looped: Vec<u64> = Vec::new();
        let mut i: usize = 0;
        assert(g.nodes.dom() =~= self.nodes@.dom());
        while i < all.len()
            invariant
                g == self@,
                i <= all@.len(),
                all@.no_duplicates(),
                all@.to_set() == g.nodes.dom(),
                forall|x: u64| #[trigger]
                    looped@.contains(x) <==> all@.take(i as int).contains(x) && g.on_loop(x),
            decreases all@.len() - i,
        {
            let id: u64 = all[i];
            let ghost was = looped@;
            proof {
                lemma_fresh(all@, i as int);
            }
            if self.is_on_loop(id) {
                looped.push(id);
                proof {
                    assert(looped@[was.len() as int] == id);
                    assert forall|x: u64| #[trigger] looped@.contains(x) <==> was.contains(x) || x
                        == id by {
                        if was.contains(x) {
                            let k = choose|k: int| 0 <= k < was.len() && was[k] == x;
                            assert(looped@[k] == x);
                        }
                        if looped@.contains(x) {
                            let k = choose|k: int| 0 <= k < looped@.len() && looped@[k] == x;
                            if k < was.len() {
                                assert(was[k] == x);
                            }
                        }
                    }
                }
            }
            i = i + 1;
        }
        assert(all@.take(i as int) =~= all@);
        let root: u64 = self.root_id;
        let mut j: usize = 0;
        while j < looped.len()
            invariant
                j <= looped@.len(),
                root == g.root,
                want == g.unlooped().nodes,
                forall|x: u64| #[trigger] looped@.contains(x) ==> g.on_loop(x),
                self@ == (GraphModel { nodes: self@.nodes, ..g }),
                self@.nodes.dom() == g.nodes.dom(),
                forall|id: u64| #[trigger]
                    g.nodes.dom().contains(id) ==> self@.nodes[id] == (if looped@.take(
                        j as int,
                    ).contains(id) {
                        want[id]
                    } else {
                        g.nodes[id]
                    }),
            decreases looped@.len() - j,
        {
            let id: u64 = looped[j];
            proof {
                ids::lemma_contains_push(looped@, j as int);
                assert(looped@.contains(id));
            }
            self.hang(id, Some(root));
            assert(self@.nodes.dom() =~= g.nodes.dom());
            j = j + 1;
        }
        assert(looped@.take(j as int) =~= looped@);
        assert(self@.nodes =~= want) by {
            assert forall|id: u64| #[trigger] g.nodes.dom().contains(id) implies all@.contains(id) by {
                assert(all@.to_set().contains(id));
            }
        }
    }

    /// Get the counter past every id.
    fn raise_counter(&mut self)
        requires
            exists|id: u64| old(self)@.has(id),
        ensures
            old(self)@.counts_past(final(self)@.next_id),
            final(self)@ == (GraphModel { next_id: final(self)@.next_id, ..old(self)@ }),
    {
        let ghost g = self@;
        let nodes = ids::sorted_keys(&self.nodes);
        let edges = ids::sorted_keys(&self.edges);
        proof {
            assert(g.nodes.dom() =~= self.nodes@.dom());
            assert(g.edges.dom() =~= self.edges@.dom());
            let id = choose|id: u64| g.has(id);
            assert(nodes@.contains(id));
            assert(nodes@.contains(nodes@[nodes@.len() - 1]));
        }
        let mut top: u64 = nodes[nodes.len() - 1];
        if edges.len() > 0 && edges[edges.len() - 1] > top {
            top = edges[edges.len() - 1];
            assert(edges@.contains(top));
        }
        let past: u64 = if top == u64::MAX {
            u64::MAX
        } else {
            top + 1
        };
        if past > self.next_id {
            self.next_id = past;
        }
        proof {
            assert(g.nodes.dom().contains(top) || g.edges.dom().contains(top));
            assert forall|id: u64|
                #![trigger g.nodes.dom().contains(id)]
                #![trigger g.edges.dom().contains(id)]
                g.nodes.dom().contains(id) || g.edges.dom().contains(id) implies id <= top by {
                if g.nodes.dom().contains(id) {
                    assert(nodes@.contains(id));
                    let k = choose|k: int| 0 <= k < nodes@.len() && nodes@[k] == id;
                    assert(k == nodes@.len() - 1 || nodes@[k] < nodes@[nodes@.len() - 1]);
                } else {
                    assert(edges@.contains(id));
                    let k = choose|k: int| 0 <= k < edges@.len() && edges@[k] == id;
                    assert(k == edges@.len() - 1 || edges@[k] < edges@[edges@.len() - 1]);
                }
            }
        }
    }

    /// Keep one edge per link, the first, so that the choice is stable; the
    /// result is the nodes that an edge leads to.
    fn prune_edges(&mut self) -> (drawn: HashSet<u64>)
        ensures
            final(self)@ == old(self)@.pruned(),
            forall|c: u64| #[trigger]
                drawn@.contains(c) <==> old(self)@.is_drawn(c),
    {
        let ghost g = self@;
        let all = ids::sorted_keys(&self.edges);
        let mut drawn: HashSet<u64> = HashSet::new();
        let mut i: usize = 0;
        assert(g.edges.dom() =~= self.edges@.dom());
        while i < all.len()
            invariant
                i <= all@.len(),
                ids::lists(all@, g.edges.dom()),
                self@ == (GraphModel { edges: self@.edges, ..g }),
                forall|e: u64| #[trigger]
                    self@.edges.dom().contains(e) <==> g.edges.dom().contains(e) && (all@.take(
                        i as int,
                    ).contains(e) ==> g.kept(e)),
                forall|e: u64| #[trigger]
                    self@.edges.dom().contains(e) ==> self@.edges[e] == g.edges[e],
                forall|c: u64| #[trigger]
                    drawn@.contains(c) <==> exists|e: u64|
                        all@.take(i as int).contains(e) && #[trigger] g.wanted(e) && g.edges[e].to
                            == c,
            decreases all@.len() - i,
        {
            let e: u64 = all[i];
            proof {
                ids::lemma_contains_push(all@, i as int);
                assert(all@.contains(e));
                assert(!all@.take(i as int).contains(e)) by {
                    if all@.take(i as int).contains(e) {
                        let k = choose|k: int| 0 <= k < i && all@.take(i as int)[k] == e;
                        assert(all@[k] < all@[i as int]);
                    }
                }
                assert(self@.edges.dom().contains(e));
            }
            let (from, to): (u64, u64) = match self.edges.get(&e) {
                Some(edge) => (edge.from, edge.to),
                None => (0, 0),
            };
            assert(from == g.edges[e].from && to == g.edges[e].to);
            let wanted = match self.parent_of(to) {
                Some(p) => p == from,
                None => false,
            };
            assert(wanted == g.wanted(e));
            let ghost was = drawn@;
            let keep = wanted && !drawn.contains(&to);
            proof {
                lemma_keep(g, all@, i as int, was);
            }
            if keep {
                drawn.insert(to);
            } else {
                let ghost before = self@.edges;
                self.edges.remove(&e);
                assert(self@.edges =~= before.remove(e));
            }
            proof {
                assert forall|c: u64| #[trigger] drawn@.contains(c) <==> exists|f: u64|
                    all@.take(i + 1).contains(f) && #[trigger] g.wanted(f) && g.edges[f].to == c by {
                    if was.contains(c) {
                        let f = choose|f: u64|
                            all@.take(i as int).contains(f) && #[trigger] g.wanted(f)
                                && g.edges[f].to == c;
                        assert(all@.take(i + 1).contains(f));
                    }
                    if wanted && c == to {
                        assert(all@.take(i + 1).contains(e));
                    }
                    if exists|f: u64|
                        all@.take(i + 1).contains(f) && #[trigger] g.wanted(f) && g.edges[f].to
                            == c {
                        let f = choose|f: u64|
                            all@.take(i + 1).contains(f) && #[trigger] g.wanted(f)
                                && g.edges[f].to == c;
                        if f != e {
                            assert(all@.take(i as int).contains(f));
                            assert(was.contains(c));
                        }
                    }
                }
            }
            i = i + 1;
        }
        proof {
            assert(all@.take(i as int) =~= all@);
            assert(self@.edges =~= g.pruned().edges) by {
                assert forall|e: u64| #[trigger] g.edges.dom().contains(e) implies all@.contains(
                    e,
                ) by {}
            }
            assert forall|c: u64| #[trigger] drawn@.contains(c) <==> g.is_drawn(c) by {
                if g.is_drawn(c) {
                    let e = choose|e: u64| #[trigger] g.wanted(e) && g.edges[e].to == c;
                    assert(all@.contains(e));
                }
            }
        }
        drawn
    }

    /// The links that no edge draws, by parent and then by child.
    fn undrawn_links(&self, drawn: &HashSet<u64>) -> (links: Vec<(u64, u64)>)
        requires
            forall|c: u64| #[trigger]
                drawn@.contains(c) <==> self@.is_drawn(c),
        ensures
            self@.lists_undrawn(links@),
    {
        let ghost g = self@;
        let kids = self.children_index();
        let parents = ids::sorted_keys(&kids);
        let mut links: Vec<(u64, u64)> = Vec::new();
        let mut i: usize = 0;
        while i < parents.len()
            invariant
                g == self@,
                i <= parents@.len(),
                g.indexed_by(kids@),
                ids::lists(parents@, kids@.dom()),
                forall|c: u64| #[trigger]
                    drawn@.contains(c) <==> g.is_drawn(c),
                forall|a: int, b: int|
                    0 <= a < b < links@.len() ==> link_before(
                        #[trigger] links@[a],
                        #[trigger] links@[b],
                    ),
                forall|l: (u64, u64)| #[trigger]
                    links@.contains(l) <==> g.undrawn(l) && parents@.take(i as int).contains(l.0),
            decreases parents@.len() - i,
        {
            let p: u64 = parents[i];
            let ghost was = links@;
            proof {
                ids::lemma_contains_push(parents@, i as int);
                assert(parents@.contains(p));
                assert(kids@.dom().contains(p));
                assert forall|m: int| 0 <= m < was.len() implies (#[trigger] was[m]).0 < p by {
                    assert(was.contains(was[m]));
                    let k = choose|k: int| 0 <= k < i && parents@.take(i as int)[k] == was[m].0;
                    assert(parents@[k] < parents@[i as int]);
                }
            }
            match kids.get(&p) {
                Some(cs) => {
                    let mut j: usize = 0;
                    while j < cs.len()
                        invariant
                            g == self@,
                            j <= cs@.len(),
                            ids::lists(cs@, g.children(p)),
                            forall|c: u64| #[trigger]
                                drawn@.contains(c) <==> g.is_drawn(c),
                            forall|m: int| 0 <= m < was.len() ==> (#[trigger] was[m]).0 < p,
                            forall|a: int, b: int|
                                0 <= a < b < links@.len() ==> link_before(
                                    #[trigger] links@[a],
                                    #[trigger] links@[b],
                                ),
                            forall|l: (u64, u64)| #[trigger]
                                links@.contains(l) <==> was.contains(l) || (l.0 == p && g.undrawn(l)
                                    && cs@.take(j as int).contains(l.1)),
                        decreases cs@.len() - j,
                    {
                        let c: u64 = cs[j];
                        let ghost held = links@;
                        proof {
                            ids::lemma_contains_push(cs@, j as int);
                            assert(cs@.contains(c));
                            assert(g.children(p).contains(c));
                            assert(drawn@.contains(c) <==> !g.undrawn((p, c)));
                        }
                        if !drawn.contains(&c) {
                            proof {
                                assert forall|m: int| 0 <= m < held.len() implies link_before(
                                    #[trigger] held[m],
                                    (p, c),
                                ) by {
                                    assert(held.contains(held[m]));
                                    if was.contains(held[m]) {
                                        let k = choose|k: int|
                                            0 <= k < was.len() && was[k] == held[m];
                                        assert(was[k].0 < p);
                                    } else {
                                        let k = choose|k: int|
                                            0 <= k < j && cs@.take(j as int)[k] == held[m].1;
                                        assert(cs@[k] < cs@[j as int]);
                                    }
                                }
                            }
                            links.push((p, c));
                            proof {
                                assert(links@[held.len() as int] == (p, c));
                            }
                        }
                        proof {
                            assert forall|l: (u64, u64)| #[trigger] links@.contains(l)
                                <==> held.contains(l) || (l == (p, c) && g.undrawn(l)) by {
                                if held.contains(l) {
                                    let k = choose|k: int| 0 <= k < held.len() && held[k] == l;
                                    assert(links@[k] == l);
                                }
                                if links@.contains(l) {
                                    let k = choose|k: int|
                                        0 <= k < links@.len() && links@[k] == l;
                                    if k < held.len() {
                                        assert(held[k] == l);
                                    }
                                }
                            }
                        }
                        j = j + 1;
                    }
                    assert(cs@.take(j as int) =~= cs@);
                },
                None => {},
            }
            proof {
                assert forall|l: (u64, u64)| #[trigger] links@.contains(l) <==> g.undrawn(l)
                    && parents@.take(i + 1).contains(l.0) by {
                    if g.undrawn(l) && l.0 == p {
                        assert(g.children(p).contains(l.1));
                        assert(kids@[p]@.contains(l.1));
                    }
                }
            }
            i = i + 1;
        }
        proof {
            assert(parents@.take(i as int) =~= parents@);
            assert forall|l: (u64, u64)| #[trigger] links@.contains(l) <==> g.undrawn(l) by {
                if g.undrawn(l) {
                    assert(g.children(l.0).contains(l.1));
                    assert(kids@.dom().contains(l.0));
                    assert(parents@.contains(l.0));
                }
            }
        }
        links
    }

    /// Draw the links that lack an edge, as far as the ids go.
    fn draw_links(&mut self, links: &Vec<(u64, u64)>)
        ensures
            final(self)@ == old(self)@.drawn(links@),
    {
        let ghost g = self@;
        let mut i: usize = 0;
        assert(links@.take(0) =~= Seq::<(u64, u64)>::empty());
        while i < links.len()
            invariant
                i <= links@.len(),
                self@ == g.drawn(links@.take(i as int)),
            decreases links@.len() - i,
        {
            let (from, to) = links[i];
            let ghost h = self@;
            proof {
                assert(links@.take(i + 1).drop_last() =~= links@.take(i as int));
                assert(links@.take(i + 1).last() == links@[i as int]);
            }
            match self.take_id() {
                Some(eid) => {
                    let label = String::new();
                    self.edges.insert(eid, Edge { from, to, label });
                    assert(self@.edges =~= h.linked(eid, from, to, seq![]).edges);
                },
                None => {},
            }
            i = i + 1;
        }
        assert(links@.take(i as int) =~= links@);
    }

    /// Point the cursor, the selection and the caret at something that is there.
    fn repair_pointers(&mut self)
        ensures
            final(self)@ == old(self)@.pointed(),
    {
        if !self.nodes.contains_key(&self.focused_id) {
            self.focused_id = self.root_id;
        }
        match self.focused_edge {
            Some(e) => {
                if !self.edges.contains_key(&e) {
                    self.focused_edge = None;
                }
            },
            None => {},
        }
        // A selection can outlive the nodes it named.
        self.drop_dead_selection();
        // The caret and its anchor index the active text, which may have just
        // changed underneath them.
        self.clamp_caret();
        let live = match self.anchor {
            Some(a) => {
                let t = self.active_text();
                let n: usize = t.as_bytes().len();
                proof {
                    text::lemma_str(t);
                    text::lemma_boundary(t.spec_bytes(), a as int);
                }
                a <= n && t.is_char_boundary(a)
            },
            None => true,
        };
        if !live {
            self.anchor = None;
        }
    }

    fn drop_dead_selection(&mut self)
        ensures
            final(self)@ == (GraphModel {
                selected: old(self)@.selected.intersect(old(self)@.nodes.dom()),
                ..old(self)@
            }),
    {
        let ghost g = self@;
        let picked = self.acting_on();
        let mut i: usize = 0;
        while i < picked.len()
            invariant
                i <= picked@.len(),
                ids::lists(picked@, g.selected),
                self@ == (GraphModel { selected: self@.selected, ..g }),
                forall|x: u64| #[trigger]
                    self@.selected.contains(x) <==> g.selected.contains(x) && (picked@.take(
                        i as int,
                    ).contains(x) ==> g.has(x)),
            decreases picked@.len() - i,
        {
            let id: u64 = picked[i];
            proof {
                ids::lemma_contains_push(picked@, i as int);
            }
            if !self.nodes.contains_key(&id) {
                self.selected.remove(&id);
            }
            i = i + 1;
        }
        assert(picked@.take(i as int) =~= picked@);
        assert(self@.selected =~= g.selected.intersect(g.nodes.dom()));
    }

    /// Make a map from an untrusted source (a hand-edited save file) safe to
    /// render: drop dangling edges, break loops, bring pictures to a sane size,
    /// repair focus, keep the counter ahead of every id.
    pub fn sanitize(&mut self)
        ensures
            sanitized(old(self)@, final(self)@),
    {
        let ghost before = self@;
        self.ensure_root();
        proof {
            lemma_root_there(before);
        }
        self.clean_nodes();
        // A parent chain that loops would hang traversals. Only the nodes on the
        // loop get reparented: a descendant hanging off it has a perfectly good
        // parent link.
        self.break_loops();
        let ghost g = self@;
        assert(g.has(g.root));
        // Get the counter ahead of every id before reconciling edges, since that
        // step may have to mint some.
        self.raise_counter();
        let ghost n = self@.next_id;
        let ghost counted = self@;
        // The tree is stored twice, as parents and as edges. The parent is the
        // authority.
        let drawn = self.prune_edges();
        proof {
            lemma_pruned(counted);
        }
        let links = self.undrawn_links(&drawn);
        self.draw_links(&links);
        self.repair_pointers();
        proof {
            assert(g.counts_past(n));
            assert((GraphModel { next_id: n, ..g }) == counted);
            assert(counted.pruned().lists_undrawn(links@));
        }
    }
}

/// The root is there once it has been looked for.
pub proof fn lemma_root_there(g: GraphModel)
    ensures
        g.with_root().has(g.with_root().root),
{
    if !g.has(g.root) {
        if let Some(id) = ids::least(g.nodes.dom()) {
            let x = choose|x: u64| ids::least_of(g.nodes.dom(), x);
            assert(ids::least_of(g.nodes.dom(), x));
        }
    }
}

/// Pruning keeps an edge for each link that had one.
proof fn lemma_pruned(g: GraphModel)
    ensures
        forall|c: u64| #[trigger] g.pruned().is_drawn(c) <==> g.is_drawn(c),
{
    let h = g.pruned();
    assert forall|c: u64| #[trigger] h.is_drawn(c) <==> g.is_drawn(c) by {
        if g.is_drawn(c) {
            let e = choose|e: u64| #[trigger] g.wanted(e) && g.edges[e].to == c;
            lemma_first_kept(g, e);
            let f = choose|f: u64| #[trigger] g.kept(f) && g.edges[f].to == g.edges[e].to;
            assert(h.wanted(f));
        }
        if h.is_drawn(c) {
            let e = choose|e: u64| #[trigger] h.wanted(e) && h.edges[e].to == c;
            assert(g.wanted(e));
        }
    }
}

/// A link that is drawn has a first edge.
proof fn lemma_first_kept(g: GraphModel, e: u64)
    requires
        g.wanted(e),
    ensures
        exists|f: u64| #[trigger] g.kept(f) && g.edges[f].to == g.edges[e].to,
    decreases e,
{
    if !g.kept(e) {
        let f = choose|f: u64| #[trigger] g.wanted(f) && g.edges[f].to == g.edges[e].to && f < e;
        lemma_first_kept(g, f);
    }
}

/// Whether the edge that is looked at is the first of its link.
proof fn lemma_keep(g: GraphModel, all: Seq<u64>, i: int, drawn: Set<u64>)
    requires
        ids::lists(all, g.edges.dom()),
        0 <= i < all.len(),
        forall|c: u64| #[trigger]
            drawn.contains(c) <==> exists|e: u64|
                all.take(i).contains(e) && #[trigger] g.wanted(e) && g.edges[e].to == c,
    ensures
        g.kept(all[i]) <==> g.wanted(all[i]) && !drawn.contains(g.edges[all[i]].to),
{
    let e = all[i];
    if g.wanted(e) {
        let c = g.edges[e].to;
        if drawn.contains(c) {
            let f = choose|f: u64|
                all.take(i).contains(f) && #[trigger] g.wanted(f) && g.edges[f].to == c;
            let k = choose|k: int| 0 <= k < i && all.take(i)[k] == f;
            assert(all[k] < all[i]);
        } else {
            assert forall|f: u64| #[trigger] g.wanted(f) && g.edges[f].to == c implies e <= f by {
                assert(all.contains(f));
                let k = choose|k: int| 0 <= k < all.len() && all[k] == f;
                if k < i {
                    assert(all.take(i)[k] == f);
                    assert(all.take(i).contains(f));
                }
                if k > i {
                    assert(all[i] < all[k]);
                }
            }
        }
    }
}

/// An item of a list without repetitions is not among those before it.
pub proof fn lemma_fresh(all: Seq<u64>, i: int)
    requires
        all.no_duplicates(),
        0 <= i < all.len(),
    ensures
        !all.take(i).contains(all[i]),
        forall|x: u64| #[trigger] all.take(i + 1).contains(x) <==> all.take(i).contains(x) || x
            == all[i],
{
    ids::lemma_contains_push(all, i);
    if all.take(i).contains(all[i]) {
        let k = choose|k: int| 0 <= k < i && all.take(i)[k] == all[i];
        assert(all[k] == all[i]);
    }
}

} // verus!
