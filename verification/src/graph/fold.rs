//! Folding. A node under a collapsed ancestor is hidden: not drawn, not hit, not
//! walked and not laid out. It is still deleted, copied and moved with its
//! branch — folding is a view of the document, not a change to it.

use vstd::prelude::*;
use crate::graph::model::{GraphModel, NodeModel};
use crate::graph::sanitize;
use crate::graph::tree;
use crate::graph::Graph;
use crate::ids;

verus! {

broadcast use {vstd::std_specs::hash::group_hash_axioms, vstd::std_specs::btree::group_btree_axioms};

impl GraphModel {
    pub open spec fn with_fold(self, id: u64, collapsed: bool) -> GraphModel {
        if self.has(id) {
            GraphModel {
                nodes: self.nodes.insert(id, NodeModel { collapsed, ..self.nodes[id] }),
                ..self
            }
        } else {
            self
        }
    }

    /// `a` is one of the nearest `n` ancestors of `id`.
    pub open spec fn ancestor_within(self, id: u64, a: u64, n: nat) -> bool {
        exists|k: nat| 1 <= k <= n && #[trigger] self.ancestor(id, k) == Some(a)
    }

    /// `a` is an ancestor of `id`, however far up.
    pub open spec fn over(self, a: u64, id: u64) -> bool {
        exists|k: nat| 1 <= k && #[trigger] self.ancestor(id, k) == Some(a)
    }

    /// The nearest `n` ancestors of `id` unfolded.
    spec fn unfolded_above(self, id: u64, n: nat) -> GraphModel {
        GraphModel {
            nodes: Map::new(
                |k: u64| self.has(k),
                |k: u64|
                    if self.ancestor_within(id, k, n) {
                        NodeModel { collapsed: false, ..self.nodes[k] }
                    } else {
                        self.nodes[k]
                    },
            ),
            ..self
        }
    }

    /// Whatever hides `id` unfolded: every ancestor of it.
    pub open spec fn revealed(self, id: u64) -> GraphModel {
        GraphModel {
            nodes: Map::new(
                |k: u64| self.has(k),
                |k: u64|
                    if self.over(k, id) {
                        NodeModel { collapsed: false, ..self.nodes[k] }
                    } else {
                        self.nodes[k]
                    },
            ),
            ..self
        }
    }

    /// `id` unfolded, and whatever hides it.
    pub open spec fn opened(self, id: u64) -> GraphModel {
        self.with_fold(id, false).revealed(id)
    }

    /// The selection without what a fold hides.
    pub open spec fn shown_selection(self) -> Set<u64> {
        self.selected.filter(|s: u64| !self.folded_above(s))
    }

    /// `id` folded or unfolded. Whatever the fold hid, the cursor then stands on
    /// the thing that hid it, and what is hidden is not selected.
    pub open spec fn fold_toggled(self, id: u64) -> GraphModel {
        let a = self.with_fold(id, !self.collapsed(id));
        let b = if a.collapsed(id) && (a.folded_above(a.focus) || a.focus == id) {
            a.focused_on(id)
        } else {
            a
        };
        let c = GraphModel { selected: b.shown_selection(), ..b };
        if c.selected == Set::<u64>::empty() {
            GraphModel { selected: set![id], focus: id, ..c }
        } else {
            c
        }
    }
}

/// Folding does not change who the ancestors are.
pub proof fn lemma_same_parents(g: GraphModel, h: GraphModel, id: u64, k: nat)
    requires
        forall|x: u64| #[trigger] g.parent_of(x) == h.parent_of(x),
    ensures
        g.ancestor(id, k) == h.ancestor(id, k),
    decreases k,
{
    if k > 0 {
        lemma_same_parents(g, h, id, (k - 1) as nat);
    }
}

/// Where nothing is folded, opening a branch changes nothing.
pub proof fn lemma_opened_same(g: GraphModel, id: u64)
    requires
        g.has(id),
        forall|x: u64| #[trigger] g.has(x) ==> !g.nodes[x].collapsed,
    ensures
        g.opened(id) == g,
{
    let a = g.with_fold(id, false);
    assert(a.nodes =~= g.nodes);
    assert(a =~= g);
    assert(g.opened(id).nodes =~= g.nodes);
    assert(g.opened(id) =~= g);
}

impl Graph {
    fn set_collapsed(&mut self, id: u64, collapsed: bool)
        ensures
            final(self)@ == old(self)@.with_fold(id, collapsed),
    {
        match self.nodes.remove(&id) {
            Some(node) => {
                let mut node = node;
                node.collapsed = collapsed;
                self.nodes.insert(id, node);
            },
            None => {},
        }
        assert(self@.nodes =~= old(self)@.with_fold(id, collapsed).nodes);
    }

    /// Unfold whatever is hiding `id`, so going to it actually shows it. Returns
    /// whether anything was.
    pub fn reveal_node(&mut self, id: u64) -> (any: bool)
        ensures
            final(self)@ == old(self)@.revealed(id),
            any == old(self)@.folded_above(id),
    {
        let ghost g = self@;
        // Within as many links as there are nodes every ancestor was met.
        let most: usize = self.nodes.len();
        assert(g.nodes.dom() =~= self.nodes@.dom());
        let mut any = false;
        let mut hops: usize = 0;
        let mut cur: Option<u64> = self.parent_of(id);
        proof {
            assert(g.ancestor(id, 0) == Some(id));
            assert(cur == g.ancestor(id, 1));
            assert(self@.nodes =~= g.unfolded_above(id, 0).nodes);
        }
        while hops < most && cur.is_some()
            invariant
                hops <= most,
                cur == g.ancestor(id, (hops + 1) as nat),
                self@ == g.unfolded_above(id, hops as nat),
                any == g.folded_within(id, hops as nat),
            decreases most - hops,
        {
            let p: u64 = cur.unwrap();
            let ghost h = self@;
            let ghost n = (hops + 1) as nat;
            if self.is_collapsed(p) {
                any = true;
                self.set_collapsed(p, false);
                proof {
                    assert(g.folded_at(id, n));
                }
            } else {
                proof {
                    if g.collapsed(p) {
                        assert(g.folded_within(id, hops as nat)) by {
                            let k = choose|k: nat|
                                1 <= k <= hops && #[trigger] g.ancestor(id, k) == Some(p);
                            assert(g.folded_at(id, k));
                        }
                    }
                }
            }
            proof {
                lemma_unfold_step(g, id, hops as nat, p);
                assert(self@.nodes =~= g.unfolded_above(id, n).nodes);
                if g.folded_within(id, n) {
                    let k = choose|k: nat| 1 <= k <= n && #[trigger] g.folded_at(id, k);
                    if k <= hops {
                        assert(g.folded_within(id, hops as nat));
                    }
                }
                if g.folded_within(id, hops as nat) {
                    let k = choose|k: nat| 1 <= k <= hops && #[trigger] g.folded_at(id, k);
                    assert(g.folded_at(id, k));
                }
                assert forall|x: u64| #[trigger] self@.parent_of(x) == g.parent_of(x) by {}
            }
            cur = self.parent_of(p);
            hops = hops + 1;
        }
        proof {
            lemma_unfold_ends(g, id, hops as nat);
            assert(self@.nodes =~= g.revealed(id).nodes);
        }
        any
    }

    /// Unfold `id` so something can be put inside it and seen. Creating, pasting
    /// or dropping into a folded branch otherwise lands content somewhere with no
    /// way to look at it.
    pub fn open_for_content(&mut self, id: u64)
        ensures
            final(self)@ == old(self)@.opened(id),
    {
        self.set_collapsed(id, false);
        self.reveal_node(id);
    }

    /// Fold or unfold `id`. Refuses a node with nothing under it: a fold that
    /// hides nothing is a control that does nothing.
    pub fn toggle_collapsed(&mut self, id: u64) -> (r: bool)
        ensures
            r == (old(self)@.has(id) && exists|c: u64| old(self)@.children(id).contains(c)),
            final(self)@ == (if r {
                old(self)@.fold_toggled(id)
            } else {
                old(self)@
            }),
    {
        let kids = self.children_of(id);
        if kids.len() == 0 {
            assert forall|c: u64| !old(self)@.children(id).contains(c) by {
                assert(kids@.contains(c) <==> self@.children(id).contains(c));
            }
            return false;
        }
        if !self.nodes.contains_key(&id) {
            return false;
        }
        proof {
            assert(kids@.contains(kids@[0]));
            assert(self@.children(id).contains(kids@[0]));
        }
        let folded = self.is_collapsed(id);
        self.set_collapsed(id, !folded);
        // A fold that swallows the cursor would leave the arrows walking around
        // inside a branch nobody can see.
        if self.is_collapsed(id) && (self.is_hidden(self.focused_id) || self.focused_id == id) {
            self.focus(id);
        }
        self.drop_hidden_selection();
        if self.selected.is_empty() {
            self.selected.insert(id);
            self.focused_id = id;
            assert(self@.selected =~= set![id]);
        }
        true
    }

    /// Let go of what a fold hides.
    fn drop_hidden_selection(&mut self)
        ensures
            final(self)@ == (GraphModel { selected: old(self)@.shown_selection(), ..old(self)@ }),
    {
        let ghost g = self@;
        let picked = self.acting_on();
        let mut i: usize = 0;
        while i < picked.len()
            invariant
                i <= picked@.len(),
                ids::lists(picked@, g.selected),
                self@ == (GraphModel { selected: self@.selected, ..g }),
                forall|x: u64| #[trigger]
                    self@.selected.contains(x) <==> g.selected.contains(x) && !(picked@.take(
                        i as int,
                    ).contains(x) && g.folded_above(x)),
            decreases picked@.len() - i,
        {
            let s: u64 = picked[i];
            proof {
                ids::lemma_contains_push(picked@, i as int);
                lemma_fold_same(self@, g, s);
            }
            if self.is_hidden(s) {
                self.selected.remove(&s);
            }
            i = i + 1;
        }
        assert(picked@.take(i as int) =~= picked@);
        assert(self@.selected =~= g.shown_selection());
    }
}

/// What is folded above a node is a matter of the nodes alone.
pub proof fn lemma_fold_same(g: GraphModel, h: GraphModel, id: u64)
    requires
        g.nodes == h.nodes,
    ensures
        g.folded_above(id) == h.folded_above(id),
{
    assert forall|k: nat| #[trigger] g.folded_at(id, k) == h.folded_at(id, k) by {
        lemma_same_parents(g, h, id, k);
    }
    if g.folded_above(id) {
        let k = choose|k: nat| 1 <= k && #[trigger] g.folded_at(id, k);
        assert(h.folded_at(id, k));
    }
    if h.folded_above(id) {
        let k = choose|k: nat| 1 <= k && #[trigger] h.folded_at(id, k);
        assert(g.folded_at(id, k));
    }
}

/// Unfolding one more ancestor.
proof fn lemma_unfold_step(g: GraphModel, id: u64, n: nat, p: u64)
    requires
        g.ancestor(id, n + 1) == Some(p),
    ensures
        forall|a: u64| #[trigger]
            g.ancestor_within(id, a, n + 1) <==> g.ancestor_within(id, a, n) || a == p,
{
    assert forall|a: u64| #[trigger] g.ancestor_within(id, a, n + 1) <==> g.ancestor_within(
        id,
        a,
        n,
    ) || a == p by {
        if g.ancestor_within(id, a, n + 1) {
            let k = choose|k: nat| 1 <= k <= n + 1 && #[trigger] g.ancestor(id, k) == Some(a);
            if k <= n {
                assert(g.ancestor(id, k) == Some(a));
            }
        }
        if g.ancestor_within(id, a, n) {
            let k = choose|k: nat| 1 <= k <= n && #[trigger] g.ancestor(id, k) == Some(a);
            assert(g.ancestor(id, k) == Some(a));
        }
    }
}

/// An ancestor is met within as many links as there are nodes.
pub proof fn lemma_over_near(g: GraphModel, id: u64, a: u64)
    requires
        g.nodes.dom().finite(),
    ensures
        g.over(a, id) <==> g.ancestor_within(id, a, g.nodes.dom().len()),
{
    if g.over(a, id) {
        let k = choose|k: nat| 1 <= k && #[trigger] g.ancestor(id, k) == Some(a);
        sanitize::lemma_short_way(g, id, k);
        let j = choose|j: nat|
            1 <= j <= g.nodes.dom().len() && #[trigger] g.ancestor(id, j) == g.ancestor(id, k);
        assert(g.ancestor(id, j) == Some(a));
    }
    if g.ancestor_within(id, a, g.nodes.dom().len()) {
        let k = choose|k: nat|
            1 <= k <= g.nodes.dom().len() && #[trigger] g.ancestor(id, k) == Some(a);
        assert(g.ancestor(id, k) == Some(a));
    }
}

/// Past the last ancestor, or as many as there are nodes, there is nothing more
/// to unfold.
proof fn lemma_unfold_ends(g: GraphModel, id: u64, n: nat)
    requires
        g.nodes.dom().finite(),
        g.ancestor(id, n + 1) is None || n == g.nodes.dom().len(),
    ensures
        forall|a: u64| #[trigger] g.over(a, id) <==> g.ancestor_within(id, a, n),
        g.folded_above(id) <==> g.folded_within(id, n),
{
    if n == g.nodes.dom().len() {
        assert forall|a: u64| #[trigger] g.over(a, id) <==> g.ancestor_within(id, a, n) by {
            lemma_over_near(g, id, a);
        }
        sanitize::lemma_folded_near(g, id);
    } else {
        assert forall|k: nat| k > n implies #[trigger] g.ancestor(id, k) is None by {
            tree::lemma_ancestor_sum(g, id, n + 1, (k - n - 1) as nat);
        }
        assert forall|a: u64| #[trigger] g.over(a, id) <==> g.ancestor_within(id, a, n) by {
            if g.over(a, id) {
                let k = choose|k: nat| 1 <= k && #[trigger] g.ancestor(id, k) == Some(a);
                assert(g.ancestor(id, k) == Some(a));
            }
            if g.ancestor_within(id, a, n) {
                let k = choose|k: nat| 1 <= k <= n && #[trigger] g.ancestor(id, k) == Some(a);
                assert(g.ancestor(id, k) == Some(a));
            }
        }
        if g.folded_above(id) {
            let k = choose|k: nat| 1 <= k && #[trigger] g.folded_at(id, k);
            assert(g.ancestor(id, k) is Some);
            assert(g.folded_at(id, k));
        }
        if g.folded_within(id, n) {
            let k = choose|k: nat| 1 <= k <= n && #[trigger] g.folded_at(id, k);
            assert(g.folded_at(id, k));
        }
    }
}

} // verus!
