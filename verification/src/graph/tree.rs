//! The tree: parents, children, subtrees, depths, and what a fold hides.

use std::collections::HashMap;
use std::collections::HashSet;
use vstd::prelude::*;
use vstd::set_lib::*;
use crate::graph::model::GraphModel;
use crate::graph::sanitize;
use crate::graph::Graph;
use crate::ids;

verus! {

broadcast use {vstd::std_specs::hash::group_hash_axioms, vstd::std_specs::btree::group_btree_axioms};

/// Recursion cap for the layout. Far past any hand-built tree; it exists so that
/// a corrupt file cannot turn a re-layout into a stack overflow.
pub const MAX_TIDY_DEPTH: usize = 512;

impl GraphModel {
    pub open spec fn has(self, id: u64) -> bool {
        self.nodes.dom().contains(id)
    }

    pub open spec fn parent_of(self, id: u64) -> Option<u64> {
        if self.has(id) {
            self.nodes[id].parent
        } else {
            None
        }
    }

    pub open spec fn collapsed(self, id: u64) -> bool {
        self.has(id) && self.nodes[id].collapsed
    }

    /// The ancestor of `id` that is `k` links up; itself at none.
    pub open spec fn ancestor(self, id: u64, k: nat) -> Option<u64>
        decreases k,
    {
        if k == 0 {
            Some(id)
        } else {
            match self.ancestor(id, (k - 1) as nat) {
                Some(a) => self.parent_of(a),
                None => None,
            }
        }
    }

    /// The nodes that hang under `p`.
    pub open spec fn children(self, p: u64) -> Set<u64> {
        self.nodes.dom().filter(|id: u64| self.nodes[id].parent == Some(p))
    }

    /// `top` is `id` or an ancestor of it.
    pub open spec fn above(self, top: u64, id: u64) -> bool {
        exists|k: nat| self.ancestor(id, k) == Some(top)
    }

    /// `top` with everything under it; nothing where there is no such node.
    pub open spec fn subtree(self, top: u64) -> Set<u64> {
        if self.has(top) {
            self.nodes.dom().filter(|id: u64| self.above(top, id))
        } else {
            Set::empty()
        }
    }

    /// One of the nearest `n` ancestors of `id` is folded.
    pub open spec fn folded_within(self, id: u64, n: nat) -> bool {
        exists|k: nat| 1 <= k <= n && #[trigger] self.folded_at(id, k)
    }

    /// The ancestor of `id` that is `k` links up is folded.
    pub open spec fn folded_at(self, id: u64, k: nat) -> bool {
        self.ancestor(id, k) matches Some(a) && self.collapsed(a)
    }

    /// Going up from `id` ends at a node without a parent.
    pub open spec fn rooted(self, id: u64) -> bool {
        exists|k: nat| #[trigger] self.top_at(id, k)
    }

    /// The ancestor of `id` that is `k` links up is a node without a parent.
    pub open spec fn top_at(self, id: u64, k: nat) -> bool {
        self.ancestor(id, k) matches Some(r) && self.has(r) && self.parent_of(r) is None
    }

    /// What a fold above it keeps from sight.
    pub open spec fn hidden(self) -> Set<u64> {
        self.nodes.dom().filter(
            |id: u64|
                self.rooted(id) && self.folded_above(id),
        )
    }

    /// `kids` holds the children of every node that has any, in ascending order.
    pub open spec fn indexed_by(self, kids: Map<u64, Vec<u64>>) -> bool {
        forall|p: u64|
            {
                &&& (#[trigger] kids.dom().contains(p) <==> exists|c: u64|
                    self.children(p).contains(c))
                &&& kids.dom().contains(p) ==> ids::lists(kids[p]@, self.children(p))
            }
    }
}

/// One link up first, then `k` more.
pub proof fn lemma_ancestor_shift(g: GraphModel, id: u64, k: nat)
    ensures
        g.ancestor(id, k + 1) == (match g.parent_of(id) {
            Some(p) => g.ancestor(p, k),
            None => None,
        }),
    decreases k,
{
    if k > 0 {
        lemma_ancestor_shift(g, id, (k - 1) as nat);
    }
    reveal_with_fuel(GraphModel::ancestor, 2);
}

/// `j` links up, then `k` more.
pub proof fn lemma_ancestor_sum(g: GraphModel, id: u64, j: nat, k: nat)
    ensures
        g.ancestor(id, j + k) == (match g.ancestor(id, j) {
            Some(a) => g.ancestor(a, k),
            None => None,
        }),
    decreases k,
{
    if k > 0 {
        lemma_ancestor_sum(g, id, j, (k - 1) as nat);
    }
}

/// A set that holds `top`, and with a node its children, holds the subtree.
proof fn lemma_closed_holds(g: GraphModel, seen: Set<u64>, top: u64, x: u64, k: nat)
    requires
        seen.contains(top),
        forall|c: u64, p: u64|
            seen.contains(p) && #[trigger] g.has(c) && #[trigger] g.children(p).contains(c)
                ==> seen.contains(c),
        g.ancestor(x, k) == Some(top),
    ensures
        seen.contains(x),
    decreases k,
{
    if k > 0 {
        let y = g.ancestor(x, (k - 1) as nat)->0;
        assert(g.has(y));
        assert(g.children(top).contains(y));
        lemma_closed_holds(g, seen, y, x, (k - 1) as nat);
    }
}

impl Graph {
    pub fn parent_of(&self, id: u64) -> (r: Option<u64>)
        ensures
            r == self@.parent_of(id),
    {
        match self.nodes.get(&id) {
            Some(n) => n.parent,
            None => None,
        }
    }

    pub fn is_collapsed(&self, id: u64) -> (r: bool)
        ensures
            r == self@.collapsed(id),
    {
        match self.nodes.get(&id) {
            Some(n) => n.collapsed,
            None => false,
        }
    }

    /// The children of `parent`, in ascending order.
    pub fn children_of(&self, parent: u64) -> (r: Vec<u64>)
        ensures
            ids::lists(r@, self@.children(parent)),
    {
        let all = ids::sorted_keys(&self.nodes);
        let mut out: Vec<u64> = Vec::new();
        let mut i: usize = 0;
        while i < all.len()
            invariant
                i <= all@.len(),
                ids::lists(all@, self.nodes@.dom()),
                ids::increasing(out@),
                forall|x: u64| #[trigger]
                    out@.contains(x) <==> all@.take(i as int).contains(x)
                        && self@.children(parent).contains(x),
            decreases all@.len() - i,
        {
            let id: u64 = all[i];
            let ghost before = out@;
            assert(all@.contains(id));
            let hangs = match self.parent_of(id) {
                Some(p) => p == parent,
                None => false,
            };
            if hangs {
                out.push(id);
            }
            proof {
                ids::lemma_take(all@, i as int, before, out@, hangs);
            }
            i = i + 1;
        }
        assert(all@.take(all@.len() as int) =~= all@);
        out
    }

    /// Parent to sorted children, in one pass. Callers that walk many subtrees
    /// build this once instead of scanning every node per node.
    pub fn children_index(&self) -> (kids: HashMap<u64, Vec<u64>>)
        ensures
            self@.indexed_by(kids@),
    {
        let all = ids::sorted_keys(&self.nodes);
        let mut kids: HashMap<u64, Vec<u64>> = HashMap::new();
        let mut i: usize = 0;
        while i < all.len()
            invariant
                i <= all@.len(),
                ids::lists(all@, self.nodes@.dom()),
                forall|p: u64| #[trigger]
                    kids@.dom().contains(p) ==> ids::increasing(kids@[p]@) && kids@[p]@.len() > 0,
                forall|p: u64, x: u64|
                    (kids@.dom().contains(p) && #[trigger] kids@[p]@.contains(x)) ==> all@.take(
                        i as int,
                    ).contains(x) && self@.children(p).contains(x),
                forall|p: u64, x: u64|
                    all@.take(i as int).contains(x) && #[trigger] self@.children(p).contains(x)
                        ==> kids@.dom().contains(p) && kids@[p]@.contains(x),
            decreases all@.len() - i,
        {
            let id: u64 = all[i];
            assert(all@.contains(id));
            let ghost before = kids@;
            match self.parent_of(id) {
                Some(p) => {
                    let mut v = match kids.remove(&p) {
                        Some(v) => v,
                        None => Vec::new(),
                    };
                    let ghost was = v@;
                    proof {
                        assert forall|k: int| 0 <= k < was.len() implies was[k] < id by {
                            assert(was.contains(was[k]));
                            let m = choose|m: int|
                                0 <= m < i && all@.take(i as int)[m] == was[k];
                            assert(all@[m] < all@[i as int]);
                        }
                    }
                    v.push(id);
                    proof {
                        assert(v@.contains(id)) by {
                            assert(v@[was.len() as int] == id);
                        }
                        assert forall|x: u64| #[trigger] was.contains(x) implies v@.contains(x) by {
                            let k = choose|k: int| 0 <= k < was.len() && was[k] == x;
                            assert(v@[k] == x);
                        }
                        assert forall|x: u64| #[trigger] v@.contains(x) implies was.contains(x) || x
                            == id by {
                            let k = choose|k: int| 0 <= k < v@.len() && v@[k] == x;
                            if k < was.len() {
                                assert(was[k] == x);
                            }
                        }
                    }
                    kids.insert(p, v);
                },
                None => {},
            }
            proof {
                let t = all@.take(i as int);
                let u = all@.take(i + 1);
                assert(u =~= t.push(id));
                assert forall|x: u64| #[trigger] u.contains(x) <==> t.contains(x) || x == id by {
                    if t.contains(x) {
                        let k = choose|k: int| 0 <= k < t.len() && t[k] == x;
                        assert(u[k] == x);
                    }
                    if x == id {
                        assert(u[i as int] == id);
                    }
                }
            }
            i = i + 1;
        }
        proof {
            assert(all@.take(all@.len() as int) =~= all@);
            assert forall|p: u64| #[trigger] kids@.dom().contains(p) implies exists|c: u64|
                self@.children(p).contains(c) by {
                assert(kids@[p]@.contains(kids@[p]@[0]));
                assert(self@.children(p).contains(kids@[p]@[0]));
            }
        }
        kids
    }

    /// `id` plus all descendants, in ascending order. Cycle-safe.
    pub fn subtree_ids(&self, id: u64) -> (r: Vec<u64>)
        ensures
            ids::lists(r@, self@.subtree(id)),
    {
        if !self.nodes.contains_key(&id) {
            let none: Vec<u64> = Vec::new();
            assert(ids::lists(none@, self@.subtree(id)));
            return none;
        }
        let kids = self.children_index();
        let mut out: Vec<u64> = Vec::new();
        let mut seen: HashSet<u64> = HashSet::new();
        let mut stack: Vec<u64> = vec![id];
        let ghost g = self@;
        proof {
            assert(g.nodes.dom() =~= self.nodes@.dom());
            assert(g.ancestor(id, 0) == Some(id));
            assert(stack@.contains(id)) by {
                assert(stack@[0] == id);
            }
        }
        while stack.len() > 0
            invariant
                g == self@,
                g.has(id),
                g.indexed_by(kids@),
                out@.no_duplicates(),
                out@.to_set() == seen@,
                seen@.subset_of(g.nodes.dom()),
                g.nodes.dom().finite(),
                seen@.contains(id) || stack@.contains(id),
                forall|x: u64| #[trigger] seen@.contains(x) ==> g.subtree(id).contains(x),
                forall|k: int| 0 <= k < stack@.len() ==> g.subtree(id).contains(#[trigger] stack@[k]),
                forall|c: u64, p: u64|
                    seen@.contains(p) && #[trigger] g.has(c) && #[trigger] g.children(p).contains(c)
                        ==> seen@.contains(c) || stack@.contains(c),
            decreases g.nodes.dom().len() - seen@.len(), stack@.len(),
        {
            let ghost held = stack@;
            let ghost was = seen@;
            let cur: u64 = stack.pop().unwrap();
            proof {
                assert(held.last() == cur);
                assert forall|x: u64| #[trigger] held.contains(x) && x != cur implies stack@.contains(
                    x,
                ) by {
                    let k = choose|k: int| 0 <= k < held.len() && held[k] == x;
                    assert(stack@[k] == x);
                }
                assert(forall|k: int| 0 <= k < stack@.len() ==> stack@[k] == held[k]);
                lemma_len_subset(was, g.nodes.dom());
            }
            if seen.insert(cur) {
                let ghost popped = stack@;
                let ghost listed = out@;
                out.push(cur);
                proof {
                    assert(out@.to_set() =~= listed.to_set().insert(cur)) by {
                        assert(out@[listed.len() as int] == cur);
                        assert forall|x: u64| listed.contains(x) implies #[trigger] out@.contains(
                            x,
                        ) by {
                            let k = choose|k: int| 0 <= k < listed.len() && listed[k] == x;
                            assert(out@[k] == x);
                        }
                    }
                    assert(!listed.contains(cur)) by {
                        assert(listed.to_set().contains(cur) <==> listed.contains(cur));
                    }
                    lemma_len_subset(seen@, g.nodes.dom());
                }
                match kids.get(&cur) {
                    Some(cs) => {
                        let mut k: usize = 0;
                        while k < cs.len()
                            invariant
                                k <= cs@.len(),
                                g.has(cur),
                                g.subtree(id).contains(cur),
                                ids::lists(cs@, g.children(cur)),
                                forall|m: int|
                                    0 <= m < stack@.len() ==> g.subtree(id).contains(
                                        #[trigger] stack@[m],
                                    ),
                                forall|x: u64| #[trigger] popped.contains(x) ==> stack@.contains(x),
                                forall|m: int| 0 <= m < k ==> stack@.contains(#[trigger] cs@[m]),
                            decreases cs@.len() - k,
                        {
                            let c: u64 = cs[k];
                            let ghost below = stack@;
                            proof {
                                assert(cs@.contains(c));
                                let up = choose|up: nat| g.ancestor(cur, up) == Some(id);
                                lemma_ancestor_shift(g, c, up);
                                assert(g.ancestor(c, up + 1) == Some(id));
                                assert(g.subtree(id).contains(c));
                            }
                            stack.push(c);
                            proof {
                                assert forall|x: u64| #[trigger] below.contains(x) implies stack@.contains(
                                    x,
                                ) by {
                                    let m = choose|m: int| 0 <= m < below.len() && below[m] == x;
                                    assert(stack@[m] == x);
                                }
                                assert(stack@[below.len() as int] == c);
                                assert(stack@.contains(c));
                            }
                            k = k + 1;
                        }
                        proof {
                            assert forall|c: u64| #[trigger] g.children(cur).contains(c) implies stack@.contains(
                                c,
                            ) by {
                                assert(cs@.contains(c));
                                let m = choose|m: int| 0 <= m < cs@.len() && cs@[m] == c;
                                assert(stack@.contains(cs@[m]));
                            }
                        }
                    },
                    None => {
                        assert(!kids@.dom().contains(cur));
                    },
                }
            }
        }
        proof {
            assert forall|x: u64| #[trigger] g.subtree(id).contains(x) implies seen@.contains(x) by {
                let k = choose|k: nat| g.ancestor(x, k) == Some(id);
                lemma_closed_holds(g, seen@, id, x, k);
            }
            assert(out@.to_set() =~= g.subtree(id));
        }
        ids::sort_distinct(&mut out);
        out
    }

    /// How many nodes a fold at `id` is currently hiding: what stands under it
    /// where it is folded, and none where it is not.
    pub fn hidden_count(&self, id: u64) -> (r: usize)
        ensures
            r == (if self@.collapsed(id) {
                self@.subtree(id).len() - 1
            } else {
                0
            }),
    {
        if !self.is_collapsed(id) {
            return 0;
        }
        let all = self.subtree_ids(id);
        proof {
            ids::lemma_lists_len(all@, self@.subtree(id));
            assert(self@.ancestor(id, 0) == Some(id));
            assert(self@.subtree(id).contains(id));
            assert(all@.contains(id));
        }
        all.len() - 1
    }

    /// Whether an ancestor of `id` is folded. The node itself being folded does
    /// not hide it — you have to be able to see the thing you unfold.
    pub fn is_hidden(&self, id: u64) -> (r: bool)
        ensures
            r == self@.folded_above(id),
    {
        let ghost g = self@;
        // Within as many links as there are nodes every ancestor was met.
        let most: usize = self.nodes.len();
        assert(g.nodes.dom() =~= self.nodes@.dom());
        let mut cur: Option<u64> = self.parent_of(id);
        let mut hops: usize = 0;
        assert(g.ancestor(id, 0) == Some(id));
        assert(cur == g.ancestor(id, 1));
        loop
            invariant
                g == self@,
                hops <= most,
                most == g.nodes.dom().len(),
                g.nodes.dom().finite(),
                cur == g.ancestor(id, (hops + 1) as nat),
                forall|k: nat| 1 <= k <= hops ==> !#[trigger] g.folded_at(id, k),
            decreases most - hops,
        {
            if hops == most {
                proof {
                    sanitize::lemma_folded_near(g, id);
                }
                return false;
            }
            match cur {
                None => {
                    proof {
                        assert forall|k: nat| k >= hops + 1 implies !#[trigger] g.folded_at(id, k) by {
                            lemma_ancestor_sum(g, id, (hops + 1) as nat, (k - hops - 1) as nat);
                        }
                    }
                    return false;
                },
                Some(p) => {
                    if self.is_collapsed(p) {
                        assert(g.folded_at(id, (hops + 1) as nat));
                        return true;
                    }
                    hops = hops + 1;
                    cur = self.parent_of(p);
                },
            }
        }
    }

    /// Everything hidden, in one downward pass — cheaper than asking per node
    /// when the caller needs the whole answer, as paint and layout do.
    pub fn hidden_set(&self) -> (r: HashSet<u64>)
        ensures
            r@ == self@.hidden(),
    {
        let kids = self.children_index();
        self.hidden_set_from(&kids)
    }

    /// Child counts for every node that has children, in one pass.
    pub fn child_counts(&self) -> (counts: HashMap<u64, usize>)
        ensures
            forall|p: u64|
                {
                    &&& (#[trigger] counts@.dom().contains(p) <==> exists|c: u64|
                        self@.children(p).contains(c))
                    &&& counts@.dom().contains(p) ==> counts@[p] == self@.children(p).len()
                },
    {
        let kids = self.children_index();
        let parents = ids::keys(&kids);
        let mut counts: HashMap<u64, usize> = HashMap::new();
        let mut i: usize = 0;
        while i < parents.len()
            invariant
                i <= parents@.len(),
                self@.indexed_by(kids@),
                parents@.to_set() == kids@.dom(),
                forall|p: u64| #[trigger]
                    counts@.dom().contains(p) <==> parents@.take(i as int).contains(p),
                forall|p: u64| #[trigger]
                    counts@.dom().contains(p) ==> counts@[p] == self@.children(p).len(),
            decreases parents@.len() - i,
        {
            let p: u64 = parents[i];
            assert(parents@.contains(p));
            assert(parents@.to_set().contains(p));
            let n: usize = match kids.get(&p) {
                Some(v) => v.len(),
                None => 0,
            };
            proof {
                ids::lemma_lists_len(kids@[p]@, self@.children(p));
                assert(parents@.take(i + 1) =~= parents@.take(i as int).push(p));
                assert forall|x: u64| #[trigger] parents@.take(i + 1).contains(x)
                    <==> parents@.take(i as int).contains(x) || x == p by {
                    if parents@.take(i as int).contains(x) {
                        let k = choose|k: int|
                            0 <= k < i && parents@.take(i as int)[k] == x;
                        assert(parents@.take(i + 1)[k] == x);
                    }
                    if x == p {
                        assert(parents@.take(i + 1)[i as int] == x);
                    }
                }
            }
            counts.insert(p, n);
            i = i + 1;
        }
        proof {
            assert(parents@.take(parents@.len() as int) =~= parents@);
            assert forall|p: u64| #[trigger] counts@.dom().contains(p) <==> kids@.dom().contains(p) by {
                assert(parents@.to_set().contains(p) <==> parents@.contains(p));
            }
        }
        counts
    }

    /// The same, reusing a children index the caller already built — so a frame
    /// that needs both the hidden set and child counts pays for the index once.
    pub fn hidden_set_from(&self, kids: &HashMap<u64, Vec<u64>>) -> (r: HashSet<u64>)
        requires
            self@.indexed_by(kids@),
        ensures
            r@ == self@.hidden(),
    {
        let ghost g = self@;
        let all = ids::keys(&self.nodes);
        let mut hidden: HashSet<u64> = HashSet::new();
        let mut stack: Vec<(u64, bool)> = Vec::new();
        let mut i: usize = 0;
        while i < all.len()
            invariant
                g == self@,
                i <= all@.len(),
                all@.to_set() == g.nodes.dom(),
                forall|k: int|
                    0 <= k < stack@.len() ==> {
                        let (id, under) = #[trigger] stack@[k];
                        g.has(id) && g.parent_of(id) is None && !under
                    },
                forall|k: int|
                    0 <= k < i && g.parent_of(#[trigger] all@[k]) is None ==> on_stack(
                        stack@,
                        all@[k],
                    ),
            decreases all@.len() - i,
        {
            let id: u64 = all[i];
            proof {
                assert(all@.contains(id));
                assert(all@.to_set().contains(id));
            }
            let ghost before = stack@;
            if self.parent_of(id).is_none() {
                stack.push((id, false));
                assert(stack@[before.len() as int] == (id, false));
                assert(on_stack(stack@, id));
            }
            proof {
                assert forall|k: int| 0 <= k < i && g.parent_of(#[trigger] all@[k]) is None implies on_stack(
                    stack@,
                    all@[k],
                ) by {
                    let m = choose|m: int| 0 <= m < before.len() && (#[trigger] before[m]).0 == all@[k];
                    assert(stack@[m] == before[m]);
                }
            }
            i = i + 1;
        }
        let mut seen: HashSet<u64> = HashSet::new();
        proof {
            assert forall|id: u64| #[trigger] g.has(id) && g.parent_of(id) is None implies on_stack(
                stack@,
                id,
            ) by {
                assert(all@.to_set().contains(id));
                assert(all@.contains(id));
                let k = choose|k: int| 0 <= k < all@.len() && all@[k] == id;
                assert(on_stack(stack@, all@[k]));
            }
            assert forall|k: int| 0 <= k < stack@.len() implies g.reaches(#[trigger] stack@[k]) by {
                let (id, under) = stack@[k];
                assert(g.ancestor(id, 0) == Some(id));
                assert(g.top_at(id, 0));
                assert forall|j: nat| 1 <= j implies !#[trigger] g.folded_at(id, j) by {
                    lemma_ancestor_shift(g, id, (j - 1) as nat);
                }
            }
        }
        while stack.len() > 0
            invariant
                g == self@,
                g.indexed_by(kids@),
                g.nodes.dom().finite(),
                seen@.subset_of(g.nodes.dom()),
                forall|id: u64| #[trigger]
                    seen@.contains(id) ==> g.rooted(id) && (hidden@.contains(id)
                        <==> g.folded_above(id)),
                forall|id: u64| #[trigger] hidden@.contains(id) ==> seen@.contains(id),
                forall|k: int| 0 <= k < stack@.len() ==> g.reaches(#[trigger] stack@[k]),
                forall|id: u64| #[trigger]
                    g.has(id) && g.parent_of(id) is None ==> seen@.contains(id) || on_stack(
                        stack@,
                        id,
                    ),
                forall|c: u64, p: u64|
                    seen@.contains(p) && #[trigger] g.has(c) && #[trigger] g.children(p).contains(c)
                        ==> seen@.contains(c) || on_stack(stack@, c),
            decreases g.nodes.dom().len() - seen@.len(), stack@.len(),
        {
            let ghost held = stack@;
            let (id, under) = stack.pop().unwrap();
            let ghost popped = stack@;
            proof {
                assert(held.last() == (id, under));
                assert(g.reaches(held[held.len() - 1]));
                assert forall|x: u64| #[trigger] on_stack(held, x) && x != id implies on_stack(
                    popped,
                    x,
                ) by {
                    let m = choose|m: int| 0 <= m < held.len() && (#[trigger] held[m]).0 == x;
                    assert(popped[m] == held[m]);
                }
                assert(forall|k: int| 0 <= k < popped.len() ==> popped[k] == held[k]);
                lemma_len_subset(seen@, g.nodes.dom());
            }
            if seen.insert(id) {
                proof {
                    lemma_len_subset(seen@, g.nodes.dom());
                }
                if under {
                    hidden.insert(id);
                }
                let folded = under || self.is_collapsed(id);
                match kids.get(&id) {
                    Some(cs) => {
                        push_all(&mut stack, cs, folded);
                        proof {
                            lemma_pushed(g, popped, stack@, cs@, id, folded);
                        }
                    },
                    None => {
                        assert(!kids@.dom().contains(id));
                    },
                }
            }
        }
        proof {
            assert forall|id: u64| #[trigger] g.has(id) && g.rooted(id) implies seen@.contains(id) by {
                let k = choose|k: nat| #[trigger] g.top_at(id, k);
                let r = g.ancestor(id, k)->0;
                assert(g.has(r));
                lemma_closed_holds(g, seen@, r, id, k);
            }
            assert(hidden@ =~= g.hidden());
        }
        hidden
    }
}

impl GraphModel {
    /// An ancestor of `id` is folded, however far up.
    pub open spec fn folded_above(self, id: u64) -> bool {
        exists|k: nat| 1 <= k && #[trigger] self.folded_at(id, k)
    }

    /// A node that going down from the tops comes to, and whether a fold was
    /// passed on the way.
    spec fn reaches(self, item: (u64, bool)) -> bool {
        let (id, under) = item;
        self.has(id) && self.rooted(id) && under == self.folded_above(id)
    }
}

/// Put every one of `cs` on the stack, marked alike.
fn push_all(stack: &mut Vec<(u64, bool)>, cs: &Vec<u64>, mark: bool)
    ensures
        final(stack)@ == old(stack)@ + cs@.map_values(|c: u64| (c, mark)),
{
    let ghost before = stack@;
    let ghost marked = cs@.map_values(|c: u64| (c, mark));
    let mut k: usize = 0;
    assert(before =~= before + marked.take(0));
    while k < cs.len()
        invariant
            k <= cs@.len(),
            marked == cs@.map_values(|c: u64| (c, mark)),
            stack@ == before + marked.take(k as int),
        decreases cs@.len() - k,
    {
        stack.push((cs[k], mark));
        assert(marked.take(k + 1) =~= marked.take(k as int).push(marked[k as int]));
        k = k + 1;
        assert(stack@ =~= before + marked.take(k as int));
    }
    assert(marked.take(k as int) =~= marked);
}

/// The children of a node that was reached are on the stack, as reached.
proof fn lemma_pushed(
    g: GraphModel,
    before: Seq<(u64, bool)>,
    after: Seq<(u64, bool)>,
    cs: Seq<u64>,
    p: u64,
    folded: bool,
)
    requires
        g.has(p),
        g.rooted(p),
        folded == (g.folded_above(p) || g.collapsed(p)),
        ids::lists(cs, g.children(p)),
        after == before + cs.map_values(|c: u64| (c, folded)),
        forall|k: int| 0 <= k < before.len() ==> g.reaches(#[trigger] before[k]),
    ensures
        forall|k: int| 0 <= k < after.len() ==> g.reaches(#[trigger] after[k]),
        forall|x: u64| #[trigger] on_stack(before, x) ==> on_stack(after, x),
        forall|c: u64| #[trigger] g.children(p).contains(c) ==> on_stack(after, c),
{
    assert forall|k: int| 0 <= k < after.len() implies g.reaches(#[trigger] after[k]) by {
        if k < before.len() {
            assert(after[k] == before[k]);
        } else {
            let c = cs[k - before.len()];
            assert(cs.contains(c));
            lemma_child_reached(g, p, c, folded);
        }
    }
    assert forall|x: u64| #[trigger] on_stack(before, x) implies on_stack(after, x) by {
        let m = choose|m: int| 0 <= m < before.len() && (#[trigger] before[m]).0 == x;
        assert(after[m] == before[m]);
    }
    assert forall|c: u64| #[trigger] g.children(p).contains(c) implies on_stack(after, c) by {
        assert(cs.contains(c));
        let m = choose|m: int| 0 <= m < cs.len() && cs[m] == c;
        assert(after[before.len() + m].0 == c);
    }
}

spec fn on_stack(stack: Seq<(u64, bool)>, id: u64) -> bool {
    exists|k: int| 0 <= k < stack.len() && (#[trigger] stack[k]).0 == id
}

/// A child is reached where its parent is, and hidden where the parent is hidden
/// or folded.
proof fn lemma_child_reached(g: GraphModel, p: u64, c: u64, folded: bool)
    requires
        g.has(p),
        g.rooted(p),
        g.children(p).contains(c),
        folded == (g.folded_above(p) || g.collapsed(p)),
    ensures
        g.has(c),
        g.rooted(c),
        folded == g.folded_above(c),
{
    let k = choose|k: nat| #[trigger] g.top_at(p, k);
    lemma_ancestor_shift(g, c, k);
    assert(g.top_at(c, k + 1));
    if g.collapsed(p) {
        lemma_ancestor_shift(g, c, 0);
        assert(g.ancestor(p, 0) == Some(p));
        assert(g.folded_at(c, 1));
    }
    if g.folded_above(p) {
        let j = choose|j: nat| 1 <= j && #[trigger] g.folded_at(p, j);
        lemma_ancestor_shift(g, c, j);
        assert(g.folded_at(c, j + 1));
    }
    if g.folded_above(c) {
        let j = choose|j: nat| 1 <= j && #[trigger] g.folded_at(c, j);
        lemma_ancestor_shift(g, c, (j - 1) as nat);
        if j > 1 {
            assert(g.folded_at(p, (j - 1) as nat));
        } else {
            assert(g.ancestor(p, 0) == Some(p));
        }
    }
}

} // verus!
