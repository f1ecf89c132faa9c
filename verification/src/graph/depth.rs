//! How deep nodes hang.

use std::collections::HashMap;
use std::collections::HashSet;
use vstd::prelude::*;
use crate::graph::model::GraphModel;
use crate::graph::sanitize;
use crate::graph::tree;
use crate::graph::Graph;
use crate::ids;

verus! {

broadcast use {vstd::std_specs::hash::group_hash_axioms, vstd::std_specs::btree::group_btree_axioms};

impl GraphModel {
    /// Going up from `id` ends after `k` links.
    pub open spec fn ends_after(self, id: u64, k: nat) -> bool {
        self.ancestor(id, k) matches Some(a) && self.parent_of(a) is None
    }

    /// `id` is one of `wanted` that is a node, or an ancestor of one.
    pub open spec fn above_wanted(self, wanted: Set<u64>, id: u64) -> bool {
        exists|w: u64| wanted.contains(w) && #[trigger] self.has(w) && self.above(id, w)
    }
}

/// `d` is the depth of `id`, as far as a machine integer counts.
pub open spec fn is_depth(g: GraphModel, id: u64, d: usize) -> bool {
    forall|k: nat| #[trigger]
        g.ends_after(id, k) ==> d == (if k <= usize::MAX {
            k as int
        } else {
            usize::MAX as int
        })
}

/// `j` links further up there are `j` links fewer to go.
proof fn lemma_ends_up(g: GraphModel, id: u64, j: nat, k: nat)
    requires
        g.ancestor(id, j) is Some,
    ensures
        g.ends_after(id, k) ==> k >= j && g.ends_after(g.ancestor(id, j)->0, (k - j) as nat),
        g.ends_after(g.ancestor(id, j)->0, k) ==> g.ends_after(id, k + j),
{
    let a = g.ancestor(id, j)->0;
    tree::lemma_ancestor_sum(g, id, j, k);
    if g.ends_after(id, k) {
        assert(g.ancestor(id, k + 1) is None);
        if k < j {
            tree::lemma_ancestor_sum(g, id, k + 1, (j - k - 1) as nat);
        } else {
            tree::lemma_ancestor_sum(g, id, j, (k - j) as nat);
        }
    }
}

/// Going up ends once.
proof fn lemma_ends_once(g: GraphModel, id: u64, j: nat, k: nat)
    requires
        g.ends_after(id, j),
        g.ends_after(id, k),
    ensures
        j == k,
{
    if j < k {
        lemma_ends_up(g, id, k, j);
    } else if k < j {
        lemma_ends_up(g, id, j, k);
    }
}

/// Going round a loop never ends.
proof fn lemma_loop_never_ends(g: GraphModel, id: u64, k: nat, t: nat)
    requires
        k >= 1,
        g.ancestor(id, k) == Some(id),
    ensures
        !g.ends_after(id, t),
    decreases t,
{
    if g.ends_after(id, t) {
        lemma_ends_up(g, id, k, t);
        lemma_loop_never_ends(g, id, k, (t - k) as nat);
    }
}

/// A way up through more nodes than there are never ends.
proof fn lemma_long_never_ends(g: GraphModel, id: u64, n: nat, t: nat)
    requires
        g.nodes.dom().finite(),
        n > g.nodes.dom().len(),
        forall|k: nat| k < n ==> (#[trigger] g.ancestor(id, k) matches Some(a) && g.has(a)),
    ensures
        !g.ends_after(id, t),
{
    let (i, j) = sanitize::lemma_repeats(g, id, n);
    sanitize::lemma_repeat_is_loop(g, id, i, j);
    let a = g.ancestor(id, i)->0;
    assert(g.ancestor(id, i) is Some);
    let k = choose|k: nat| 1 <= k && #[trigger] g.ancestor(a, k) == Some(a);
    if g.ends_after(id, t) {
        lemma_ends_up(g, id, i, t);
        lemma_loop_never_ends(g, a, k, (t - i) as nat);
    }
}

impl Graph {
    /// Depth of each node in `wanted`, sharing one memo across the walk. Paint
    /// needs this for every visible edge on every frame.
    pub fn depths_for(&self, wanted: &HashSet<u64>) -> (out: HashMap<u64, usize>)
        ensures
            forall|w: u64| #[trigger]
                wanted@.contains(w) && self@.has(w) ==> out@.dom().contains(w),
            forall|x: u64| #[trigger] out@.dom().contains(x) ==> self@.above_wanted(wanted@, x),
            forall|x: u64| #[trigger] out@.dom().contains(x) ==> is_depth(self@, x, out@[x]),
    {
        let ghost g = self@;
        let mut out: HashMap<u64, usize> = HashMap::new();
        let all = ids::sorted_keys(&self.nodes);
        let mut i: usize = 0;
        while i < all.len()
            invariant
                g == self@,
                i <= all@.len(),
                ids::lists(all@, self.nodes@.dom()),
                forall|w: u64| #[trigger]
                    all@.take(i as int).contains(w) && wanted@.contains(w) ==> out@.dom().contains(w),
                forall|x: u64| #[trigger] out@.dom().contains(x) ==> g.above_wanted(wanted@, x),
                forall|x: u64| #[trigger] out@.dom().contains(x) ==> is_depth(g, x, out@[x]),
            decreases all@.len() - i,
        {
            let start: u64 = all[i];
            proof {
                assert(all@.contains(start));
                ids::lemma_contains_push(all@, i as int);
            }
            if wanted.contains(&start) && !out.contains_key(&start) {
                assert(g.has(start));
                let (chain, base): (Vec<u64>, usize) = self.climb(start, &out);
                self.note_depths(&mut out, &chain, base, start, wanted);
            }
            i = i + 1;
        }
        proof {
            assert(all@.take(i as int) =~= all@);
            assert forall|w: u64| #[trigger]
                wanted@.contains(w) && g.has(w) implies out@.dom().contains(w) by {
                assert(all@.contains(w));
            }
        }
        out
    }

    /// The way up from `start` to the first node whose depth is known or that has
    /// no parent, and the depth of the last node on it.
    fn climb(&self, start: u64, known: &HashMap<u64, usize>) -> (r: (Vec<u64>, usize))
        requires
            self@.has(start),
            !known@.dom().contains(start),
            forall|x: u64| #[trigger] known@.dom().contains(x) ==> is_depth(self@, x, known@[x]),
        ensures
            r.0@.len() > 0,
            forall|j: int|
                0 <= j < r.0@.len() ==> self@.ancestor(start, j as nat) == Some(#[trigger] r.0@[j]),
            is_depth(self@, r.0@.last(), r.1),
    {
        let ghost g = self@;
        let n: usize = self.nodes.len();
        assert(g.nodes.dom() =~= self.nodes@.dom());
        let mut chain: Vec<u64> = Vec::new();
        let mut cur: u64 = start;
        assert(g.ancestor(start, 0) == Some(start));
        loop
            invariant
                g == self@,
                n == g.nodes.dom().len(),
                g.nodes.dom().finite(),
                g.has(start),
                !known@.dom().contains(start),
                forall|x: u64| #[trigger] known@.dom().contains(x) ==> is_depth(g, x, known@[x]),
                chain@.len() <= n,
                g.ancestor(start, chain@.len()) == Some(cur),
                chain@.len() == 0 ==> cur == start,
                forall|j: int|
                    0 <= j < chain@.len() ==> g.ancestor(start, j as nat) == Some(
                        #[trigger] chain@[j],
                    ) && g.has(chain@[j]),
            decreases n - chain@.len(),
        {
            match known.get(&cur) {
                Some(d) => {
                    let d: usize = *d;
                    let base: usize = if d == usize::MAX {
                        d
                    } else {
                        d + 1
                    };
                    proof {
                        let m = (chain@.len() - 1) as nat;
                        let last = chain@.last();
                        assert(chain@[m as int] == last);
                        assert(g.ancestor(start, m) == Some(last));
                        assert(g.ancestor(last, 0) == Some(last));
                        assert(g.ancestor(last, 1) == Some(cur));
                        assert forall|k: nat| #[trigger] g.ends_after(last, k) implies base == (
                        if k <= usize::MAX {
                            k as int
                        } else {
                            usize::MAX as int
                        }) by {
                            lemma_ends_up(g, last, 1, k);
                            assert(g.ends_after(cur, (k - 1) as nat));
                        }
                    }
                    return (chain, base);
                },
                None => {},
            }
            let ghost was = chain@;
            chain.push(cur);
            if chain.len() > n {
                proof {
                    assert forall|k: nat| #[trigger] g.ends_after(cur, k) implies k == 0 by {
                        if g.has(cur) {
                            assert forall|j: nat| j < chain@.len() implies (#[trigger] g.ancestor(
                                start,
                                j,
                            ) matches Some(a) && g.has(a)) by {
                                assert(g.ancestor(start, j) == Some(chain@[j as int]));
                            }
                            lemma_ends_up(g, start, was.len(), k);
                            lemma_long_never_ends(g, start, chain@.len(), k + was.len());
                        } else {
                            assert(g.ancestor(cur, 0) == Some(cur));
                            assert(g.ends_after(cur, 0));
                            lemma_ends_once(g, cur, 0, k);
                        }
                    }
                }
                return (chain, 0);
            }
            match self.parent_of(cur) {
                Some(p) => {
                    cur = p;
                },
                None => {
                    proof {
                        assert(g.ancestor(cur, 0) == Some(cur));
                        assert(g.ends_after(cur, 0));
                        assert forall|k: nat| #[trigger] g.ends_after(cur, k) implies k == 0 by {
                            lemma_ends_once(g, cur, 0, k);
                        }
                    }
                    return (chain, 0);
                },
            }
        }
    }

    /// Note the depths of a way up, from its last node down.
    fn note_depths(
        &self,
        out: &mut HashMap<u64, usize>,
        chain: &Vec<u64>,
        base: usize,
        start: u64,
        wanted: &HashSet<u64>,
    )
        requires
            self@.has(start),
            wanted@.contains(start),
            chain@.len() > 0,
            forall|j: int|
                0 <= j < chain@.len() ==> self@.ancestor(start, j as nat) == Some(
                    #[trigger] chain@[j],
                ),
            is_depth(self@, chain@.last(), base),
            forall|x: u64| #[trigger]
                old(out)@.dom().contains(x) ==> self@.above_wanted(wanted@, x),
            forall|x: u64| #[trigger]
                old(out)@.dom().contains(x) ==> is_depth(self@, x, old(out)@[x]),
        ensures
            final(out)@.dom().contains(start),
            old(out)@.dom().subset_of(final(out)@.dom()),
            forall|x: u64| #[trigger]
                final(out)@.dom().contains(x) ==> self@.above_wanted(wanted@, x),
            forall|x: u64| #[trigger]
                final(out)@.dom().contains(x) ==> is_depth(self@, x, final(out)@[x]),
    {
        let ghost g = self@;
        let mut d: usize = base;
        let mut k: usize = chain.len();
        while k > 0
            invariant
                g == self@,
                g.has(start),
                wanted@.contains(start),
                k <= chain@.len(),
                chain@.len() > 0,
                forall|j: int|
                    0 <= j < chain@.len() ==> g.ancestor(start, j as nat) == Some(
                        #[trigger] chain@[j],
                    ),
                k > 0 ==> is_depth(g, chain@[k - 1], d),
                k == 0 ==> out@.dom().contains(chain@[0]),
                old(out)@.dom().subset_of(out@.dom()),
                forall|x: u64| #[trigger] out@.dom().contains(x) ==> g.above_wanted(wanted@, x),
                forall|x: u64| #[trigger] out@.dom().contains(x) ==> is_depth(g, x, out@[x]),
            decreases k,
        {
            k = k - 1;
            let id: u64 = chain[k];
            out.insert(id, d);
            proof {
                assert(g.ancestor(start, k as nat) == Some(id));
                assert(g.above(id, start));
                assert(g.above_wanted(wanted@, id));
                if k > 0 {
                    let below = chain@[k - 1];
                    assert(g.ancestor(start, (k - 1) as nat) == Some(below));
                    assert(g.ancestor(below, 0) == Some(below));
                    assert(g.ancestor(below, 1) == Some(id));
                    assert forall|m: nat| #[trigger] g.ends_after(below, m) implies (if d
                        == usize::MAX {
                        d as int
                    } else {
                        d + 1
                    }) == (if m <= usize::MAX {
                        m as int
                    } else {
                        usize::MAX as int
                    }) by {
                        lemma_ends_up(g, below, 1, m);
                        assert(g.ends_after(id, (m - 1) as nat));
                    }
                }
            }
            if d < usize::MAX {
                d = d + 1;
            }
        }
        assert(g.ancestor(start, 0) == Some(chain@[0]));
        assert(chain@[0] == start);
    }
}

} // verus!
