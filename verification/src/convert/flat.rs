//! A map as a list: the nodes under the root, each with its depth, a parent
//! before its children and the children in reading order.

use vstd::prelude::*;
use crate::graph::model::GraphModel;
use crate::graph::order;
use crate::graph::outline;
use crate::graph::sanitize;
use crate::graph::tidy;
use crate::graph::tree;
use crate::graph::Graph;

verus! {

broadcast use {vstd::std_specs::hash::group_hash_axioms, vstd::std_specs::btree::group_btree_axioms};

/// A depth and a label.
pub type Item = (nat, Seq<char>);

impl GraphModel {
    /// `id`, `depth` links down, and what is under it, at most `fuel` levels.
    pub open spec fn walked(self, id: u64, depth: nat, fuel: nat) -> Seq<(nat, u64)>
        decreases fuel, 0nat,
    {
        if fuel == 0 {
            seq![]
        } else {
            seq![(depth, id)] + self.all_walked(
                self.reading_children(id),
                depth + 1,
                (fuel - 1) as nat,
            )
        }
    }

    pub open spec fn all_walked(self, v: Seq<u64>, depth: nat, fuel: nat) -> Seq<(nat, u64)>
        decreases fuel, v.len() + 1,
    {
        if v.len() == 0 {
            seq![]
        } else {
            self.all_walked(v.drop_last(), depth, fuel) + self.walked(v.last(), depth, fuel)
        }
    }

    /// The nodes under the root. No branch has more levels than there are nodes.
    pub open spec fn reached(self) -> Seq<(nat, u64)> {
        self.walked(self.root, 0, self.nodes.dom().len())
    }

    /// The labels of some nodes.
    pub open spec fn labelled(self, w: Seq<(nat, u64)>) -> Seq<Item> {
        w.map_values(|p: (nat, u64)| (p.0, self.nodes[p.1].text))
    }

    /// The labels under the root.
    pub open spec fn items(self) -> Seq<Item> {
        self.labelled(self.reached())
    }
}

/// A list as it is held in memory.
pub open spec fn listed(v: Seq<(usize, String)>) -> Seq<Item> {
    v.map_values(|p: (usize, String)| (p.0 as nat, p.1@))
}

/// Under the root a node has fewer ancestors than there are nodes.
pub proof fn lemma_depth(g: GraphModel, id: u64, depth: nat)
    requires
        g.nodes.dom().finite(),
        g.grounded(),
        g.has(g.root),
        g.has(id),
        g.ancestor(id, depth) == Some(g.root),
    ensures
        depth < g.nodes.dom().len(),
{
    if depth >= g.nodes.dom().len() {
        assert forall|k: nat| k < depth + 1 implies (#[trigger] g.ancestor(id, k) matches Some(a)
            && g.has(a)) by {
            tree::lemma_ancestor_sum(g, id, k, (depth - k) as nat);
            if k < depth {
                let a = g.ancestor(id, k)->0;
                tree::lemma_ancestor_shift(g, a, (depth - k - 1) as nat);
            }
        }
        let (i, j) = sanitize::lemma_repeats(g, id, depth + 1);
        sanitize::lemma_repeat_is_loop(g, id, i, j);
        let a = g.ancestor(id, i)->0;
        tree::lemma_ancestor_sum(g, id, i, (depth - i) as nat);
        tidy::lemma_under_root(g, a, (depth - i) as nat);
    }
}

impl Graph {
    fn walk(&self, id: u64, depth: usize, out: &mut Vec<(usize, String)>, fuel: Ghost<nat>)
        requires
            self@.grounded(),
            self@.has(self@.root),
            self@.has(id),
            self@.ancestor(id, depth as nat) == Some(self@.root),
            fuel@ + depth == self@.nodes.dom().len(),
        ensures
            listed(final(out)@) == listed(old(out)@) + self@.labelled(
                self@.walked(id, depth as nat, fuel@),
            ),
        decreases fuel@,
    {
        let ghost g = self@;
        let n: usize = self.nodes.len();
        proof {
            assert(g.nodes.dom() =~= self.nodes@.dom());
            lemma_depth(g, id, depth as nat);
        }
        let ghost start = listed(out@);
        let label = match self.nodes.get(&id) {
            Some(node) => node.text.clone(),
            None => String::new(),
        };
        out.push((depth, label));
        let kids = self.ordered_children(id);
        let ghost less = (fuel@ - 1) as nat;
        let ghost head = seq![(depth as nat, id)];
        proof {
            assert(listed(out@) =~= start + g.labelled(head));
            assert(g.all_walked(kids@.take(0), (depth + 1) as nat, less) =~= seq![]);
            assert(g.labelled(head + seq![]) =~= g.labelled(head));
            assert(head + g.all_walked(kids@.take(0), (depth + 1) as nat, less) =~= head);
        }
        let mut i: usize = 0;
        while i < kids.len()
            invariant
                g == self@,
                n == g.nodes.dom().len(),
                g.nodes.dom().finite(),
                g.grounded(),
                g.has(g.root),
                g.ancestor(id, depth as nat) == Some(g.root),
                depth < n,
                less + depth + 1 == n,
                less < fuel@,
                i <= kids@.len(),
                order::arranges(kids@, g.children(id), g.reading()),
                head == seq![(depth as nat, id)],
                listed(out@) == start + g.labelled(
                    head + g.all_walked(kids@.take(i as int), (depth + 1) as nat, less),
                ),
            decreases kids@.len() - i,
        {
            let k: u64 = kids[i];
            let ghost mid = listed(out@);
            proof {
                assert(kids@.contains(k));
                assert(g.children(id).contains(k));
                tree::lemma_ancestor_shift(g, k, depth as nat);
                lemma_depth(g, k, (depth + 1) as nat);
            }
            self.walk(k, depth + 1, out, Ghost(less));
            proof {
                let t = kids@.take(i as int);
                let u = kids@.take(i + 1);
                assert(u.drop_last() =~= t);
                let a = g.all_walked(t, (depth + 1) as nat, less);
                let b = g.walked(k, (depth + 1) as nat, less);
                assert(g.labelled(head + (a + b)) =~= g.labelled(head + a) + g.labelled(b));
                assert(listed(out@) =~= start + g.labelled(head + (a + b)));
            }
            i = i + 1;
        }
        proof {
            assert(kids@.take(i as int) =~= kids@);
        }
    }

    /// The labels under the root, each with its depth.
    pub fn items(&self) -> (r: Vec<(usize, String)>)
        requires
            self@.has(self@.root),
            self@.grounded(),
        ensures
            listed(r@) == self@.items(),
    {
        let mut out: Vec<(usize, String)> = Vec::new();
        proof {
            assert(self@.ancestor(self@.root, 0) == Some(self@.root));
            assert(listed(out@) =~= seq![]);
        }
        self.walk(self.root_id, 0, &mut out, Ghost(self@.nodes.dom().len()));
        assert(listed(out@) =~= self@.items());
        out
    }
}

// ---------------------------------------------------------------------------
// Shape
// ---------------------------------------------------------------------------

/// Entry `i` of a list hangs under entry `j`: the last before it that is less deep.
pub open spec fn hangs_at(g: GraphModel, w: Seq<(nat, u64)>, i: int, j: int) -> bool {
    &&& 0 <= j < i
    &&& w[j].0 + 1 == w[i].0
    &&& g.parent_of(w[i].1) == Some(w[j].1)
    &&& forall|k: int| j < k < i ==> (#[trigger] w[k]).0 >= w[i].0
}

/// A list of branches of `p` that are `d` links down.
spec fn forest(g: GraphModel, w: Seq<(nat, u64)>, p: u64, d: nat) -> bool {
    forall|i: int|
        0 <= i < w.len() ==> {
            let x = #[trigger] w[i];
            &&& x.0 >= d
            &&& x.0 == d ==> g.parent_of(x.1) == Some(p)
            &&& x.0 > d ==> exists|j: int| #[trigger] hangs_at(g, w, i, j)
        }
}

/// A list that begins with a node `d` links down, with what is under it.
pub open spec fn branch(g: GraphModel, w: Seq<(nat, u64)>, id: u64, d: nat) -> bool {
    &&& w.len() > 0
    &&& w[0] == (d, id)
    &&& forall|i: int|
        0 < i < w.len() ==> (#[trigger] w[i]).0 > d && exists|j: int| #[trigger]
            hangs_at(g, w, i, j)
}

proof fn lemma_hangs_shift(
    g: GraphModel,
    a: Seq<(nat, u64)>,
    b: Seq<(nat, u64)>,
    i: int,
    j: int,
)
    requires
        hangs_at(g, b, i, j),
        i < b.len(),
    ensures
        hangs_at(g, a + b, a.len() + i, a.len() + j),
{
    let w = a + b;
    assert forall|k: int| a.len() + j < k < a.len() + i implies (#[trigger] w[k]).0 >= w[a.len()
        + i].0 by {
        assert(w[k] == b[k - a.len()]);
    }
}

proof fn lemma_hangs_prefix(
    g: GraphModel,
    a: Seq<(nat, u64)>,
    b: Seq<(nat, u64)>,
    i: int,
    j: int,
)
    requires
        hangs_at(g, a, i, j),
        i < a.len(),
    ensures
        hangs_at(g, a + b, i, j),
{
    let w = a + b;
    assert forall|k: int| j < k < i implies (#[trigger] w[k]).0 >= w[i].0 by {
        assert(w[k] == a[k]);
    }
}

pub proof fn lemma_branch(g: GraphModel, id: u64, d: nat, fuel: nat)
    requires
        g.nodes.dom().finite(),
        fuel > 0,
    ensures
        branch(g, g.walked(id, d, fuel), id, d),
    decreases fuel, 0nat,
{
    let kids = g.reading_children(id);
    let less = (fuel - 1) as nat;
    let rest = g.all_walked(kids, d + 1, less);
    let head = seq![(d, id)];
    let w = head + rest;
    assert(g.children(id).finite());
    order::lemma_has_arrangement(g.children(id), g.reading());
    assert forall|i: int| 0 <= i < kids.len() implies g.parent_of(#[trigger] kids[i]) == Some(id) by {
        assert(kids.contains(kids[i]));
    }
    lemma_forest(g, kids, id, d + 1, less);
    assert forall|i: int| 0 < i < w.len() implies (#[trigger] w[i]).0 > d && exists|j: int| #[trigger]
        hangs_at(g, w, i, j) by {
        assert(w[i] == rest[i - 1]);
        if rest[i - 1].0 > d + 1 {
            let j = choose|j: int| #[trigger] hangs_at(g, rest, i - 1, j);
            lemma_hangs_shift(g, head, rest, i - 1, j);
        } else {
            assert forall|k: int| 0 < k < i implies (#[trigger] w[k]).0 >= w[i].0 by {
                assert(w[k] == rest[k - 1]);
            }
            assert(hangs_at(g, w, i, 0));
        }
    }
}

proof fn lemma_forest(g: GraphModel, v: Seq<u64>, p: u64, d: nat, fuel: nat)
    requires
        g.nodes.dom().finite(),
        forall|i: int| 0 <= i < v.len() ==> g.parent_of(#[trigger] v[i]) == Some(p),
    ensures
        forest(g, g.all_walked(v, d, fuel), p, d),
    decreases fuel, v.len() + 1,
{
    if v.len() > 0 && fuel > 0 {
        let rest = v.drop_last();
        assert forall|i: int| 0 <= i < rest.len() implies g.parent_of(#[trigger] rest[i]) == Some(
            p,
        ) by {
            assert(rest[i] == v[i]);
        }
        lemma_forest(g, rest, p, d, fuel);
        lemma_branch(g, v.last(), d, fuel);
        let a = g.all_walked(rest, d, fuel);
        let b = g.walked(v.last(), d, fuel);
        let w = a + b;
        assert(v[v.len() - 1] == v.last());
        assert forall|i: int| 0 <= i < w.len() implies {
            let x = #[trigger] w[i];
            &&& x.0 >= d
            &&& x.0 == d ==> g.parent_of(x.1) == Some(p)
            &&& x.0 > d ==> exists|j: int| #[trigger] hangs_at(g, w, i, j)
        } by {
            if i < a.len() {
                assert(w[i] == a[i]);
                if a[i].0 > d {
                    let j = choose|j: int| #[trigger] hangs_at(g, a, i, j);
                    lemma_hangs_prefix(g, a, b, i, j);
                }
            } else {
                let m = i - a.len();
                assert(w[i] == b[m]);
                if m > 0 {
                    let j = choose|j: int| #[trigger] hangs_at(g, b, m, j);
                    lemma_hangs_shift(g, a, b, m, j);
                }
            }
        }
    } else if v.len() > 0 {
        lemma_no_fuel(g, v, d);
    }
}

pub proof fn lemma_no_fuel(g: GraphModel, v: Seq<u64>, d: nat)
    ensures
        g.all_walked(v, d, 0) =~= seq![],
    decreases v.len(),
{
    if v.len() > 0 {
        lemma_no_fuel(g, v.drop_last(), d);
        assert(g.walked(v.last(), d, 0) =~= seq![]);
    }
}

/// In the list of a map, the root comes first, and every other node is one deeper
/// than its parent, which is the last node before it that is less deep.
pub proof fn list_keeps_the_tree(g: GraphModel, i: int)
    requires
        g.nodes.dom().finite(),
        g.has(g.root),
        0 <= i < g.reached().len(),
    ensures
        g.reached()[0] == (0nat, g.root),
        i > 0 ==> {
            let j = outline::outer_of(outline::levels_of(g.items()), i, i as nat);
            &&& j is Some
            &&& 0 <= j->0 < i
            &&& g.parent_of(g.reached()[i].1) == Some(g.reached()[j->0].1)
            &&& g.items()[i].0 == g.items()[j->0].0 + 1
        },
        i > 0 ==> g.items()[i].0 >= 1,
{
    let n = g.nodes.dom().len();
    assert(n > 0) by {
        assert(g.nodes.dom().contains(g.root));
    }
    lemma_branch(g, g.root, 0, n);
    let w = g.reached();
    let items = g.items();
    if i > 0 {
        let j = choose|j: int| #[trigger] hangs_at(g, w, i, j);
        let levels = outline::levels_of(items);
        assert forall|k: int| j < k < i implies #[trigger] levels[k] >= levels[i] by {
            assert(w[k].0 >= w[i].0);
        }
        outline::lemma_outer_at(levels, i, i as nat, j);
    }
}

} // verus!
