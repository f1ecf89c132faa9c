//! What the list of a map holds: everything under the root, and siblings in the order in
//! which they are read.

use vstd::prelude::*;
use crate::convert::flat;
use crate::graph::model::GraphModel;
use crate::graph::order;
use crate::graph::tree;

verus! {

/// `v` stands in `w` from `at` on.
spec fn part_at(w: Seq<(nat, u64)>, v: Seq<(nat, u64)>, at: int) -> bool {
    0 <= at && at + v.len() <= w.len() && w.subrange(at, at + v.len()) == v
}

proof fn lemma_part(w: Seq<(nat, u64)>, a: Seq<(nat, u64)>, v: Seq<(nat, u64)>, b: Seq<(nat, u64)>)
    requires
        w == a + v + b,
    ensures
        part_at(w, v, a.len() as int),
{
    assert(w.subrange(a.len() as int, a.len() + v.len() as int) =~= v);
}

proof fn lemma_part_of_part(
    w: Seq<(nat, u64)>,
    v: Seq<(nat, u64)>,
    u: Seq<(nat, u64)>,
    at: int,
    within: int,
)
    requires
        part_at(w, v, at),
        part_at(v, u, within),
    ensures
        part_at(w, u, at + within),
{
    assert(w.subrange(at + within, at + within + u.len()) =~= u) by {
        assert forall|i: int| 0 <= i < u.len() implies w[at + within + i] == u[i] by {
            assert(v.subrange(within, within + u.len())[i] == v[within + i]);
            assert(w.subrange(at, at + v.len())[within + i] == w[at + within + i]);
        }
    }
}

/// Where each of some branches stands among them.
proof fn lemma_branch_among(g: GraphModel, v: Seq<u64>, d: nat, fuel: nat, i: int) -> (at: int)
    requires
        0 <= i < v.len(),
    ensures
        part_at(g.all_walked(v, d, fuel), g.walked(v[i], d, fuel), at),
        at == g.all_walked(v.take(i), d, fuel).len(),
    decreases v.len(),
{
    let less = v.drop_last();
    let a = g.all_walked(less, d, fuel);
    let b = g.walked(v.last(), d, fuel);
    let none = Seq::<(nat, u64)>::empty();
    if i == v.len() - 1 {
        assert(v.take(i) =~= less);
        assert(a + b =~= a + b + none);
        lemma_part(a + b, a, b, none);
        a.len() as int
    } else {
        let at = lemma_branch_among(g, less, d, fuel, i);
        assert(less.take(i) =~= v.take(i));
        assert(a + b =~= none + a + b);
        lemma_part(a + b, none, a, b);
        lemma_part_of_part(a + b, a, g.walked(v[i], d, fuel), 0, at);
        at
    }
}

proof fn lemma_more_is_longer(g: GraphModel, v: Seq<u64>, d: nat, fuel: nat, i: int)
    requires
        0 <= i < v.len(),
    ensures
        g.all_walked(v.take(i + 1), d, fuel).len() == g.all_walked(v.take(i), d, fuel).len()
            + g.walked(v[i], d, fuel).len(),
{
    assert(v.take(i + 1).drop_last() =~= v.take(i));
    assert(v.take(i + 1).last() == v[i]);
}

proof fn lemma_longer(g: GraphModel, v: Seq<u64>, d: nat, fuel: nat, i: int, j: int)
    requires
        0 <= i <= j <= v.len(),
    ensures
        g.all_walked(v.take(i), d, fuel).len() <= g.all_walked(v.take(j), d, fuel).len(),
    decreases j - i,
{
    if i < j {
        lemma_longer(g, v, d, fuel, i, j - 1);
        lemma_more_is_longer(g, v, d, fuel, j - 1);
    }
}

proof fn lemma_kids(g: GraphModel, p: u64)
    requires
        g.nodes.dom().finite(),
    ensures
        order::arranges(g.reading_children(p), g.children(p), g.reading()),
{
    assert(g.children(p).subset_of(g.nodes.dom()));
    vstd::set_lib::lemma_set_subset_finite(g.nodes.dom(), g.children(p));
    order::lemma_has_arrangement(g.children(p), g.reading());
}

/// The branch of a node stands in the branch of what is so many links above it.
proof fn lemma_branch_below(g: GraphModel, top: u64, d: nat, fuel: nat, x: u64, k: nat) -> (at: int)
    requires
        g.nodes.dom().finite(),
        g.has(x),
        g.ancestor(x, k) == Some(top),
        k < fuel,
    ensures
        part_at(g.walked(top, d, fuel), g.walked(x, d + k, (fuel - k) as nat), at),
    decreases k,
{
    let w = g.walked(top, d, fuel);
    let none = Seq::<(nat, u64)>::empty();
    if k == 0 {
        assert(w =~= none + w + none);
        lemma_part(w, none, w, none);
        0
    } else {
        let c = g.ancestor(x, (k - 1) as nat)->0;
        assert(g.parent_of(c) == Some(top));
        assert(g.children(top).contains(c));
        lemma_kids(g, top);
        let kids = g.reading_children(top);
        assert(kids.contains(c));
        let i = kids.index_of(c);
        let less = (fuel - 1) as nat;
        let rest = g.all_walked(kids, d + 1, less);
        let one = lemma_branch_among(g, kids, d + 1, less, i);
        let two = lemma_branch_below(g, c, d + 1, less, x, (k - 1) as nat);
        let head = seq![(d, top)];
        assert(w =~= head + rest + none);
        lemma_part(w, head, rest, none);
        lemma_part_of_part(w, rest, g.walked(c, d + 1, less), 1, one);
        lemma_part_of_part(
            w,
            g.walked(c, d + 1, less),
            g.walked(x, d + k, (fuel - k) as nat),
            1 + one,
            two,
        );
        1 + one + two
    }
}

/// Every node under the root is in the list, at its depth and with its label.
pub proof fn every_node_under_the_root_is_listed(g: GraphModel, id: u64, depth: nat) -> (i: int)
    requires
        g.nodes.dom().finite(),
        g.grounded(),
        g.has(g.root),
        g.has(id),
        g.ancestor(id, depth) == Some(g.root),
    ensures
        0 <= i < g.items().len(),
        g.reached()[i].1 == id,
        g.items()[i] == (depth, g.nodes[id].text),
{
    flat::lemma_depth(g, id, depth);
    let n = g.nodes.dom().len();
    let at = lemma_branch_below(g, g.root, 0, n, id, depth);
    let b = g.walked(id, depth, (n - depth) as nat);
    assert(b[0] == (depth, id));
    assert(g.reached().subrange(at, at + b.len())[0] == g.reached()[at]);
    at
}

/// Of two children of one node, the one that stands higher is listed first, with what is
/// under it. At one height it is the one further to the left, and at one place the one
/// that was made first.
pub proof fn siblings_are_listed_in_reading_order(
    g: GraphModel,
    p: u64,
    depth: nat,
    a: u64,
    b: u64,
) -> (r: (int, int))
    requires
        g.nodes.dom().finite(),
        g.grounded(),
        g.has(g.root),
        g.has(p),
        g.ancestor(p, depth) == Some(g.root),
        g.has(a),
        g.has(b),
        g.nodes[a].parent == Some(p),
        g.nodes[b].parent == Some(p),
        ({
            let (ya, yb) = (g.nodes[a].y.rank(), g.nodes[b].y.rank());
            let (xa, xb) = (g.nodes[a].x.rank(), g.nodes[b].x.rank());
            ya < yb || ya == yb && (xa < xb || xa == xb && a < b)
        }),
    ensures
        0 <= r.0 < r.1 < g.reached().len(),
        g.reached()[r.0] == (depth + 1, a),
        g.reached()[r.1] == (depth + 1, b),
{
    let n = g.nodes.dom().len();
    assert(g.ancestor(a, 1) == Some(p)) by {
        reveal_with_fuel(GraphModel::ancestor, 2);
    }
    tree::lemma_ancestor_sum(g, a, 1, depth);
    flat::lemma_depth(g, a, depth + 1);
    let fuel = (n - depth) as nat;
    let less = (fuel - 1) as nat;
    let at = lemma_branch_below(g, g.root, 0, n, p, depth);
    lemma_kids(g, p);
    let kids = g.reading_children(p);
    assert(g.children(p).contains(a) && g.children(p).contains(b));
    assert(kids.contains(a) && kids.contains(b));
    let i = kids.index_of(a);
    let j = kids.index_of(b);
    assert(kids[i] == a && kids[j] == b);
    if j < i {
        assert(order::before(g.reading()(kids[j]), g.reading()(kids[i])));
    }
    assert(i < j);
    let whole = g.walked(p, depth, fuel);
    let rest = g.all_walked(kids, depth + 1, less);
    let head = seq![(depth, p)];
    let none = Seq::<(nat, u64)>::empty();
    assert(whole =~= head + rest + none);
    lemma_part(whole, head, rest, none);
    let one = lemma_branch_among(g, kids, depth + 1, less, i);
    let two = lemma_branch_among(g, kids, depth + 1, less, j);
    lemma_more_is_longer(g, kids, depth + 1, less, i);
    lemma_longer(g, kids, depth + 1, less, i + 1, j);
    let wa = g.walked(a, depth + 1, less);
    let wb = g.walked(b, depth + 1, less);
    assert(wa.len() > 0 && wb.len() > 0);
    lemma_part_of_part(whole, rest, wa, 1, one);
    lemma_part_of_part(whole, rest, wb, 1, two);
    lemma_part_of_part(g.reached(), whole, wa, at, 1 + one);
    lemma_part_of_part(g.reached(), whole, wb, at, 1 + two);
    let (s, t) = (at + 1 + one, at + 1 + two);
    assert(g.reached().subrange(s, s + wa.len())[0] == g.reached()[s]);
    assert(g.reached().subrange(t, t + wb.len())[0] == g.reached()[t]);
    (s, t)
}

} // verus!
