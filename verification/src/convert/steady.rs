//! Once a map has been imported, exporting and importing it again changes nothing.

use vstd::prelude::*;
use crate::convert::flat;
use crate::convert::flat::Item;
use crate::convert::grow;
use crate::convert::laws;
use crate::convert::laws::landed;
use crate::convert::md;
use crate::convert::opml;
use crate::convert::reading;
use crate::graph::balance;
use crate::graph::deal;
use crate::graph::model::GraphModel;
use crate::graph::outline;
use crate::graph::tree;
use crate::graph::tree::MAX_TIDY_DEPTH;
use crate::graph::Mode;
use crate::ids;
use crate::text;

verus! {

// ---------------------------------------------------------------------------
// A list and the map of it
// ---------------------------------------------------------------------------

/// What entry `i` of the list of `a` hangs under.
spec fn outer(a: GraphModel, i: int) -> int {
    outline::outer_of(outline::levels_of(a.items()), i, i as nat)->0
}

/// `b` is the map of the list of `a`.
spec fn listed_again(a: GraphModel, b: GraphModel) -> bool {
    let w = a.reached();
    &&& b.root == 1
    &&& 0 < w.len() <= grow::MOST_ITEMS
    &&& forall|i: int|
        0 <= i < w.len() ==> b.has(#[trigger] landed(i)) && b.nodes[landed(i)].text
            == a.nodes[w[i].1].text
    &&& b.parent_of(1) is None
    &&& forall|i: int|
        0 < i < w.len() ==> b.parent_of(#[trigger] landed(i)) == Some(landed(outer(a, i)))
    &&& forall|x: u64| #[trigger]
        b.has(x) ==> exists|i: int| 0 <= i < w.len() && x == #[trigger] landed(i)
}

/// Some entries of a list stand in another from `p` on.
spec fn sits(w: Seq<(nat, u64)>, p: int, part: Seq<(nat, u64)>) -> bool {
    0 <= p && p + part.len() <= w.len() && w.subrange(p, p + part.len()) == part
}

/// Where the branches of `v` begin in a list that holds them from `p` on.
spec fn heads(a: GraphModel, v: Seq<u64>, d: nat, fuel: nat, p: int) -> Seq<int> {
    Seq::new(v.len(), |j: int| p + a.all_walked(v.take(j), d, fuel).len())
}

/// The nodes that some entries become.
spec fn landings(hs: Seq<int>) -> Seq<u64> {
    hs.map_values(|i: int| landed(i))
}

/// Some entries of a list, by the nodes that they become.
spec fn relabelled(w: Seq<(nat, u64)>, p: int, e: int) -> Seq<(nat, u64)> {
    Seq::new((e - p) as nat, |k: int| (w[p + k].0, landed(p + k)))
}

proof fn lemma_landed_rises(i: int, j: int)
    requires
        0 <= i < j <= grow::MOST_ITEMS,
    ensures
        landed(i) < landed(j),
{
}

/// One of several branches in the list of all of them.
proof fn lemma_split(a: GraphModel, v: Seq<u64>, d: nat, fuel: nat, j: int)
    requires
        0 <= j < v.len(),
    ensures
        ({
            let all = a.all_walked(v, d, fuel);
            let from = a.all_walked(v.take(j), d, fuel).len() as int;
            let part = a.walked(v[j], d, fuel);
            let to = a.all_walked(v.take(j + 1), d, fuel).len() as int;
            &&& to == from + part.len()
            &&& to <= all.len()
            &&& all.subrange(from, to) == part
        }),
    decreases v.len(),
{
    let all = a.all_walked(v, d, fuel);
    let part = a.walked(v[j], d, fuel);
    assert(v.take(j + 1).drop_last() =~= v.take(j));
    let from = a.all_walked(v.take(j), d, fuel);
    let u = v.drop_last();
    if j == v.len() - 1 {
        assert(v.take(j) =~= u);
        assert(v.take(j + 1) =~= v);
        assert(all.subrange(from.len() as int, all.len() as int) =~= part);
    } else {
        lemma_split(a, u, d, fuel, j);
        assert(u.take(j) =~= v.take(j));
        assert(u.take(j + 1) =~= v.take(j + 1));
        let most = a.all_walked(u, d, fuel);
        let to = from.len() as int + part.len();
        assert(all.subrange(from.len() as int, to) =~= most.subrange(from.len() as int, to));
    }
}

/// An entry that is no deeper than the branches is where one of them begins.
proof fn lemma_cover(a: GraphModel, v: Seq<u64>, d: nat, fuel: nat, m: int) -> (j: int)
    requires
        a.nodes.dom().finite(),
        fuel > 0,
        0 <= m < a.all_walked(v, d, fuel).len(),
        a.all_walked(v, d, fuel)[m].0 == d,
    ensures
        0 <= j < v.len(),
        m == a.all_walked(v.take(j), d, fuel).len(),
    decreases v.len(),
{
    let u = v.drop_last();
    let most = a.all_walked(u, d, fuel);
    let part = a.walked(v.last(), d, fuel);
    if m < most.len() {
        let j = lemma_cover(a, u, d, fuel, m);
        assert(u.take(j) =~= v.take(j));
        j
    } else {
        flat::lemma_branch(a, v.last(), d, fuel);
        assert(a.all_walked(v, d, fuel)[m] == part[m - most.len()]);
        assert(v.take(v.len() - 1) =~= u);
        v.len() - 1
    }
}

/// Every entry is at least as deep as the branches.
proof fn lemma_deep(a: GraphModel, v: Seq<u64>, d: nat, fuel: nat, m: int)
    requires
        a.nodes.dom().finite(),
        fuel > 0,
        0 <= m < a.all_walked(v, d, fuel).len(),
    ensures
        a.all_walked(v, d, fuel)[m].0 >= d,
    decreases v.len(),
{
    let u = v.drop_last();
    let most = a.all_walked(u, d, fuel);
    let part = a.walked(v.last(), d, fuel);
    if m < most.len() {
        lemma_deep(a, u, d, fuel, m);
    } else {
        flat::lemma_branch(a, v.last(), d, fuel);
        assert(a.all_walked(v, d, fuel)[m] == part[m - most.len()]);
    }
}

/// The branch of `id`, which is entry `p` of the list, up to where it ends.
spec fn block(a: GraphModel, p: int, id: u64, d: nat, fuel: nat) -> bool {
    let w = a.reached();
    let e = p + a.walked(id, d, fuel).len();
    &&& fuel > 0
    &&& sits(w, p, a.walked(id, d, fuel))
    &&& e == w.len() || w[e].0 <= d
    &&& fuel + d == a.nodes.dom().len()
    &&& a.has(id)
    &&& a.ancestor(id, d) == Some(a.root)
}

/// A map whose list is made of it.
spec fn sound(a: GraphModel) -> bool {
    &&& a.nodes.dom().finite()
    &&& a.grounded()
    &&& a.has(a.root)
}

/// A branch that has branches of its own has a level for them.
proof fn lemma_enough(a: GraphModel, p: int, id: u64, d: nat, fuel: nat, c: u64)
    requires
        sound(a),
        block(a, p, id, d, fuel),
        a.children(id).contains(c),
    ensures
        fuel >= 2,
        a.ancestor(c, d + 1) == Some(a.root),
{
    tree::lemma_ancestor_shift(a, c, d);
    flat::lemma_depth(a, c, d + 1);
}

/// What hangs under the node of an entry are the nodes of the branches below it.
proof fn lemma_kids(a: GraphModel, b: GraphModel, p: int, id: u64, d: nat, fuel: nat)
    requires
        sound(a),
        listed_again(a, b),
        block(a, p, id, d, fuel),
    ensures
        ids::lists(
            landings(heads(a, a.reading_children(id), d + 1, (fuel - 1) as nat, p + 1)),
            b.children(landed(p)),
        ),
        forall|j: int|
            0 <= j < a.reading_children(id).len() ==> a.children(id).contains(
                #[trigger] a.reading_children(id)[j],
            ),
{
    let w = a.reached();
    let levels = outline::levels_of(a.items());
    let v = a.reading_children(id);
    let less = (fuel - 1) as nat;
    let hs = heads(a, v, d + 1, less, p + 1);
    let vs = landings(hs);
    let part = a.walked(id, d, fuel);
    let rest = a.all_walked(v, d + 1, less);
    let e = p + part.len();
    assert(part == seq![(d, id)] + rest);
    assert(a.children(id).finite());
    crate::graph::order::lemma_has_arrangement(a.children(id), a.reading());
    assert forall|j: int| 0 <= j < v.len() implies a.children(id).contains(#[trigger] v[j]) by {
        assert(v.contains(v[j]));
    }
    if v.len() > 0 {
        lemma_enough(a, p, id, d, fuel, v[0]);
    }
    assert(part[0] == (d, id));
    assert(w.subrange(p, e)[0] == w[p]);
    assert forall|k: int| p < k < e implies #[trigger] w[k] == rest[k - p - 1] by {
        assert(w.subrange(p, e)[k - p] == w[k]);
        assert(part[k - p] == rest[k - p - 1]);
    }
    assert forall|k: int| 0 <= k < w.len() implies #[trigger] levels[k] == w[k].0 by {}
    assert forall|j: int| 0 <= j < hs.len() implies p < #[trigger] hs[j] < e && w[hs[j]].0 == d + 1 by {
        lemma_split(a, v, d + 1, less, j);
        flat::lemma_branch(a, v[j], d + 1, less);
        let m = hs[j] - p - 1;
        let one = a.walked(v[j], d + 1, less);
        assert(rest.subrange(m, m + one.len())[0] == rest[m]);
        assert(w[hs[j]] == rest[m]);
    }
    assert forall|i: int, j: int| 0 <= i < j < hs.len() implies #[trigger] hs[i] < #[trigger] hs[j] by {
        lemma_heads_rise(a, v, d + 1, less, p + 1, i, j);
    }
    assert forall|i: int, j: int| 0 <= i < j < vs.len() implies #[trigger] vs[i] < #[trigger] vs[j] by {
        assert(hs[i] < hs[j]);
        lemma_landed_rises(hs[i], hs[j]);
    }
    assert forall|x: u64| #[trigger] vs.contains(x) <==> b.children(landed(p)).contains(x) by {
        if vs.contains(x) {
            let j = choose|j: int| 0 <= j < vs.len() && vs[j] == x;
            let h = hs[j];
            assert(p < h < e && w[h].0 == d + 1);
            assert forall|k: int| p < k < h implies #[trigger] levels[k] >= levels[h] by {
                lemma_deep(a, v, d + 1, less, k - p - 1);
                assert(w[k] == rest[k - p - 1]);
            }
            outline::lemma_outer_at(levels, h, h as nat, p);
            assert(outer(a, h) == p);
            assert(b.has(landed(h)));
            assert(b.parent_of(landed(h)) == Some(landed(p)));
        }
        if b.children(landed(p)).contains(x) {
            assert(b.has(x));
            let i = choose|i: int| 0 <= i < w.len() && x == #[trigger] landed(i);
            assert(b.parent_of(x) == Some(landed(p)));
            assert(i > 0) by {
                if i == 0 {
                    assert(landed(0) == 1);
                }
            }
            flat::list_keeps_the_tree(a, i);
            let o = outer(a, i);
            assert(b.parent_of(landed(i)) == Some(landed(o)));
            assert(o == p) by {
                if o < p {
                    lemma_landed_rises(o, p);
                } else if p < o {
                    lemma_landed_rises(p, o);
                }
            }
            lemma_between(levels, i, i as nat);
            assert(w[i].0 == d + 1);
            assert(i < e) by {
                if e <= i {
                    assert(levels[e] == w[e].0);
                    if e < i {
                        assert(levels[e] >= levels[i]);
                    }
                }
            }
            assert(w[i] == rest[i - p - 1]);
            assert(less > 0) by {
                if less == 0 {
                    flat::lemma_no_fuel(a, v, d + 1);
                }
            }
            let j = lemma_cover(a, v, d + 1, less, i - p - 1);
            assert(hs[j] == i);
            assert(vs[j] == x);
        }
    }
}

/// Between an entry and what it hangs under, nothing is less deep.
proof fn lemma_between(levels: Seq<nat>, i: int, j: nat)
    ensures
        outline::outer_of(levels, i, j) matches Some(t) ==> forall|k: int|
            t < k < j ==> #[trigger] levels[k] >= levels[i],
    decreases j,
{
    if j > 0 {
        lemma_between(levels, i, (j - 1) as nat);
    }
}

proof fn lemma_heads_rise(
    a: GraphModel,
    v: Seq<u64>,
    d: nat,
    fuel: nat,
    p: int,
    i: int,
    j: int,
)
    requires
        a.nodes.dom().finite(),
        fuel > 0,
        0 <= i < j < v.len(),
    ensures
        heads(a, v, d, fuel, p)[i] < heads(a, v, d, fuel, p)[j],
    decreases j,
{
    lemma_split(a, v, d, fuel, j - 1);
    flat::lemma_branch(a, v[j - 1], d, fuel);
    if i < j - 1 {
        lemma_heads_rise(a, v, d, fuel, p, i, j - 1);
    }
}

/// A branch of a branch.
proof fn lemma_block_below(a: GraphModel, p: int, id: u64, d: nat, fuel: nat, j: int)
    requires
        sound(a),
        block(a, p, id, d, fuel),
        0 <= j < a.reading_children(id).len(),
        a.children(id).contains(a.reading_children(id)[j]),
    ensures
        block(
            a,
            heads(a, a.reading_children(id), d + 1, (fuel - 1) as nat, p + 1)[j],
            a.reading_children(id)[j],
            d + 1,
            (fuel - 1) as nat,
        ),
{
    let w = a.reached();
    let v = a.reading_children(id);
    let less = (fuel - 1) as nat;
    let c = v[j];
    let hs = heads(a, v, d + 1, less, p + 1);
    let part = a.walked(id, d, fuel);
    let rest = a.all_walked(v, d + 1, less);
    let e = p + part.len();
    lemma_enough(a, p, id, d, fuel, c);
    lemma_split(a, v, d + 1, less, j);
    let m = hs[j] - p - 1;
    let one = a.walked(c, d + 1, less);
    assert(part == seq![(d, id)] + rest);
    assert forall|k: int| p < k < e implies #[trigger] w[k] == rest[k - p - 1] by {
        assert(w.subrange(p, e)[k - p] == w[k]);
        assert(part[k - p] == rest[k - p - 1]);
    }
    assert(w.subrange(hs[j], hs[j] + one.len()) =~= one) by {
        assert forall|k: int| 0 <= k < one.len() implies w.subrange(hs[j], hs[j] + one.len())[k]
            == one[k] by {
            assert(w[hs[j] + k] == rest[m + k]);
            assert(rest.subrange(m, m + one.len())[k] == rest[m + k]);
        }
    }
    let f = hs[j] + one.len();
    if j + 1 < v.len() {
        assert(hs[j + 1] == f);
        lemma_split(a, v, d + 1, less, j + 1);
        flat::lemma_branch(a, v[j + 1], d + 1, less);
        let two = a.walked(v[j + 1], d + 1, less);
        let n = hs[j + 1] - p - 1;
        assert(rest.subrange(n, n + two.len())[0] == rest[n]);
        assert(w[f] == rest[n]);
    } else {
        assert(v.take(j + 1) =~= v);
        assert(f == e);
    }
}

// ---------------------------------------------------------------------------
// The same walk again
// ---------------------------------------------------------------------------

/// Every node has its branches in ascending order.
spec fn read_by_id(b: GraphModel) -> bool {
    forall|x: u64| #[trigger] b.has(x) ==> b.reading_children(x) == ids::listed(b.children(x))
}

proof fn lemma_walk_again(
    a: GraphModel,
    b: GraphModel,
    p: int,
    id: u64,
    d: nat,
    fuel: nat,
    fb: nat,
)
    requires
        sound(a),
        sound(b),
        listed_again(a, b),
        read_by_id(b),
        block(a, p, id, d, fuel),
        b.ancestor(landed(p), d) == Some(b.root),
        fb + d == b.nodes.dom().len(),
    ensures
        b.walked(landed(p), d, fb) == relabelled(
            a.reached(),
            p,
            p + a.walked(id, d, fuel).len(),
        ),
    decreases fuel, 1nat, 0int,
{
    let w = a.reached();
    let v = a.reading_children(id);
    let less = (fuel - 1) as nat;
    let hs = heads(a, v, d + 1, less, p + 1);
    let part = a.walked(id, d, fuel);
    let rest = a.all_walked(v, d + 1, less);
    assert(b.has(landed(p)));
    flat::lemma_depth(b, landed(p), d);
    assert(fb > 0);
    lemma_kids(a, b, p, id, d, fuel);
    ids::lemma_listed(landings(hs), b.children(landed(p)));
    assert(b.reading_children(landed(p)) == landings(hs));
    lemma_forest_again(a, b, p, id, d, fuel, fb, v.len() as int);
    assert(v.take(v.len() as int) =~= v);
    assert(landings(hs).take(v.len() as int) =~= landings(hs));
    assert(part == seq![(d, id)] + rest);
    assert(w.subrange(p, p + part.len())[0] == w[p]);
    assert(b.walked(landed(p), d, fb) =~= relabelled(w, p, p + part.len()));
}

proof fn lemma_forest_again(
    a: GraphModel,
    b: GraphModel,
    p: int,
    id: u64,
    d: nat,
    fuel: nat,
    fb: nat,
    j: int,
)
    requires
        sound(a),
        sound(b),
        listed_again(a, b),
        read_by_id(b),
        block(a, p, id, d, fuel),
        b.ancestor(landed(p), d) == Some(b.root),
        fb + d == b.nodes.dom().len(),
        fb > 0,
        0 <= j <= a.reading_children(id).len(),
        ids::lists(
            landings(heads(a, a.reading_children(id), d + 1, (fuel - 1) as nat, p + 1)),
            b.children(landed(p)),
        ),
        forall|k: int|
            0 <= k < a.reading_children(id).len() ==> a.children(id).contains(
                #[trigger] a.reading_children(id)[k],
            ),
    ensures
        ({
            let v = a.reading_children(id);
            let less = (fuel - 1) as nat;
            b.all_walked(
                landings(heads(a, v, d + 1, less, p + 1)).take(j),
                d + 1,
                (fb - 1) as nat,
            ) == relabelled(
                a.reached(),
                p + 1,
                p + 1 + a.all_walked(v.take(j), d + 1, less).len(),
            )
        }),
    decreases fuel, 0nat, j,
{
    let w = a.reached();
    let v = a.reading_children(id);
    let less = (fuel - 1) as nat;
    let hs = heads(a, v, d + 1, less, p + 1);
    let vs = landings(hs);
    if j > 0 {
        lemma_forest_again(a, b, p, id, d, fuel, fb, j - 1);
        lemma_block_below(a, p, id, d, fuel, j - 1);
        let c = v[j - 1];
        let x = landed(hs[j - 1]);
        assert(vs[j - 1] == x);
        assert(vs.contains(x));
        assert(b.children(landed(p)).contains(x));
        tree::lemma_ancestor_shift(b, x, d);
        lemma_enough(a, p, id, d, fuel, c);
        lemma_walk_again(a, b, hs[j - 1], c, d + 1, less, (fb - 1) as nat);
        lemma_split(a, v, d + 1, less, j - 1);
        assert(vs.take(j).drop_last() =~= vs.take(j - 1));
        assert(vs.take(j).last() == x);
        assert(b.all_walked(vs.take(j), d + 1, (fb - 1) as nat) =~= relabelled(
            w,
            p + 1,
            p + 1 + a.all_walked(v.take(j), d + 1, less).len(),
        ));
    } else {
        assert(b.all_walked(vs.take(0), d + 1, (fb - 1) as nat) =~= seq![]);
        assert(a.all_walked(v.take(0), d + 1, less) =~= seq![]);
    }
}

// ---------------------------------------------------------------------------
// The same rows again
// ---------------------------------------------------------------------------

/// `g` has the tree of `a`, with nothing folded.
spec fn tree_of(g: GraphModel, a: GraphModel) -> bool {
    &&& g.root == a.root
    &&& forall|x: u64| #[trigger] g.children(x) == a.children(x)
    &&& forall|x: u64| #[trigger] g.has(x) == a.has(x)
    &&& forall|x: u64| !#[trigger] g.collapsed(x)
}

proof fn lemma_rows_again(
    a: GraphModel,
    ga: GraphModel,
    b: GraphModel,
    gb: GraphModel,
    p: int,
    id: u64,
    d: nat,
    fuel: nat,
)
    requires
        sound(a),
        listed_again(a, b),
        tree_of(ga, a),
        tree_of(gb, b),
        forall|x: u64| #[trigger]
            a.has(x) && x != a.root ==> a.reading_children(x) == ids::listed(a.children(x)),
        block(a, p, id, d, fuel),
        d >= 1,
    ensures
        gb.rows(landed(p), d) == ga.rows(id, d),
    decreases fuel, 1nat, 0int,
{
    let v = a.reading_children(id);
    let less = (fuel - 1) as nat;
    let hs = heads(a, v, d + 1, less, p + 1);
    assert(id != a.root) by {
        if id == a.root {
            assert(a.on_loop(a.root));
        }
    }
    lemma_kids(a, b, p, id, d, fuel);
    ids::lemma_listed(landings(hs), b.children(landed(p)));
    assert(gb.children(landed(p)) == b.children(landed(p)));
    assert(ga.children(id) == a.children(id));
    assert(!gb.collapsed(landed(p)) && !ga.collapsed(id));
    assert(gb.branches(landed(p)) == landings(hs));
    assert(ga.branches(id) == v);
    if v.len() > 0 && d < MAX_TIDY_DEPTH {
        lemma_all_rows_again(a, ga, b, gb, p, id, d, fuel, v.len() as int);
        assert(v.take(v.len() as int) =~= v);
        assert(landings(hs).take(v.len() as int) =~= landings(hs));
    }
}

proof fn lemma_all_rows_again(
    a: GraphModel,
    ga: GraphModel,
    b: GraphModel,
    gb: GraphModel,
    p: int,
    id: u64,
    d: nat,
    fuel: nat,
    j: int,
)
    requires
        sound(a),
        listed_again(a, b),
        tree_of(ga, a),
        tree_of(gb, b),
        forall|x: u64| #[trigger]
            a.has(x) && x != a.root ==> a.reading_children(x) == ids::listed(a.children(x)),
        block(a, p, id, d, fuel),
        0 <= j <= a.reading_children(id).len(),
        forall|k: int|
            0 <= k < a.reading_children(id).len() ==> a.children(id).contains(
                #[trigger] a.reading_children(id)[k],
            ),
    ensures
        ({
            let v = a.reading_children(id);
            let less = (fuel - 1) as nat;
            let hs = heads(a, v, d + 1, less, p + 1);
            &&& gb.rows_of(landings(hs).take(j), d + 1) == ga.rows_of(v.take(j), d + 1)
            &&& forall|k: int|
                0 <= k < j ==> gb.rows(landed(#[trigger] hs[k]), d + 1) == ga.rows(v[k], d + 1)
        }),
    decreases fuel, 0nat, j,
{
    let v = a.reading_children(id);
    let less = (fuel - 1) as nat;
    let hs = heads(a, v, d + 1, less, p + 1);
    let vs = landings(hs);
    if j > 0 {
        lemma_all_rows_again(a, ga, b, gb, p, id, d, fuel, j - 1);
        lemma_block_below(a, p, id, d, fuel, j - 1);
        lemma_rows_again(a, ga, b, gb, hs[j - 1], v[j - 1], d + 1, less);
        assert(vs.take(j).drop_last() =~= vs.take(j - 1));
        assert(v.take(j).drop_last() =~= v.take(j - 1));
        assert(vs.take(j).last() == landed(hs[j - 1]));
    }
}

// ---------------------------------------------------------------------------
// Importing again
// ---------------------------------------------------------------------------

/// What an imported map was made of.
spec fn made_of(root: Seq<char>, items: Seq<Item>, h: GraphModel, r: GraphModel) -> bool {
    grow::spread(grow::grown_map(root, items, items.len()), h) && r == (GraphModel {
        mode: Mode::Browse,
        anchor: None,
        ..h
    }).focused_on(1)
}

/// An imported map is an open tree, and is read as it was laid out.
proof fn lemma_imported(root: Seq<char>, items: Seq<Item>, h: GraphModel, r: GraphModel)
    requires
        made_of(root, items, h, r),
        r.nodes.dom().finite(),
        r.nodes.dom().len() <= u64::MAX,
    ensures
        ({
            let g = grow::grown_map(root, items, items.len());
            &&& reading::open_map(g)
            &&& tree_of(g, r)
            &&& sound(r)
            &&& r.root == 1
            &&& forall|x: u64| #[trigger] r.reading_children(x) == h.reading_children(x)
        }),
{
    let g = grow::grown_map(root, items, items.len());
    grow::lemma_grown_ground(root, items, items.len());
    assert(r.nodes == h.nodes);
    assert(g.nodes.dom() == h.nodes.dom());
    assert(g.has(1));
    assert forall|x: u64| #[trigger] g.children(x) == r.children(x) by {
        assert forall|c: u64| g.children(x).contains(c) <==> r.children(x).contains(c) by {
            if g.nodes.dom().contains(c) {
            }
        }
        assert(g.children(x) =~= r.children(x));
    }
    assert forall|x: u64| #[trigger] g.has(x) implies !g.nodes[x].collapsed by {}
    assert forall|x: u64| #[trigger] r.parent_of(x) == g.parent_of(x) by {
        if g.nodes.dom().contains(x) {
        }
    }
    assert(r.grounded()) by {
        if r.on_loop(r.root) {
            let k = choose|k: nat| 1 <= k && #[trigger] r.ancestor(r.root, k) == Some(r.root);
            crate::graph::fold::lemma_same_parents(r, g, r.root, k);
            assert(g.ancestor(g.root, k) == Some(g.root));
        }
    }
    assert forall|x: u64| #[trigger] r.reading_children(x) == h.reading_children(x) by {
        assert(r.children(x) =~= h.children(x));
        assert(r.reading() =~= h.reading());
    }
}

/// The map of the list of an imported map has the same list.
proof fn lemma_list_again(
    root: Seq<char>,
    items: Seq<Item>,
    ha: GraphModel,
    a: GraphModel,
    up: Seq<Item>,
    hb: GraphModel,
    b: GraphModel,
)
    requires
        made_of(root, items, ha, a),
        a.nodes.dom().finite(),
        a.nodes.dom().len() <= u64::MAX,
        a.items().len() <= grow::MOST_ITEMS,
        made_of(a.items()[0].1, up, hb, b),
        b.nodes.dom().finite(),
        b.nodes.dom().len() <= u64::MAX,
        listed_again(a, b),
    ensures
        b.items() == a.items(),
{
    let ga = grow::grown_map(root, items, items.len());
    let gb = grow::grown_map(a.items()[0].1, up, up.len());
    lemma_imported(root, items, ha, a);
    lemma_imported(a.items()[0].1, up, hb, b);
    let w = a.reached();
    let n = a.nodes.dom().len();
    assert(n > 0) by {
        assert(a.nodes.dom().contains(a.root));
    }
    assert(a.ancestor(a.root, 0) == Some(a.root));
    assert(w.subrange(0, w.len() as int) =~= w);
    assert(block(a, 0, a.root, 0, n));
    assert forall|x: u64| #[trigger] a.has(x) && x != a.root implies a.reading_children(x)
        == ids::listed(a.children(x)) by {
        reading::lemma_below_reading(ga, ha, x);
        assert(ga.children(x) == a.children(x));
    }
    // The branches of the root.
    let u = a.reading_children(a.root);
    let hs = heads(a, u, 1, (n - 1) as nat, 1);
    let v = landings(hs);
    lemma_kids(a, b, 0, a.root, 0, n);
    assert(landed(0) == 1);
    assert(gb.children(1) == b.children(1));
    ids::lemma_listed(v, b.children(1));
    ids::lemma_lists_len(v, b.children(1));
    assert(!gb.collapsed(gb.root));
    assert(gb.branches(gb.root) == v);
    lemma_all_rows_again(a, ga, b, gb, 0, a.root, 0, n, u.len() as int);
    assert(balance::sizes(ga, u) =~= balance::sizes(gb, v)) by {
        assert forall|k: int| 0 <= k < u.len() implies balance::sizes(ga, u)[k] == balance::sizes(
            gb,
            v,
        )[k] by {
            assert(gb.rows(landed(hs[k]), 1) == ga.rows(u[k], 1));
        }
    }
    reading::lemma_reading_is_orderly(ga, ha);
    assert(ha.reading_children(ga.root) == u);
    assert forall|x: u64| #[trigger] v.contains(x) <==> gb.children(gb.root).contains(x) by {}
    reading::lemma_same_totals(ga, gb, u, v);
    let s = balance::sizes(gb, v);
    assert(gb.branch_sizes() =~= s);
    deal::lemma_fits(
        s,
        reading::sides_of(ga, u),
        0,
        false,
        ga.right_total(),
        deal::upto(s, s.len() as int) - ga.right_total(),
    );
    assert(gb.reads_in_order());
    reading::lemma_orderly_reading(gb, hb);
    assert forall|x: u64| #[trigger] b.has(x) implies b.reading_children(x) == ids::listed(
        b.children(x),
    ) by {
        assert(gb.children(x) == b.children(x));
        if x != gb.root {
            reading::lemma_below_reading(gb, hb, x);
        }
    }
    assert(b.ancestor(b.root, 0) == Some(b.root));
    lemma_walk_again(a, b, 0, a.root, 0, n, b.nodes.dom().len());
    assert(b.reached() == relabelled(w, 0, w.len() as int));
    assert(b.items() =~= a.items()) by {
        assert forall|i: int| 0 <= i < w.len() implies b.items()[i] == a.items()[i] by {
            assert(b.nodes[landed(i)].text == a.nodes[w[i].1].text);
        }
    }
}

/// What `lemma_list_again` asks of the second map.
proof fn lemma_map_again(a: GraphModel, up: Seq<Item>, b: GraphModel)
    requires
        sound(a),
        up.len() + 1 == a.items().len(),
        a.items().len() <= grow::MOST_ITEMS,
        forall|k: int| 0 <= k < up.len() ==> (#[trigger] up[k]).1 == a.items()[k + 1].1,
        forall|k: int, m: int|
            0 <= k < up.len() && 0 <= m < up.len() ==> ((#[trigger] up[k]).0 < (#[trigger] up[m]).0
                <==> a.items()[k + 1].0 < a.items()[m + 1].0),
        grow::map_of(a.items()[0].1, up, b),
    ensures
        listed_again(a, b),
{
    let w = a.reached();
    laws::lemma_map_nodes(a.items()[0].1, up, b);
    laws::lemma_not_empty(a);
    assert forall|i: int| 0 <= i < w.len() implies b.has(#[trigger] landed(i))
        && b.nodes[landed(i)].text == a.nodes[w[i].1].text by {
        assert(a.items()[i].1 == a.nodes[w[i].1].text);
        if i > 0 {
            assert(up[i - 1].1 == a.items()[i].1);
        } else {
            assert(landed(0) == 1);
        }
    }
    assert forall|i: int| 0 < i < w.len() implies b.parent_of(#[trigger] landed(i)) == Some(
        landed(outer(a, i)),
    ) by {
        let j = laws::lemma_parent_again(a, up, i);
    }
}

/// The labels of a map of a list are those of the list.
proof fn lemma_labels(root: Seq<char>, items: Seq<Item>, r: GraphModel)
    requires
        items.len() <= grow::MOST_ITEMS,
        grow::map_of(root, items, r),
        r.nodes.dom().finite(),
        r.has(r.root),
        md::plain_label(root),
        md::plain_items(items),
    ensures
        md::plain_items(r.items()),
{
    let w = r.reached();
    laws::lemma_map_nodes(root, items, r);
    assert forall|i: int| 0 <= i < r.items().len() implies md::plain_label(
        (#[trigger] r.items()[i]).1,
    ) by {
        flat::list_keeps_the_tree(r, i);
        let x = w[i].1;
        assert(r.has(x)) by {
            if i > 0 {
                assert(r.parent_of(x) is Some);
            }
        }
        let k = choose|k: int| 0 <= k <= items.len() && x == #[trigger] landed(k);
        if k > 0 {
            assert(r.nodes[landed(k)].text == items[k - 1].1);
            assert(md::plain_label(items[k - 1].1));
        } else {
            assert(landed(0) == 1);
        }
    }
}

/// Once a map has been imported from Markdown, exporting and re-importing it lands
/// in exactly the same place: what is exported then is the same text. No save and
/// open reshuffles it.
pub proof fn a_second_round_trip_changes_nothing(
    source: Seq<char>,
    once: GraphModel,
    again: GraphModel,
)
    requires
        md::md_items(text::lines_of(source)).len() <= grow::MOST_ITEMS,
        grow::map_of(
            md::md_root(text::lines_of(source)),
            md::md_items(text::lines_of(source)),
            once,
        ),
        once.nodes.dom().finite(),
        once.nodes.dom().len() <= u64::MAX,
        again.nodes.dom().finite(),
        again.nodes.dom().len() <= u64::MAX,
        once.items().len() <= grow::MOST_ITEMS,
        ({
            let lines = text::lines_of(md::md_text(once.items()));
            grow::map_of(md::md_root(lines), md::md_items(lines), again)
        }),
    ensures
        again.items() == once.items(),
        md::md_text(again.items()) == md::md_text(once.items()),
{
    let lines = text::lines_of(source);
    text::lemma_lines_are_lines(source);
    md::what_is_read_is_plain(lines);
    laws::lemma_map_nodes(md::md_root(lines), md::md_items(lines), once);
    lemma_labels(md::md_root(lines), md::md_items(lines), once);
    markdown_stays(md::md_root(lines), md::md_items(lines), once, again);
}

/// Once a map has been imported, whatever it was imported from, exporting it as
/// Markdown and importing that lands in exactly the same place, as long as every
/// label is one line without white space around it.
pub proof fn markdown_stays(
    root: Seq<char>,
    items: Seq<Item>,
    once: GraphModel,
    again: GraphModel,
)
    requires
        grow::map_of(root, items, once),
        once.nodes.dom().finite(),
        once.nodes.dom().len() <= u64::MAX,
        again.nodes.dom().finite(),
        again.nodes.dom().len() <= u64::MAX,
        md::plain_items(once.items()),
        once.items().len() <= grow::MOST_ITEMS,
        ({
            let lines = text::lines_of(md::md_text(once.items()));
            grow::map_of(md::md_root(lines), md::md_items(lines), again)
        }),
    ensures
        again.items() == once.items(),
        md::md_text(again.items()) == md::md_text(once.items()),
{
    let ha = choose|h: GraphModel| #[trigger]
        grow::spread(grow::grown_map(root, items, items.len()), h) && once == (GraphModel {
            mode: Mode::Browse,
            anchor: None,
            ..h
        }).focused_on(1);
    assert(made_of(root, items, ha, once));
    lemma_imported(root, items, ha, once);
    let all = once.items();
    laws::lemma_not_empty(once);
    flat::list_keeps_the_tree(once, 0);
    assert forall|i: int| 0 < i < all.len() implies (#[trigger] all[i]).0 >= 1 by {
        flat::list_keeps_the_tree(once, i);
    }
    md::markdown_reads_back(all);
    let up = md::raised(all.skip(1));
    assert forall|k: int| 0 <= k < up.len() implies (#[trigger] up[k]).1 == all[k + 1].1 && up[k].0
        == all[k + 1].0 - 1 by {
        assert(all[k + 1].0 >= 1);
    }
    lemma_map_again(once, up, again);
    let hb = choose|h: GraphModel| #[trigger]
        grow::spread(grow::grown_map(all[0].1, up, up.len()), h) && again == (GraphModel {
            mode: Mode::Browse,
            anchor: None,
            ..h
        }).focused_on(1);
    assert(made_of(all[0].1, up, hb, again));
    lemma_list_again(root, items, ha, once, up, hb, again);
}

/// The same of OPML, whatever the labels.
pub proof fn opml_stays(root: Seq<char>, items: Seq<Item>, once: GraphModel, again: GraphModel)
    requires
        grow::map_of(root, items, once),
        once.nodes.dom().finite(),
        once.nodes.dom().len() <= u64::MAX,
        again.nodes.dom().finite(),
        again.nodes.dom().len() <= u64::MAX,
        once.items().len() <= grow::MOST_ITEMS,
        ({
            let found = opml::scanned(
                opml::opml_text(once.nodes[once.root].text, once.items()),
                seq![],
                seq![],
            );
            grow::map_of(opml::rooted_items(found).0, opml::rooted_items(found).1, again)
        }),
    ensures
        again.items() == once.items(),
        opml::opml_text(again.nodes[again.root].text, again.items()) == opml::opml_text(
            once.nodes[once.root].text,
            once.items(),
        ),
{
    let ha = choose|h: GraphModel| #[trigger]
        grow::spread(grow::grown_map(root, items, items.len()), h) && once == (GraphModel {
            mode: Mode::Browse,
            anchor: None,
            ..h
        }).focused_on(1);
    assert(made_of(root, items, ha, once));
    lemma_imported(root, items, ha, once);
    let all = once.items();
    laws::lemma_opml_read(once);
    let up = all.skip(1);
    assert forall|k: int| 0 <= k < up.len() implies (#[trigger] up[k]) == all[k + 1] by {}
    lemma_map_again(once, up, again);
    let hb = choose|h: GraphModel| #[trigger]
        grow::spread(grow::grown_map(all[0].1, up, up.len()), h) && again == (GraphModel {
            mode: Mode::Browse,
            anchor: None,
            ..h
        }).focused_on(1);
    assert(made_of(all[0].1, up, hb, again));
    lemma_list_again(root, items, ha, once, up, hb, again);
    flat::list_keeps_the_tree(once, 0);
    lemma_imported(all[0].1, up, hb, again);
    laws::lemma_not_empty(again);
    flat::list_keeps_the_tree(again, 0);
    assert(again.items()[0].1 == again.nodes[again.root].text);
    assert(once.items()[0].1 == once.nodes[once.root].text);
}

} // verus!
