//! How a map that was laid out reads: its branches in their own order, and those
//! of the root in theirs where the sides let them.

use vstd::prelude::*;
use vstd::set_lib::lemma_len_subset;
use vstd::set_lib::lemma_set_disjoint_lens;
use crate::convert::grow;
use crate::coord;
use crate::graph::balance;
use crate::graph::deal;
use crate::graph::model::GraphModel;
use crate::graph::order;
use crate::graph::tidy;
use crate::graph::tidy_laws;
use crate::graph::tree::MAX_TIDY_DEPTH;
use crate::ids;

verus! {

/// Nothing is folded, and no more nodes are there than can be counted.
pub open spec fn open_map(g: GraphModel) -> bool {
    &&& g.nodes.dom().finite()
    &&& g.nodes.dom().len() <= u64::MAX
    &&& g.parent_of(g.root) is None
    &&& g.grounded()
    &&& forall|x: u64| #[trigger] g.has(x) ==> !g.nodes[x].collapsed
}

// ---------------------------------------------------------------------------
// Rows
// ---------------------------------------------------------------------------

/// Everything under one of `v`.
spec fn all_under(g: GraphModel, v: Seq<u64>) -> Set<u64>
    decreases v.len(),
{
    if v.len() == 0 {
        Set::empty()
    } else {
        all_under(g, v.drop_last()).union(g.subtree(v.last()))
    }
}

proof fn lemma_all_under(g: GraphModel, v: Seq<u64>, x: u64)
    ensures
        all_under(g, v).contains(x) <==> exists|i: int|
            0 <= i < v.len() && g.subtree(#[trigger] v[i]).contains(x),
    decreases v.len(),
{
    if v.len() > 0 {
        let w = v.drop_last();
        lemma_all_under(g, w, x);
        if all_under(g, w).contains(x) {
            let i = choose|i: int| 0 <= i < w.len() && g.subtree(#[trigger] w[i]).contains(x);
            assert(g.subtree(v[i]).contains(x));
        }
        if g.subtree(v.last()).contains(x) {
            assert(g.subtree(v[v.len() - 1]).contains(x));
        }
        if exists|i: int| 0 <= i < v.len() && g.subtree(#[trigger] v[i]).contains(x) {
            let i = choose|i: int| 0 <= i < v.len() && g.subtree(#[trigger] v[i]).contains(x);
            if i < w.len() {
                assert(g.subtree(w[i]).contains(x));
            }
        }
    }
}

/// A branch takes no more rows than it has nodes.
proof fn lemma_rows_bound(g: GraphModel, id: u64, depth: nat)
    requires
        g.nodes.dom().finite(),
        g.has(id),
        !g.on_loop(id),
    ensures
        g.rows(id, depth) <= g.subtree(id).len(),
    decreases MAX_TIDY_DEPTH - depth, 0nat,
{
    assert(g.ancestor(id, 0) == Some(id));
    assert(g.subtree(id).contains(id));
    assert(g.subtree(id).subset_of(g.nodes.dom()));
    lemma_len_subset(g.subtree(id), g.nodes.dom());
    assert(g.subtree(id).len() > 0);
    let v = g.branches(id);
    if v.len() > 0 && depth < MAX_TIDY_DEPTH {
        assert(g.children(id).finite());
        ids::lemma_has_list(g.children(id));
        assert forall|i: int| 0 <= i < v.len() implies g.children(id).contains(#[trigger] v[i]) by {
            assert(v.contains(v[i]));
        }
        lemma_rows_of_bound(g, id, v, depth + 1);
        let u = all_under(g, v);
        assert forall|x: u64| u.contains(x) implies g.subtree(id).contains(x) by {
            lemma_all_under(g, v, x);
            let i = choose|i: int| 0 <= i < v.len() && g.subtree(#[trigger] v[i]).contains(x);
            tidy::lemma_child_under(g, id, v[i], x);
        }
        lemma_len_subset(u, g.subtree(id));
    }
}

proof fn lemma_rows_of_bound(g: GraphModel, p: u64, v: Seq<u64>, depth: nat)
    requires
        g.nodes.dom().finite(),
        !g.on_loop(p),
        ids::increasing(v),
        forall|i: int| 0 <= i < v.len() ==> g.children(p).contains(#[trigger] v[i]),
    ensures
        g.rows_of(v, depth) <= all_under(g, v).len(),
        all_under(g, v).finite(),
        all_under(g, v).subset_of(g.nodes.dom()),
    decreases MAX_TIDY_DEPTH - depth, v.len() + 1,
{
    if v.len() > 0 {
        let w = v.drop_last();
        let c = v.last();
        assert(v[v.len() - 1] == c);
        assert forall|i: int, j: int| 0 <= i < j < w.len() implies #[trigger] w[i] < #[trigger] w[j] by {
            assert(v[i] < v[j]);
        }
        assert forall|i: int| 0 <= i < w.len() implies g.children(p).contains(#[trigger] w[i]) by {
            assert(w[i] == v[i]);
        }
        lemma_rows_of_bound(g, p, w, depth);
        tidy::lemma_not_under_child(g, p, c);
        lemma_rows_bound(g, c, depth);
        let a = all_under(g, w);
        let b = g.subtree(c);
        assert(b.subset_of(g.nodes.dom()));
        lemma_len_subset(b, g.nodes.dom());
        assert(a.disjoint(b)) by {
            assert forall|x: u64| a.contains(x) implies !b.contains(x) by {
                lemma_all_under(g, w, x);
                let i = choose|i: int| 0 <= i < w.len() && g.subtree(#[trigger] w[i]).contains(x);
                assert(v[i] < v[v.len() - 1]);
                if b.contains(x) {
                    tidy::lemma_apart(g, p, v[i], c, x);
                }
            }
        }
        lemma_set_disjoint_lens(a, b);
    }
}

/// The rows of a list of branches of the root are few enough to be counted.
proof fn lemma_few_rows(g: GraphModel, p: u64, v: Seq<u64>, depth: nat)
    requires
        open_map(g),
        !g.on_loop(p),
        ids::increasing(v),
        forall|i: int| 0 <= i < v.len() ==> g.children(p).contains(#[trigger] v[i]),
    ensures
        g.rows_of(v, depth) <= u64::MAX,
{
    lemma_rows_of_bound(g, p, v, depth);
    lemma_len_subset(all_under(g, v), g.nodes.dom());
}

// ---------------------------------------------------------------------------
// Sides
// ---------------------------------------------------------------------------

proof fn lemma_picked_prefix(v: Seq<u64>, p: Seq<bool>, side: bool, j: int, k: int)
    requires
        0 <= j <= k <= v.len(),
    ensures
        deal::picked(v.take(j), p, side).len() <= deal::picked(v.take(k), p, side).len(),
        deal::picked(v.take(k), p, side).take(
            deal::picked(v.take(j), p, side).len() as int,
        ) == deal::picked(v.take(j), p, side),
    decreases k,
{
    let a = deal::picked(v.take(j), p, side);
    let b = deal::picked(v.take(k), p, side);
    if j < k {
        lemma_picked_prefix(v, p, side, j, k - 1);
        assert(v.take(k).drop_last() =~= v.take(k - 1));
        let c = deal::picked(v.take(k - 1), p, side);
        assert(b.take(a.len() as int) =~= c.take(a.len() as int));
    } else {
        assert(b.take(a.len() as int) =~= a);
    }
}

/// Where a branch stands among those of its side.
proof fn lemma_picked_at(v: Seq<u64>, p: Seq<bool>, i: int)
    requires
        0 <= i < v.len(),
        v.no_duplicates(),
    ensures
        ({
            let a = deal::picked(v, p, p[i]);
            let b = deal::picked(v.take(i), p, p[i]);
            &&& a.contains(v[i])
            &&& a.index_of(v[i]) == b.len()
            &&& a.take(b.len() as int) == b
        }),
        !deal::picked(v, p, !p[i]).contains(v[i]),
{
    let side = p[i];
    let a = deal::picked(v, p, side);
    let b = deal::picked(v.take(i), p, side);
    let c = deal::picked(v.take(i + 1), p, side);
    assert(v.take(v.len() as int) =~= v);
    lemma_picked_prefix(v, p, side, i, v.len() as int);
    lemma_picked_prefix(v, p, side, i + 1, v.len() as int);
    assert(v.take(i + 1).drop_last() =~= v.take(i));
    assert(c == b.push(v[i]));
    assert(a.take(c.len() as int)[b.len() as int] == v[i]);
    assert(a[b.len() as int] == v[i]);
    balance::lemma_picked_distinct(v, p, side);
    assert(a.contains(v[i]));
    let k = a.index_of(v[i]);
    assert(a[k] == v[i]);
    deal::lemma_picked(v, p, !side);
    if deal::picked(v, p, !side).contains(v[i]) {
        let j = choose|j: int| 0 <= j < v.len() && p[j] == !side && #[trigger] v[j] == v[i];
        assert(j != i);
    }
}

/// `v` holds the branches of the root, and `p` says which of them are on the
/// right.
pub open spec fn shares(g: GraphModel, v: Seq<u64>, p: Seq<bool>) -> bool {
    &&& v.no_duplicates()
    &&& p.len() == v.len()
    &&& forall|x: u64| #[trigger] v.contains(x) <==> g.children(g.root).contains(x)
    &&& g.right_side() == deal::picked(v, p, true)
    &&& g.left_side() == deal::picked(v, p, false)
}

/// A child of the root is one link below it.
proof fn lemma_first_level(g: GraphModel, c: u64)
    requires
        open_map(g),
        g.children(g.root).contains(c),
    ensures
        g.laid(c, 1),
        g.level(c) == 1,
        c != g.root,
        g.shown(c),
        !g.strays().contains(c),
{
    assert(g.ancestor(c, 0) == Some(c));
    assert(g.ancestor(c, 1) == Some(g.root));
    assert forall|k: nat| 1 <= k <= 1 implies !#[trigger] g.folded_at(c, k) by {}
    assert(g.laid(c, 1));
    tidy::lemma_level(g, c, 1);
    if c == g.root {
        assert(g.on_loop(g.root));
    }
}

/// Where a branch of the root is read.
proof fn lemma_branch_spot(g: GraphModel, h: GraphModel, v: Seq<u64>, p: Seq<bool>, i: int)
    requires
        open_map(g),
        grow::spread(g, h),
        shares(g, v, p),
        0 <= i < v.len(),
    ensures
        ({
            let s = balance::sizes(g, v);
            let n = v.len() as int;
            let rt = deal::right_rows(s, p, n);
            let lt = deal::upto(s, n) - rt;
            (h.nodes[v[i]].y.rank(), h.nodes[v[i]].x.rank()) == deal::at(
                s,
                i,
                deal::right_rows(s, p, i),
                p[i],
                rt,
                lt,
            )
        }),
{
    let c = v[i];
    let s = balance::sizes(g, v);
    let n = v.len() as int;
    assert(v.contains(c));
    lemma_first_level(g, c);
    lemma_picked_at(v, p, i);
    balance::lemma_picked_rows(g, v, p, i);
    balance::lemma_picked_rows(g, v, p, n);
    assert(v.take(n) =~= v);
    assert(s[i] == g.rows(c, 1));
    let h_node = h.nodes[c];
    assert((h_node.x, h_node.y) == g.slot(c));
    assert(g.lane(c, 1) == (if p[i] {
        1int
    } else {
        -1
    }));
    let side = deal::picked(v, p, p[i]);
    assert(g.row_top(c, 1) == 2 * g.rows_of(side.take(side.index_of(c)), 1) - g.rows_of(side, 1));
    assert(g.column(c) == g.lane(c, 1) * 1);
}

/// With an orderly deal the branches of the root are read in the order in which
/// they were dealt.
pub proof fn lemma_orderly_reading(g: GraphModel, h: GraphModel)
    requires
        open_map(g),
        grow::spread(g, h),
        g.reads_in_order(),
    ensures
        h.reading_children(g.root) == ids::listed(g.children(g.root)),
{
    let v = g.branches(g.root);
    let p = g.on_right();
    let s = g.branch_sizes();
    let rt = g.right_total();
    let lt = g.left_total();
    assert(g.children(g.root).finite());
    ids::lemma_has_list(g.children(g.root));
    ids::lemma_lists_len(v, g.children(g.root));
    deal::lemma_picks(s, rt, lt);
    assert(s =~= balance::sizes(g, v));
    assert(shares(g, v, p));
    lemma_same_children(g, h, g.root);
    assert forall|i: int, j: int| 0 <= i < j < v.len() implies order::before(
        h.reading()(#[trigger] v[i]),
        h.reading()(#[trigger] v[j]),
    ) by {
        lemma_branch_spot(g, h, v, p, i);
        lemma_branch_spot(g, h, v, p, j);
        lemma_reads_through(s, p, rt, lt, i, j);
        assert(v[i] < v[j]);
    }
    assert(order::arranges(v, h.children(g.root), h.reading()));
    order::lemma_arranged(v, h.children(g.root), h.reading());
}

proof fn lemma_reads_through(s: Seq<nat>, p: Seq<bool>, rt: int, lt: int, i: int, j: int)
    requires
        deal::orderly(s, p, rt, lt),
        0 <= i <= j < s.len(),
    ensures
        deal::reads_on(
            deal::at(s, i, deal::right_rows(s, p, i), p[i], rt, lt),
            deal::at(s, j, deal::right_rows(s, p, j), p[j], rt, lt),
        ),
    decreases j,
{
    if i < j {
        lemma_reads_through(s, p, rt, lt, i, j - 1);
        assert(deal::in_step(s, p, rt, lt, j));
    }
}

proof fn lemma_same_children(g: GraphModel, h: GraphModel, x: u64)
    requires
        tidy::repositioned(g, h),
    ensures
        h.children(x) == g.children(x),
{
    assert forall|c: u64| g.children(x).contains(c) <==> h.children(x).contains(c) by {
        if g.nodes.dom().contains(c) {
        }
    }
    assert(g.children(x) =~= h.children(x));
}

// ---------------------------------------------------------------------------
// Below the root
// ---------------------------------------------------------------------------

/// A list of siblings takes few rows, and so does the beginning of it.
proof fn lemma_few(g: GraphModel, p: u64, v: Seq<u64>, i: int, depth: nat)
    requires
        open_map(g),
        !g.on_loop(p),
        ids::increasing(v),
        forall|k: int| 0 <= k < v.len() ==> g.children(p).contains(#[trigger] v[k]),
        0 <= i < v.len(),
    ensures
        0 <= g.rows_of(v.take(i), depth),
        g.rows_of(v.take(i), depth) + g.rows(v[i], depth) <= g.rows_of(v, depth) <= u64::MAX,
{
    lemma_few_rows(g, p, v, depth);
    assert(v.take(i + 1).drop_last() =~= v.take(i));
    assert(v.take(v.len() as int) =~= v);
    tidy_laws::lemma_rows_prefix(g, v, i + 1, v.len() as int, depth);
}

/// No node of the tree is on a loop.
proof fn lemma_off_loop(g: GraphModel, x: u64, d: nat)
    requires
        g.grounded(),
        g.ancestor(x, d) == Some(g.root),
    ensures
        !g.on_loop(x),
{
    tidy::lemma_under_root(g, x, d);
}

/// Rows do not begin far from the middle.
proof fn lemma_top_range(g: GraphModel, x: u64, d: nat)
    requires
        open_map(g),
        g.laid(x, d),
    ensures
        -(2 * d * u64::MAX) <= g.row_top(x, d) <= 2 * d * u64::MAX,
    decreases d,
{
    if d <= 1 {
        assert(g.ancestor(x, 0) == Some(x));
        assert(g.children(g.root).contains(x));
        lemma_root_sides(g);
        let side = if g.right_side().contains(x) {
            g.right_side()
        } else {
            g.left_side()
        };
        assert(side.contains(x));
        let i = side.index_of(x);
        lemma_few(g, g.root, side, i, 1);
    } else {
        let p = g.parent_of(x)->0;
        crate::graph::tree::lemma_ancestor_shift(g, x, (d - 1) as nat);
        assert(g.parent_of(x) is Some);
        tidy_laws::lemma_parent_laid(g, x, d);
        lemma_top_range(g, p, (d - 1) as nat);
        let sibs = ids::listed(g.children(p));
        assert(g.children(p).finite());
        ids::lemma_has_list(g.children(p));
        assert(sibs.contains(x));
        lemma_off_loop(g, p, (d - 1) as nat);
        assert forall|k: int| 0 <= k < sibs.len() implies g.children(p).contains(
            #[trigger] sibs[k],
        ) by {
            assert(sibs.contains(sibs[k]));
        }
        lemma_few(g, p, sibs, sibs.index_of(x), d);
        assert(2 * d * u64::MAX == 2 * (d - 1) * u64::MAX + 2 * u64::MAX) by (nonlinear_arith);
    }
}

/// The sides hold the branches of the root.
proof fn lemma_root_sides(g: GraphModel)
    requires
        open_map(g),
    ensures
        ids::increasing(g.right_side()),
        ids::increasing(g.left_side()),
        forall|x: u64| #[trigger]
            g.children(g.root).contains(x) <==> g.right_side().contains(x)
                || g.left_side().contains(x),
        forall|k: int|
            0 <= k < g.right_side().len() ==> g.children(g.root).contains(
                #[trigger] g.right_side()[k],
            ),
        forall|k: int|
            0 <= k < g.left_side().len() ==> g.children(g.root).contains(
                #[trigger] g.left_side()[k],
            ),
        !g.on_loop(g.root),
{
    let v = g.branches(g.root);
    let p = g.on_right();
    assert(g.children(g.root).finite());
    ids::lemma_has_list(g.children(g.root));
    tidy::lemma_both_sides(v, p);
    deal::lemma_picked(v, p, true);
    deal::lemma_picked(v, p, false);
    assert forall|x: u64| #[trigger] g.children(g.root).contains(x) <==> g.right_side().contains(x)
        || g.left_side().contains(x) by {
        assert(v.contains(x) <==> g.children(g.root).contains(x));
    }
    assert forall|k: int| 0 <= k < g.right_side().len() implies g.children(g.root).contains(
        #[trigger] g.right_side()[k],
    ) by {
        assert(g.right_side().contains(g.right_side()[k]));
    }
    assert forall|k: int| 0 <= k < g.left_side().len() implies g.children(g.root).contains(
        #[trigger] g.left_side()[k],
    ) by {
        assert(g.left_side().contains(g.left_side()[k]));
    }
}

/// The one below is read after the one above.
proof fn lemma_lower(a: int, b: int)
    requires
        a <= b,
        -(2000 * u64::MAX) <= a,
        b <= 2000 * u64::MAX,
    ensures
        coord::spec_whole(tidy::HALF_ROW * a).rank() <= coord::spec_whole(
            tidy::HALF_ROW * b,
        ).rank(),
{
    coord::lemma_whole_rises(tidy::HALF_ROW * a, tidy::HALF_ROW * b);
}

/// Siblings below the root are laid out alike.
proof fn lemma_sibling_laid(g: GraphModel, x: u64, a: u64, b: u64, d: nat)
    requires
        open_map(g),
        x != g.root,
        g.children(x).contains(a),
        g.children(x).contains(b),
        g.laid(a, d),
    ensures
        d >= 2,
        g.laid(b, d),
{
    assert(g.ancestor(a, 0) == Some(a));
    assert(g.ancestor(a, 1) == Some(x));
    crate::graph::tree::lemma_ancestor_shift(g, a, (d - 1) as nat);
    crate::graph::tree::lemma_ancestor_shift(g, b, (d - 1) as nat);
    assert forall|k: nat| 1 <= k <= d implies !#[trigger] g.folded_at(b, k) by {}
}

/// The children of a node below the root are read in ascending order.
pub proof fn lemma_below_reading(g: GraphModel, h: GraphModel, x: u64)
    requires
        open_map(g),
        grow::spread(g, h),
        x != g.root,
    ensures
        h.reading_children(x) == ids::listed(g.children(x)),
{
    let v = ids::listed(g.children(x));
    assert(g.children(x).finite());
    ids::lemma_has_list(g.children(x));
    lemma_same_children(g, h, x);
    assert forall|i: int, j: int| 0 <= i < j < v.len() implies order::before(
        h.reading()(#[trigger] v[i]),
        h.reading()(#[trigger] v[j]),
    ) by {
        assert(v.contains(v[i]) && v.contains(v[j]));
        assert(v[i] < v[j]);
        lemma_two_below(g, h, x, v, i, j);
    }
    assert(order::arranges(v, h.children(x), h.reading()));
    order::lemma_arranged(v, h.children(x), h.reading());
}

proof fn lemma_two_below(g: GraphModel, h: GraphModel, x: u64, v: Seq<u64>, i: int, j: int)
    requires
        open_map(g),
        grow::spread(g, h),
        x != g.root,
        v == ids::listed(g.children(x)),
        ids::lists(v, g.children(x)),
        0 <= i < j < v.len(),
    ensures
        order::before(h.reading()(v[i]), h.reading()(v[j])),
{
    let a = v[i];
    let b = v[j];
    assert(v.contains(a) && v.contains(b));
    assert(a < b);
    assert(g.children(x).contains(a) && g.children(x).contains(b));
    assert(a != g.root && b != g.root);
    if g.shown(a) || g.shown(b) {
        let d = if g.shown(a) {
            let d = choose|d: nat| g.laid(a, d);
            lemma_sibling_laid(g, x, a, b, d);
            d
        } else {
            let d = choose|d: nat| g.laid(b, d);
            lemma_sibling_laid(g, x, b, a, d);
            d
        };
        assert(g.laid(a, d) && g.laid(b, d) && d >= 2) by {
            if g.shown(a) {
                lemma_sibling_laid(g, x, a, b, d);
            } else {
                lemma_sibling_laid(g, x, b, a, d);
            }
        }
        tidy::lemma_level(g, a, d);
        tidy::lemma_level(g, b, d);
        lemma_off_loop(g, a, d);
        tidy_laws::lemma_parent_laid(g, a, d);
        lemma_off_loop(g, x, (d - 1) as nat);
        assert forall|k: int| 0 <= k < v.len() implies g.children(x).contains(#[trigger] v[k]) by {
            assert(v.contains(v[k]));
        }
        lemma_few(g, x, v, i, d);
        lemma_few(g, x, v, j, d);
        tidy_laws::lemma_rows_apart(g, v, i, j, d);
        tidy::lemma_rows_positive(g, a, d);
        ids::lemma_lists_len(v, g.children(x));
        assert(v.index_of(a) == i && v.index_of(b) == j);
        lemma_top_range(g, a, d);
        lemma_top_range(g, b, d);
        assert(2 * d * u64::MAX <= 1024 * u64::MAX) by (nonlinear_arith)
            requires
                d <= 512,
        ;
        lemma_lower(g.middle(a), g.middle(b));
        assert(g.column(a) == g.column(b));
        assert(!g.strays().contains(a) && !g.strays().contains(b));
        let m = h.nodes[a];
        let n = h.nodes[b];
        assert((m.x, m.y) == g.slot(a));
        assert((n.x, n.y) == g.slot(b));
    } else {
        assert(!g.seated(a)) by {
            if exists|y: u64| g.carrier(a, y) {
                let y = choose|y: u64| g.carrier(a, y);
                assert(g.has(y));
            }
        }
        assert(!g.seated(b)) by {
            if exists|y: u64| g.carrier(b, y) {
                let y = choose|y: u64| g.carrier(b, y);
                assert(g.has(y));
            }
        }
        let w = ids::listed(g.strays());
        assert(g.strays().finite());
        ids::lemma_has_list(g.strays());
        ids::lemma_lists_len(w, g.strays());
        assert(g.strays().subset_of(g.nodes.dom()));
        lemma_len_subset(g.strays(), g.nodes.dom());
        assert(g.strays().contains(a) && g.strays().contains(b));
        assert(w.contains(a) && w.contains(b));
        let k = choose|k: int| 0 <= k < w.len() && w[k] == a;
        let m = choose|m: int| 0 <= m < w.len() && w[m] == b;
        if m < k {
            assert(w[m] < w[k]);
        }
        assert(k < m);
        lemma_root_sides(g);
        lemma_few_rows(g, g.root, g.right_side(), 1);
        lemma_few_rows(g, g.root, g.left_side(), 1);
        lemma_lower(g.strays_top() + 2 * k, g.strays_top() + 2 * m);
        assert(h.nodes[w[k]].x == coord::spec_whole(0));
        assert(h.nodes[w[m]].x == coord::spec_whole(0));
    }
}

// ---------------------------------------------------------------------------
// As many rows on each side
// ---------------------------------------------------------------------------

/// Neither do their sizes, taken together.
proof fn lemma_sizes_any_order(g: GraphModel, v: Seq<u64>, w: Seq<u64>)
    requires
        v.no_duplicates(),
        w.no_duplicates(),
        forall|x: u64| #[trigger] v.contains(x) <==> w.contains(x),
    ensures
        balance::sizes(g, v).to_multiset() == balance::sizes(g, w).to_multiset(),
    decreases v.len(),
{
    broadcast use vstd::seq_lib::group_to_multiset_ensures;
    broadcast use vstd::multiset::group_multiset_axioms;

    if v.len() == 0 {
        if w.len() > 0 {
            assert(w.contains(w[0]));
            assert(v.contains(w[0]));
        }
        assert(balance::sizes(g, v) =~= balance::sizes(g, w));
    } else {
        let j = balance::lemma_one_less(v, w);
        let a = v.drop_last();
        let b = w.remove(j);
        lemma_sizes_any_order(g, a, b);
        let n = g.rows(v.last(), 1);
        assert(balance::sizes(g, v) =~= balance::sizes(g, a).push(n));
        assert(balance::sizes(g, w).remove(j) =~= balance::sizes(g, b));
        assert(balance::sizes(g, w)[j] == n);
        assert(balance::sizes(g, w).contains(n));
        assert(balance::sizes(g, w).to_multiset() =~= balance::sizes(g, b).to_multiset().insert(n));
        assert(balance::sizes(g, v).to_multiset() =~= balance::sizes(g, a).to_multiset().insert(n));
    }
}

/// The rows of both sides when sizes are dealt, each onto the shorter.
spec fn heaped(s: Seq<nat>) -> (nat, nat)
    decreases s.len(),
{
    if s.len() == 0 {
        (0, 0)
    } else {
        let (r, l) = heaped(s.drop_last());
        if r <= l {
            (r + s.last(), l)
        } else {
            (r, l + s.last())
        }
    }
}

proof fn lemma_heaped(g: GraphModel, v: Seq<u64>)
    ensures
        heaped(balance::sizes(g, v)) == (g.rows_of(g.dealt(v).0, 1), g.rows_of(g.dealt(v).1, 1)),
    decreases v.len(),
{
    if v.len() > 0 {
        let w = v.drop_last();
        lemma_heaped(g, w);
        assert(balance::sizes(g, v).drop_last() =~= balance::sizes(g, w));
        let (r, l) = g.dealt(w);
        assert(r.push(v.last()).drop_last() =~= r);
        assert(l.push(v.last()).drop_last() =~= l);
    }
}

/// Branches of the same sizes are dealt alike.
pub proof fn lemma_same_totals(a: GraphModel, b: GraphModel, v: Seq<u64>, w: Seq<u64>)
    requires
        open_map(a),
        open_map(b),
        v.no_duplicates(),
        w.no_duplicates(),
        forall|x: u64| #[trigger] v.contains(x) <==> a.children(a.root).contains(x),
        forall|x: u64| #[trigger] w.contains(x) <==> b.children(b.root).contains(x),
        balance::sizes(a, v) == balance::sizes(b, w),
    ensures
        a.right_total() == b.right_total(),
{
    balance::lemma_sized(a);
    balance::lemma_sized(b);
    assert forall|x: u64| #[trigger] a.sized().contains(x) <==> v.contains(x) by {
        assert(v.contains(x) <==> a.children(a.root).contains(x));
    }
    assert forall|x: u64| #[trigger] b.sized().contains(x) <==> w.contains(x) by {
        assert(w.contains(x) <==> b.children(b.root).contains(x));
    }
    lemma_sizes_any_order(a, a.sized(), v);
    lemma_sizes_any_order(b, b.sized(), w);
    let leq = |a: nat, b: nat| a >= b;
    assert(vstd::relations::total_ordering(leq));
    vstd::seq_lib::lemma_sorted_unique(balance::sizes(a, a.sized()), balance::sizes(b, b.sized()), leq);
    lemma_heaped(a, a.sized());
    lemma_heaped(b, b.sized());
}

// ---------------------------------------------------------------------------
// The branches of the root as they are read
// ---------------------------------------------------------------------------

proof fn lemma_picked_rising(v: Seq<u64>, p: Seq<bool>, side: bool)
    requires
        forall|i: int, j: int|
            0 <= i < j < v.len() && p[i] == side && p[j] == side ==> #[trigger] v[i]
                < #[trigger] v[j],
    ensures
        ids::increasing(deal::picked(v, p, side)),
    decreases v.len(),
{
    if v.len() > 0 {
        let w = v.drop_last();
        assert forall|i: int, j: int|
            0 <= i < j < w.len() && p[i] == side && p[j] == side implies #[trigger] w[i]
            < #[trigger] w[j] by {
            assert(v[i] < v[j]);
        }
        lemma_picked_rising(w, p, side);
        deal::lemma_picked(w, p, side);
        let rest = deal::picked(w, p, side);
        let all = deal::picked(v, p, side);
        assert forall|i: int, j: int| 0 <= i < j < all.len() implies #[trigger] all[i]
            < #[trigger] all[j] by {
            if j < rest.len() {
                assert(rest[i] < rest[j]);
            } else {
                assert(rest.contains(rest[i]));
                let k = choose|k: int|
                    0 <= k < w.len() && p[k] == side && #[trigger] w[k] == rest[i];
                assert(v[k] < v[v.len() - 1]);
            }
        }
    }
}

/// Of two branches on one side, the one with the lesser id is read first.
proof fn lemma_side_order(g: GraphModel, h: GraphModel, side: Seq<u64>, a: u64, b: u64)
    requires
        open_map(g),
        grow::spread(g, h),
        side == g.right_side() || side == g.left_side(),
        side.contains(a),
        side.contains(b),
        a < b,
    ensures
        order::before(h.reading()(a), h.reading()(b)),
{
    lemma_root_sides(g);
    let v = g.branches(g.root);
    assert(g.children(g.root).finite());
    ids::lemma_has_list(g.children(g.root));
    tidy::lemma_both_sides(v, g.on_right());
    lemma_first_level(g, a);
    lemma_first_level(g, b);
    let i = side.index_of(a);
    let j = side.index_of(b);
    assert(side[i] == a && side[j] == b);
    assert(i < j) by {
        if j < i {
            assert(side[j] < side[i]);
        }
    }
    lemma_few(g, g.root, side, i, 1);
    lemma_few(g, g.root, side, j, 1);
    tidy_laws::lemma_rows_apart(g, side, i, j, 1);
    tidy::lemma_rows_positive(g, a, 1);
    assert(g.right_side().contains(a) == g.right_side().contains(b));
    assert(g.row_top(a, 1) == 2 * g.rows_of(side.take(i), 1) - g.rows_of(side, 1));
    assert(g.row_top(b, 1) == 2 * g.rows_of(side.take(j), 1) - g.rows_of(side, 1));
    lemma_lower(g.middle(a), g.middle(b));
    assert(g.column(a) == g.column(b));
    let m = h.nodes[a];
    let n = h.nodes[b];
    assert((m.x, m.y) == g.slot(a));
    assert((n.x, n.y) == g.slot(b));
}

/// Which of some nodes are on the right.
pub open spec fn sides_of(g: GraphModel, v: Seq<u64>) -> Seq<bool> {
    Seq::new(v.len(), |i: int| g.right_side().contains(v[i]))
}

/// The branches of the root, in the order in which they are read, make an orderly
/// deal.
pub proof fn lemma_reading_is_orderly(g: GraphModel, h: GraphModel)
    requires
        open_map(g),
        grow::spread(g, h),
    ensures
        ({
            let u = h.reading_children(g.root);
            let s = balance::sizes(g, u);
            &&& u.no_duplicates()
            &&& forall|x: u64| #[trigger] u.contains(x) <==> g.children(g.root).contains(x)
            &&& deal::orderly(
                s,
                sides_of(g, u),
                g.right_total(),
                deal::upto(s, s.len() as int) - g.right_total(),
            )
        }),
{
    let u = h.reading_children(g.root);
    let q = sides_of(g, u);
    let s = balance::sizes(g, u);
    let kids = g.children(g.root);
    lemma_same_children(g, h, g.root);
    assert(kids.finite());
    order::lemma_has_arrangement(kids, h.reading());
    order::lemma_arranges_distinct(u, kids, h.reading());
    lemma_root_sides(g);
    let v = g.branches(g.root);
    ids::lemma_has_list(kids);
    tidy::lemma_both_sides(v, g.on_right());
    assert forall|i: int, j: int| 0 <= i < j < u.len() && q[i] == q[j] implies #[trigger] u[i]
        < #[trigger] u[j] by {
        assert(u.contains(u[i]) && u.contains(u[j]));
        let side = if q[i] {
            g.right_side()
        } else {
            g.left_side()
        };
        assert(kids.contains(u[i]) && kids.contains(u[j]));
        assert(side.contains(u[i]) && side.contains(u[j]));
        assert(order::before(h.reading()(u[i]), h.reading()(u[j])));
        if u[j] < u[i] {
            lemma_side_order(g, h, side, u[j], u[i]);
        }
    }
    lemma_picked_rising(u, q, true);
    lemma_picked_rising(u, q, false);
    deal::lemma_picked(u, q, true);
    deal::lemma_picked(u, q, false);
    let r = deal::picked(u, q, true);
    let l = deal::picked(u, q, false);
    assert forall|x: u64| #[trigger] r.contains(x) <==> g.right_side().to_set().contains(x) by {
        if g.right_side().contains(x) {
            assert(kids.contains(x));
            assert(u.contains(x));
            let i = choose|i: int| 0 <= i < u.len() && u[i] == x;
            assert(q[i] == true);
        }
    }
    assert forall|x: u64| #[trigger] l.contains(x) <==> g.left_side().to_set().contains(x) by {
        if g.left_side().contains(x) {
            assert(kids.contains(x));
            assert(u.contains(x));
            let i = choose|i: int| 0 <= i < u.len() && u[i] == x;
            assert(q[i] == false);
        }
        if l.contains(x) {
            let i = choose|i: int| 0 <= i < u.len() && q[i] == false && #[trigger] u[i] == x;
            assert(u.contains(x));
            assert(kids.contains(x));
        }
    }
    ids::lemma_lists_unique(r, g.right_side(), g.right_side().to_set());
    ids::lemma_lists_unique(l, g.left_side(), g.left_side().to_set());
    assert(shares(g, u, q));
    balance::lemma_side_rows(g);
    balance::lemma_picked_rows(g, u, q, u.len() as int);
    assert(u.take(u.len() as int) =~= u);
    let rt = g.right_total();
    let lt = deal::upto(s, s.len() as int) - rt;
    assert forall|k: int| 0 < k < s.len() implies #[trigger] deal::in_step(s, q, rt, lt, k) by {
        lemma_branch_spot(g, h, u, q, k - 1);
        lemma_branch_spot(g, h, u, q, k);
        assert(order::before(h.reading()(u[k - 1]), h.reading()(u[k])));
    }
}

} // verus!
