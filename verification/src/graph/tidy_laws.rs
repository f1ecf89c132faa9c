//! What holds of every tidy map.

use vstd::prelude::*;
use crate::coord;
use crate::coord::Coord;
use crate::graph::deal;
use crate::graph::fold;
use crate::graph::model::{GraphModel, NodeModel};
use crate::graph::order;
use crate::graph::tidy;
use crate::graph::tidy::{HALF_ROW, TIDY_COL};
use crate::graph::tree::MAX_TIDY_DEPTH;
use crate::ids;

verus! {

// ---------------------------------------------------------------------------
// Sides
// ---------------------------------------------------------------------------

/// Dealing shares the branches out.
pub proof fn lemma_dealt(g: GraphModel, v: Seq<u64>)
    ensures
        forall|x: u64| #[trigger]
            v.contains(x) <==> g.dealt(v).0.contains(x) || g.dealt(v).1.contains(x),
    decreases v.len(),
{
    if v.len() > 0 {
        let w = v.drop_last();
        lemma_dealt(g, w);
        let (r, l) = g.dealt(w);
        let (r2, l2) = g.dealt(v);
        assert forall|x: u64| #[trigger] v.contains(x) <==> r2.contains(x) || l2.contains(x) by {
            if v.contains(x) {
                let k = choose|k: int| 0 <= k < v.len() && v[k] == x;
                if k < w.len() {
                    assert(w[k] == x);
                    assert(w.contains(x));
                    lemma_pushed(r, v.last(), x);
                    lemma_pushed(l, v.last(), x);
                } else {
                    lemma_pushed(r, v.last(), x);
                    lemma_pushed(l, v.last(), x);
                }
            } else {
                assert(!w.contains(x)) by {
                    if w.contains(x) {
                        let k = choose|k: int| 0 <= k < w.len() && w[k] == x;
                        assert(v[k] == x);
                    }
                }
                assert(x != v.last()) by {
                    assert(v[v.len() - 1] == v.last());
                }
                lemma_pushed(r, v.last(), x);
                lemma_pushed(l, v.last(), x);
            }
        }
    }
}

proof fn lemma_pushed(v: Seq<u64>, id: u64, x: u64)
    ensures
        v.push(id).contains(x) <==> v.contains(x) || x == id,
{
    let w = v.push(id);
    if v.contains(x) {
        let k = choose|k: int| 0 <= k < v.len() && v[k] == x;
        assert(w[k] == x);
    }
    if x == id {
        assert(w[v.len() as int] == x);
    }
    if w.contains(x) {
        let k = choose|k: int| 0 <= k < w.len() && w[k] == x;
        if k < v.len() {
            assert(v[k] == x);
        }
    }
}

/// Every branch of an open root is on one side.
proof fn lemma_on_a_side(g: GraphModel, c: u64)
    requires
        g.nodes.dom().finite(),
        g.children(g.root).contains(c),
        !g.collapsed(g.root),
    ensures
        g.right_side().contains(c) || g.left_side().contains(c),
        g.right_side().no_duplicates(),
        g.left_side().no_duplicates(),
{
    let s = g.children(g.root);
    assert(s.finite());
    ids::lemma_has_list(s);
    let v = g.branches(g.root);
    assert(v.contains(c));
    tidy::lemma_both_sides(v, g.on_right());
    deal::lemma_picked(v, g.on_right(), true);
    deal::lemma_picked(v, g.on_right(), false);
}

// ---------------------------------------------------------------------------
// Rows
// ---------------------------------------------------------------------------

/// More branches take more rows.
pub proof fn lemma_rows_prefix(g: GraphModel, v: Seq<u64>, i: int, j: int, depth: nat)
    requires
        0 <= i <= j <= v.len(),
    ensures
        g.rows_of(v.take(i), depth) <= g.rows_of(v.take(j), depth),
    decreases j,
{
    if i < j {
        lemma_rows_prefix(g, v, i, j - 1, depth);
        assert(v.take(j).drop_last() =~= v.take(j - 1));
    }
}

/// Of two branches in a list, the rows of one end before those of the other begin.
pub proof fn lemma_rows_apart(g: GraphModel, v: Seq<u64>, i: int, j: int, depth: nat)
    requires
        0 <= i < j < v.len(),
    ensures
        g.rows_of(v.take(i), depth) + g.rows(v[i], depth) <= g.rows_of(v.take(j), depth),
{
    assert(v.take(i + 1).drop_last() =~= v.take(i));
    lemma_rows_prefix(g, v, i + 1, j, depth);
}

/// The parent of a node in sight is the root or in sight, one level up.
pub proof fn lemma_parent_laid(g: GraphModel, x: u64, d: nat)
    requires
        g.laid(x, d),
    ensures
        g.parent_of(x) is Some,
        g.children(g.parent_of(x)->0).contains(x),
        !g.collapsed(g.parent_of(x)->0),
        d == 1 ==> g.parent_of(x)->0 == g.root,
        d > 1 ==> g.laid(g.parent_of(x)->0, (d - 1) as nat),
{
    assert(g.ancestor(x, 0) == Some(x));
    crate::graph::tree::lemma_ancestor_shift(g, x, (d - 1) as nat);
    let p = g.parent_of(x)->0;
    assert(g.ancestor(x, 1) == Some(p));
    assert(!g.folded_at(x, 1));
    assert(g.ancestor(p, 0) == Some(p));
    if d > 1 {
        assert(g.ancestor(p, (d - 1) as nat) == Some(g.root));
        assert forall|k: nat| 1 <= k <= d - 1 implies !#[trigger] g.folded_at(p, k) by {
            crate::graph::tree::lemma_ancestor_shift(g, x, k);
            assert(!g.folded_at(x, k + 1));
        }
        crate::graph::tree::lemma_ancestor_shift(g, p, (d - 2) as nat);
        assert(g.parent_of(p) is Some);
    }
}

/// The rows of a child are among those of its parent.
pub proof fn rows_are_nested(g: GraphModel, x: u64, d: nat)
    requires
        g.nodes.dom().finite(),
        g.laid(x, d),
        d > 1,
    ensures
        ({
            let p = g.parent_of(x)->0;
            let e = (d - 1) as nat;
            &&& g.row_top(p, e) <= g.row_top(x, d)
            &&& g.row_top(x, d) + 2 * g.rows(x, d) <= g.row_top(p, e) + 2 * g.rows(p, e)
        }),
{
    lemma_parent_laid(g, x, d);
    let p = g.parent_of(x)->0;
    let v = ids::listed(g.children(p));
    assert(g.children(p).finite());
    ids::lemma_has_list(g.children(p));
    assert(v.contains(x));
    let i = v.index_of(x);
    assert(0 <= i < v.len() && v[i] == x);
    assert(v.take(i + 1).drop_last() =~= v.take(i));
    lemma_rows_prefix(g, v, i + 1, v.len() as int, d);
    assert(v.take(v.len() as int) =~= v);
    assert(g.branches(p) == v);
}

/// Two nodes of one level on one side have no row in common.
proof fn lemma_level_apart(g: GraphModel, x: u64, y: u64, d: nat)
    requires
        g.nodes.dom().finite(),
        g.laid(x, d),
        g.laid(y, d),
        x != y,
        g.lane(x, d) == g.lane(y, d),
    ensures
        g.row_top(x, d) + 2 * g.rows(x, d) <= g.row_top(y, d) || g.row_top(y, d) + 2 * g.rows(y, d)
            <= g.row_top(x, d),
    decreases d,
{
    lemma_parent_laid(g, x, d);
    lemma_parent_laid(g, y, d);
    let p = g.parent_of(x)->0;
    let q = g.parent_of(y)->0;
    if d == 1 {
        lemma_on_a_side(g, x);
        lemma_on_a_side(g, y);
        let side = if g.right_side().contains(x) {
            g.right_side()
        } else {
            g.left_side()
        };
        lemma_in_list(g, side, x, y, 1);
    } else if p == q {
        let v = ids::listed(g.children(p));
        assert(g.children(p).finite());
        ids::lemma_has_list(g.children(p));
        assert(v.contains(x) && v.contains(y));
        lemma_in_list(g, v, x, y, d);
    } else {
        lemma_level_apart(g, p, q, (d - 1) as nat);
        rows_are_nested(g, x, d);
        rows_are_nested(g, y, d);
    }
}

proof fn lemma_in_list(g: GraphModel, v: Seq<u64>, x: u64, y: u64, d: nat)
    requires
        v.contains(x),
        v.contains(y),
        x != y,
    ensures
        ({
            let a = g.rows_of(v.take(v.index_of(x)), d);
            let b = g.rows_of(v.take(v.index_of(y)), d);
            a + g.rows(x, d) <= b || b + g.rows(y, d) <= a
        }),
{
    let i = v.index_of(x);
    let j = v.index_of(y);
    assert(0 <= i < v.len() && v[i] == x && 0 <= j < v.len() && v[j] == y);
    if i < j {
        lemma_rows_apart(g, v, i, j, d);
    } else {
        lemma_rows_apart(g, v, j, i, d);
    }
}

/// In a tidy map no two nodes with places of their own are in each other's way:
/// they are in different columns, or a whole row apart.
pub proof fn tidy_keeps_apart(g: GraphModel, x: u64, y: u64)
    requires
        g.nodes.dom().finite(),
        g.grounded(),
        g.shown(x),
        g.shown(y),
        x != y,
    ensures
        g.column(x) != g.column(y) || g.middle(x) - g.middle(y) >= 2 || g.middle(y) - g.middle(x)
            >= 2,
{
    let d = g.level(x);
    let e = g.level(y);
    if x != g.root {
        assert(g.laid(x, d));
        lemma_lane(g, x, d);
        tidy::lemma_rows_positive(g, x, d);
    }
    if y != g.root {
        assert(g.laid(y, e));
        lemma_lane(g, y, e);
        tidy::lemma_rows_positive(g, y, e);
    }
    if x != g.root && y != g.root && g.column(x) == g.column(y) {
        lemma_signed(g.lane(x, d), g.lane(y, e), d, e);
        lemma_level_apart(g, x, y, d);
    } else if x != g.root && y == g.root {
        lemma_signed_nonzero(g.lane(x, d), d);
    } else if y != g.root && x == g.root {
        lemma_signed_nonzero(g.lane(y, e), e);
    }
}

/// Every node is one column further out than its parent, on the same side, and
/// no higher or lower than its parent's rows.
pub proof fn tidy_goes_outward(g: GraphModel, x: u64)
    requires
        g.nodes.dom().finite(),
        g.grounded(),
        g.shown(x),
        x != g.root,
        g.parent_of(x)->0 != g.root,
    ensures
        g.parent_of(x) is Some,
        ({
            let p = g.parent_of(x)->0;
            &&& g.shown(p)
            &&& g.level(x) == g.level(p) + 1
            &&& g.lane(x, g.level(x)) == g.lane(p, g.level(p))
            &&& g.middle(p) - g.rows(p, g.level(p)) < g.middle(x) < g.middle(p) + g.rows(
                p,
                g.level(p),
            )
        }),
{
    let d = g.level(x);
    assert(g.laid(x, d));
    lemma_parent_laid(g, x, d);
    let p = g.parent_of(x)->0;
    let e = (d - 1) as nat;
    tidy::lemma_level(g, p, e);
    rows_are_nested(g, x, d);
    tidy::lemma_rows_positive(g, x, d);
}

proof fn lemma_lane(g: GraphModel, x: u64, d: nat)
    ensures
        g.lane(x, d) == 1 || g.lane(x, d) == -1,
    decreases d,
{
    if d > 1 {
        lemma_lane(g, g.parent_of(x)->0, (d - 1) as nat);
    }
}

proof fn lemma_signed(a: int, b: int, d: nat, e: nat)
    by (nonlinear_arith)
    requires
        a == 1 || a == -1,
        b == 1 || b == -1,
        d >= 1,
        e >= 1,
        a * d == b * e,
    ensures
        a == b,
        d == e,
{
}

proof fn lemma_signed_nonzero(a: int, d: nat)
    by (nonlinear_arith)
    requires
        a == 1 || a == -1,
        d >= 1,
    ensures
        a * d != 0,
{
}

// ---------------------------------------------------------------------------
// Tidying again
// ---------------------------------------------------------------------------

proof fn lemma_same_shape(g: GraphModel, h: GraphModel)
    requires
        tidy::repositioned(g, h),
    ensures
        forall|x: u64| #[trigger] g.parent_of(x) == h.parent_of(x),
        forall|x: u64| #[trigger] g.collapsed(x) == h.collapsed(x),
        forall|x: u64| #[trigger] g.has(x) == h.has(x),
        forall|x: u64| #[trigger] g.children(x) == h.children(x),
        forall|x: u64| #[trigger] g.branches(x) == h.branches(x),
{
    assert forall|x: u64| #[trigger] g.parent_of(x) == h.parent_of(x) by {
        if g.nodes.dom().contains(x) {
        }
    }
    assert forall|x: u64| #[trigger] g.collapsed(x) == h.collapsed(x) by {
        if g.nodes.dom().contains(x) {
        }
    }
    assert forall|x: u64| #[trigger] g.children(x) == h.children(x) by {
        assert forall|c: u64| g.children(x).contains(c) <==> h.children(x).contains(c) by {
            if g.nodes.dom().contains(c) {
            }
        }
        assert(g.children(x) =~= h.children(x));
    }
}

proof fn lemma_same_rows(g: GraphModel, h: GraphModel, id: u64, depth: nat)
    requires
        tidy::repositioned(g, h),
    ensures
        g.rows(id, depth) == h.rows(id, depth),
    decreases MAX_TIDY_DEPTH - depth, 0nat,
{
    lemma_same_shape(g, h);
    if !(g.branches(id).len() == 0 || depth >= MAX_TIDY_DEPTH) {
        lemma_same_rows_of(g, h, g.branches(id), depth + 1);
    }
}

proof fn lemma_same_rows_of(g: GraphModel, h: GraphModel, v: Seq<u64>, depth: nat)
    requires
        tidy::repositioned(g, h),
    ensures
        g.rows_of(v, depth) == h.rows_of(v, depth),
    decreases MAX_TIDY_DEPTH - depth, v.len() + 1,
{
    if v.len() > 0 {
        lemma_same_rows_of(g, h, v.drop_last(), depth);
        lemma_same_rows(g, h, v.last(), depth);
    }
}

proof fn lemma_same_dealt(g: GraphModel, h: GraphModel, v: Seq<u64>)
    requires
        tidy::repositioned(g, h),
    ensures
        g.dealt(v) == h.dealt(v),
    decreases v.len(),
{
    if v.len() > 0 {
        lemma_same_dealt(g, h, v.drop_last());
        let (r, l) = g.dealt(v.drop_last());
        lemma_same_rows_of(g, h, r, 1);
        lemma_same_rows_of(g, h, l, 1);
    }
}

proof fn lemma_same_sides(g: GraphModel, h: GraphModel)
    requires
        tidy::repositioned(g, h),
    ensures
        g.right_side() == h.right_side(),
        g.left_side() == h.left_side(),
{
    lemma_same_shape(g, h);
    assert forall|k: u64| #[trigger] (g.by_size())(k) == (h.by_size())(k) by {
        lemma_same_rows(g, h, k, 1);
    }
    assert(g.by_size() =~= h.by_size());
    assert(g.collapsed(g.root) == h.collapsed(g.root));
    assert(g.children(g.root) == h.children(g.root));
    lemma_same_dealt(g, h, g.sized());
    lemma_same_rows_of(g, h, g.dealt(g.sized()).0, 1);
    assert(g.branches(g.root) == h.branches(h.root));
    assert forall|k: u64| #[trigger] g.rows(k, 1) == h.rows(k, 1) by {
        lemma_same_rows(g, h, k, 1);
    }
    assert(g.branch_sizes() =~= h.branch_sizes());
    assert(g.on_right() =~= h.on_right());
}

proof fn lemma_same_spot(g: GraphModel, h: GraphModel, x: u64, d: nat)
    requires
        tidy::repositioned(g, h),
    ensures
        g.lane(x, d) == h.lane(x, d),
        g.row_top(x, d) == h.row_top(x, d),
    decreases d,
{
    lemma_same_sides(g, h);
    lemma_same_shape(g, h);
    if d <= 1 {
        let side = if g.right_side().contains(x) {
            g.right_side()
        } else {
            g.left_side()
        };
        lemma_same_rows_of(g, h, side, 1);
        lemma_same_rows_of(g, h, side.take(side.index_of(x)), 1);
    } else {
        assert(g.parent_of(x) == h.parent_of(x));
        let p = g.parent_of(x)->0;
        lemma_same_spot(g, h, p, (d - 1) as nat);
        assert(g.children(p) == h.children(p));
        let v = ids::listed(g.children(p));
        lemma_same_rows_of(g, h, v.take(v.index_of(x)), d);
    }
}

proof fn lemma_same_laid(g: GraphModel, h: GraphModel, x: u64, d: nat)
    requires
        tidy::repositioned(g, h),
    ensures
        g.laid(x, d) == h.laid(x, d),
{
    lemma_same_shape(g, h);
    assert(g.has(x) == h.has(x));
    assert forall|k: nat| #[trigger] g.folded_at(x, k) == h.folded_at(x, k) by {
        fold::lemma_same_parents(g, h, x, k);
    }
    fold::lemma_same_parents(g, h, x, d);
    if g.laid(x, d) {
        assert forall|k: nat| 1 <= k <= d implies !#[trigger] h.folded_at(x, k) by {
            assert(!g.folded_at(x, k));
        }
    }
    if h.laid(x, d) {
        assert forall|k: nat| 1 <= k <= d implies !#[trigger] g.folded_at(x, k) by {
            assert(!h.folded_at(x, k));
        }
    }
}

/// Where a node goes depends on the tree and not on where it was, so tidying
/// twice does not shuffle a map that did not change in between.
pub proof fn tidy_twice_is_tidy<C: Fn(Coord, Coord, Coord) -> Coord>(
    g: GraphModel,
    h: GraphModel,
    k: GraphModel,
    carry: &C,
    x: u64,
)
    requires
        g.grounded(),
        tidy::tidied(g, h, carry),
        tidy::tidied(h, k, carry),
        g.has(x),
        g.shown(x),
    ensures
        h.slot(x) == g.slot(x),
        (k.nodes[x].x, k.nodes[x].y) == (h.nodes[x].x, h.nodes[x].y),
{
    lemma_same_shape(g, h);
    assert(g.has(x) == h.has(x));
    assert forall|d: nat| #[trigger] g.laid(x, d) == h.laid(x, d) by {
        lemma_same_laid(g, h, x, d);
    }
    assert(g.shown(x) == h.shown(x));
    if x != g.root {
        let d = g.level(x);
        assert(g.laid(x, d));
        tidy::lemma_level(g, x, d);
        assert(!h.on_loop(h.root)) by {
            if h.on_loop(h.root) {
                let m = choose|m: nat| 1 <= m && #[trigger] h.ancestor(h.root, m) == Some(h.root);
                fold::lemma_same_parents(g, h, g.root, m);
                assert(g.ancestor(g.root, m) == Some(g.root));
            }
        }
        assert(h.laid(x, d));
        tidy::lemma_level(h, x, d);
        lemma_same_spot(g, h, x, d);
        lemma_same_rows(g, h, x, d);
    }
    assert(!g.strays().contains(x));
    assert(!h.strays().contains(x));
    assert(tidy::seat(g, h.nodes[x], x, carry));
    assert(tidy::seat(h, k.nodes[x], x, carry));
}

/// The same nodes get a place, go along with a fold, or hang nowhere.
proof fn lemma_same_seats(g: GraphModel, h: GraphModel, x: u64)
    requires
        g.grounded(),
        tidy::repositioned(g, h),
    ensures
        g.shown(x) == h.shown(x),
        forall|y: u64| #[trigger] g.carrier(x, y) == h.carrier(x, y),
        g.seated(x) == h.seated(x),
        h.grounded(),
{
    lemma_same_shape(g, h);
    assert(g.has(x) == h.has(x));
    assert(h.grounded()) by {
        if h.on_loop(h.root) {
            let m = choose|m: nat| 1 <= m && #[trigger] h.ancestor(h.root, m) == Some(h.root);
            fold::lemma_same_parents(g, h, g.root, m);
            assert(g.ancestor(g.root, m) == Some(g.root));
        }
    }
    lemma_same_shown(g, h, x);
    assert forall|y: u64| #[trigger] g.carrier(x, y) == h.carrier(x, y) by {
        lemma_same_shown(g, h, y);
        assert(g.collapsed(y) == h.collapsed(y));
        if g.above(y, x) {
            let m = choose|m: nat| g.ancestor(x, m) == Some(y);
            fold::lemma_same_parents(g, h, x, m);
            assert(h.ancestor(x, m) == Some(y));
        }
        if h.above(y, x) {
            let m = choose|m: nat| h.ancestor(x, m) == Some(y);
            fold::lemma_same_parents(g, h, x, m);
            assert(g.ancestor(x, m) == Some(y));
        }
    }
    if exists|y: u64| g.carrier(x, y) {
        let y = choose|y: u64| g.carrier(x, y);
        assert(h.carrier(x, y));
    }
    if exists|y: u64| h.carrier(x, y) {
        let y = choose|y: u64| h.carrier(x, y);
        assert(g.carrier(x, y));
    }
}

proof fn lemma_same_shown(g: GraphModel, h: GraphModel, x: u64)
    requires
        tidy::repositioned(g, h),
    ensures
        g.shown(x) == h.shown(x),
{
    assert forall|d: nat| #[trigger] g.laid(x, d) == h.laid(x, d) by {
        lemma_same_laid(g, h, x, d);
    }
    if g.shown(x) && x != g.root {
        let d = choose|d: nat| g.laid(x, d);
        assert(h.laid(x, d));
    }
    if h.shown(x) && x != h.root {
        let d = choose|d: nat| h.laid(x, d);
        assert(g.laid(x, d));
    }
}

/// Tidying a tidy map changes nothing at all: not what has a place of its own, not
/// what hangs nowhere, not what floats, and not what a fold hides.
pub proof fn tidy_twice_changes_nothing<C: Fn(Coord, Coord, Coord) -> Coord>(
    g: GraphModel,
    h: GraphModel,
    k: GraphModel,
    carry: &C,
)
    requires
        g.nodes.dom().finite(),
        g.grounded(),
        tidy::tidied(g, h, carry),
        tidy::tidied(h, k, carry),
    ensures
        k == h,
{
    lemma_same_shape(g, h);
    assert(g.strays() =~= h.strays()) by {
        assert forall|x: u64| g.strays().contains(x) <==> h.strays().contains(x) by {
            lemma_same_seats(g, h, x);
            assert(g.has(x) == h.has(x));
            assert(g.parent_of(x) == h.parent_of(x));
        }
    }
    assert(g.strays_top() == h.strays_top()) by {
        lemma_same_sides(g, h);
        lemma_same_rows_of(g, h, g.right_side(), 1);
        lemma_same_rows_of(g, h, g.left_side(), 1);
    }
    let w = ids::listed(g.strays());
    assert(g.strays().finite());
    ids::lemma_has_list(g.strays());
    assert forall|x: u64| h.nodes.dom().contains(x) implies k.nodes[x] == h.nodes[x] by {
        assert(g.has(x) == h.has(x));
        lemma_same_seats(g, h, x);
        let m = h.nodes[x];
        let n = k.nodes[x];
        if g.strays().contains(x) {
            assert(w.contains(x));
            let i = choose|i: int| 0 <= i < w.len() && w[i] == x;
            assert(h.nodes[w[i]].x == coord::spec_whole(0));
            assert(k.nodes[ids::listed(h.strays())[i]].x == coord::spec_whole(0));
        } else if g.shown(x) {
            tidy_twice_is_tidy(g, h, k, carry, x);
        } else if g.seated(x) {
            let y = g.carrier_of(x);
            let z = h.carrier_of(x);
            assert(g.carrier(x, y));
            assert(h.carrier(x, z));
            assert(h.carrier(x, y));
            tidy::lemma_one_carrier(h, x, y);
            assert(y == z);
            assert(g.has(y) == h.has(y));
            lemma_same_seats(g, h, y);
            lemma_shown_is_no_stray(g, y);
            lemma_shown_is_no_stray(h, y);
            tidy_twice_is_tidy(g, h, k, carry, y);
            let p = h.nodes[y];
            assert(tidy::seat(g, p, y, carry));
            assert((p.x, p.y) == h.slot(y));
            assert(tidy::seat(h, n, x, carry));
            assert(n.x == m.x && n.y == m.y);
        } else {
            assert(tidy::seat(h, n, x, carry));
        }
        assert(n == (NodeModel { x: n.x, y: n.y, ..m }));
    }
    assert(k.nodes =~= h.nodes);
}

proof fn lemma_shown_is_no_stray(g: GraphModel, x: u64)
    requires
        g.shown(x),
    ensures
        !g.strays().contains(x),
{
}

// ---------------------------------------------------------------------------
// Room
// ---------------------------------------------------------------------------

/// Half rows from the middle within which every place of a tidy map is exact.
pub const EXACT_ROWS: i128 = 500_000;

/// The place in a column and at a number of half rows from the middle.
pub open spec fn cell(column: int, row: int) -> (Coord, Coord) {
    (coord::spec_whole(TIDY_COL * column), coord::spec_whole(HALF_ROW * row))
}

/// `clash` finds no fault with places in different columns, or a row apart.
pub open spec fn spares<F: Fn((Coord, Coord), (Coord, Coord)) -> bool>(clash: &F) -> bool {
    forall|a: int, b: int, c: int, d: int|
        (a != c || b - d >= 2 || d - b >= 2) && -(MAX_TIDY_DEPTH as int) <= a <= MAX_TIDY_DEPTH
            && -(MAX_TIDY_DEPTH as int) <= c <= MAX_TIDY_DEPTH && -EXACT_ROWS < b < EXACT_ROWS
            && -EXACT_ROWS < d < EXACT_ROWS ==> !#[trigger] clash.ensures(
            (cell(a, b), cell(c, d)),
            true,
        )
}

/// In a tidy map of which every node has a place of its own no two nodes overlap,
/// whatever counts as that, as long as places in different columns, or a row
/// apart, do not: [`Graph::has_overlapping_nodes`] says no of it.
pub proof fn tidy_leaves_no_overlap<
    C: Fn(Coord, Coord, Coord) -> Coord,
    F: Fn((Coord, Coord), (Coord, Coord)) -> bool,
>(g: GraphModel, h: GraphModel, carry: &C, clash: &F)
    requires
        g.nodes.dom().finite(),
        g.grounded(),
        tidy::tidied(g, h, carry),
        spares(clash),
        forall|x: u64| #[trigger]
            g.has(x) ==> g.shown(x) && -EXACT_ROWS < g.middle(x) < EXACT_ROWS,
    ensures
        forall|a: u64, b: u64|
            a < b && #[trigger] h.has(a) && #[trigger] h.has(b) ==> !clash.ensures(
                (h.place_of(a), h.place_of(b)),
                true,
            ),
{
    lemma_same_shape(g, h);
    assert forall|a: u64, b: u64| a < b && #[trigger] h.has(a) && #[trigger] h.has(
        b,
    ) implies !clash.ensures((h.place_of(a), h.place_of(b)), true) by {
        assert(g.has(a) && g.has(b));
        tidy_keeps_apart(g, a, b);
        lemma_in_columns(g, a);
        lemma_in_columns(g, b);
        lemma_shown_is_no_stray(g, a);
        lemma_shown_is_no_stray(g, b);
        let m = h.nodes[a];
        let n = h.nodes[b];
        assert(tidy::seat(g, m, a, carry));
        assert(tidy::seat(g, n, b, carry));
        assert(h.place_of(a) == cell(g.column(a), g.middle(a)));
        assert(h.place_of(b) == cell(g.column(b), g.middle(b)));
    }
}

proof fn lemma_in_columns(g: GraphModel, x: u64)
    requires
        g.grounded(),
        g.shown(x),
    ensures
        -(MAX_TIDY_DEPTH as int) <= g.column(x) <= MAX_TIDY_DEPTH,
{
    if x != g.root {
        let d = g.level(x);
        assert(g.laid(x, d));
        lemma_lane(g, x, d);
        let s = g.lane(x, d);
        assert(-(d as int) <= s * d <= d) by (nonlinear_arith)
            requires
                s == 1 || s == -1,
                d >= 0,
        ;
    }
}

/// The root is in the middle of a tidy map. What floats stays where it was.
pub proof fn the_root_is_in_the_middle<C: Fn(Coord, Coord, Coord) -> Coord>(
    g: GraphModel,
    h: GraphModel,
    carry: &C,
    x: u64,
)
    requires
        tidy::tidied(g, h, carry),
        g.has(g.root),
    ensures
        !g.strays().contains(g.root) ==> h.nodes[g.root].x.rank() == 0 && h.nodes[g.root].y.rank()
            == 0,
        g.has(x) && g.nodes[x].parent is None && !g.seated(x) ==> (h.nodes[x].x, h.nodes[x].y) == (
            g.nodes[x].x,
            g.nodes[x].y,
        ),
{
    if !g.strays().contains(g.root) {
        assert(g.shown(g.root));
        assert(tidy::seat(g, h.nodes[g.root], g.root, carry));
    }
    if g.has(x) && g.nodes[x].parent is None && !g.seated(x) {
        assert(!g.strays().contains(x));
        assert(tidy::seat(g, h.nodes[x], x, carry));
    }
}

/// A leaf takes one row, and so does a branch that is folded. Any other takes the rows of
/// its children together.
pub proof fn a_fold_takes_one_row(g: GraphModel, x: u64, d: nat)
    requires
        g.nodes.dom().finite(),
    ensures
        g.collapsed(x) ==> g.rows(x, d) == 1,
        (forall|c: u64| #[trigger] g.has(c) ==> g.nodes[c].parent != Some(x)) ==> g.rows(x, d) == 1,
        !g.collapsed(x) && ids::listed(g.children(x)).len() > 0 && d < MAX_TIDY_DEPTH
            ==> g.rows(x, d) == g.rows_of(ids::listed(g.children(x)), d + 1),
{
    if forall|c: u64| #[trigger] g.has(c) ==> g.nodes[c].parent != Some(x) {
        let s = g.children(x);
        assert(s.finite());
        ids::lemma_has_list(s);
        ids::lemma_lists_len(ids::listed(s), s);
        if ids::listed(s).len() > 0 {
            let c = ids::listed(s)[0];
            assert(ids::listed(s).contains(c));
            assert(g.has(c));
        }
    }
}

/// Children stand one below the other in the order in which they were made, as close as
/// their rows allow, and their parent stands in the middle of them.
pub proof fn children_stand_in_order_around_their_parent(g: GraphModel, p: u64, d: nat, i: int)
    requires
        g.nodes.dom().finite(),
        g.laid(p, d),
        d < MAX_TIDY_DEPTH,
        !g.collapsed(p),
        0 <= i < ids::listed(g.children(p)).len(),
    ensures
        ({
            let v = ids::listed(g.children(p));
            let n = v.len() as int;
            &&& i + 1 < n ==> v[i] < v[i + 1] && g.row_top(v[i + 1], d + 1) == g.row_top(
                v[i],
                d + 1,
            ) + 2 * g.rows(v[i], d + 1)
            &&& 2 * (g.row_top(p, d) + g.rows(p, d)) == g.row_top(v[0], d + 1) + (g.row_top(
                v[n - 1],
                d + 1,
            ) + 2 * g.rows(v[n - 1], d + 1))
        }),
{
    let s = g.children(p);
    let v = ids::listed(s);
    let n = v.len() as int;
    assert(s.finite());
    ids::lemma_has_list(s);
    ids::lemma_lists_len(v, s);
    lemma_top_of_child(g, p, d, 0);
    lemma_top_of_child(g, p, d, n - 1);
    lemma_top_of_child(g, p, d, i);
    assert(v.take(0) =~= seq![]);
    assert(v.take(n).drop_last() =~= v.take(n - 1));
    assert(v.take(n) =~= v);
    assert(v.take(n).last() == v[n - 1]);
    assert(g.branches(p) == v);
    if i + 1 < n {
        lemma_top_of_child(g, p, d, i + 1);
        assert(v.take(i + 1).drop_last() =~= v.take(i));
        assert(v.take(i + 1).last() == v[i]);
    }
}

proof fn lemma_top_of_child(g: GraphModel, p: u64, d: nat, i: int)
    requires
        g.nodes.dom().finite(),
        g.laid(p, d),
        0 <= i < ids::listed(g.children(p)).len(),
    ensures
        g.row_top(ids::listed(g.children(p))[i], d + 1) == g.row_top(p, d) + 2 * g.rows_of(
            ids::listed(g.children(p)).take(i),
            d + 1,
        ),
{
    let s = g.children(p);
    let v = ids::listed(s);
    assert(s.finite());
    ids::lemma_has_list(s);
    ids::lemma_lists_len(v, s);
    let x = v[i];
    assert(v.contains(x));
    assert(s.contains(x));
    assert(g.parent_of(x) == Some(p));
    assert(v.index_of(x) == i) by {
        let j = v.index_of(x);
        assert(0 <= j < v.len() && v[j] == x);
    }
}

// ---------------------------------------------------------------------------
// Places
// ---------------------------------------------------------------------------

/// A node in sight stands as many columns out as it is links below the root, on the side of
/// the branch that it is in, and in the middle of its rows.
pub proof fn a_node_stands_in_its_column<C: Fn(Coord, Coord, Coord) -> Coord>(
    g: GraphModel,
    h: GraphModel,
    carry: &C,
    x: u64,
    d: nat,
)
    requires
        g.nodes.dom().finite(),
        g.grounded(),
        tidy::tidied(g, h, carry),
        g.laid(x, d),
    ensures
        h.nodes[x].x == coord::spec_whole(TIDY_COL * d) || h.nodes[x].x == coord::spec_whole(
            -(TIDY_COL * d),
        ),
        d == 1 && g.right_side().contains(x) ==> h.nodes[x].x == coord::spec_whole(TIDY_COL as int),
        d == 1 && !g.right_side().contains(x) ==> h.nodes[x].x == coord::spec_whole(-TIDY_COL),
        h.nodes[x].y == coord::spec_whole(HALF_ROW * (g.row_top(x, d) + g.rows(x, d))),
{
    tidy::lemma_level(g, x, d);
    lemma_lane(g, x, d);
    assert(g.shown(x));
    assert(tidy::seat(g, h.nodes[x], x, carry));
    assert(TIDY_COL * (1int * d) == TIDY_COL * d && TIDY_COL * (-1int * d) == -(TIDY_COL * d))
        by (nonlinear_arith);
    assert(1int * 1 == 1 && -1int * 1 == -1) by (nonlinear_arith);
}

/// The rows of a branch are within those of its side.
proof fn lemma_rows_bound(g: GraphModel, x: u64, d: nat, most: int)
    requires
        g.nodes.dom().finite(),
        g.laid(x, d),
        g.rows_of(g.right_side(), 1) <= most,
        g.rows_of(g.left_side(), 1) <= most,
    ensures
        g.row_top(x, d) + 2 * g.rows(x, d) <= most,
        -most <= g.row_top(x, d),
    decreases d,
{
    lemma_parent_laid(g, x, d);
    if d == 1 {
        lemma_on_a_side(g, x);
        let side = if g.right_side().contains(x) {
            g.right_side()
        } else {
            g.left_side()
        };
        let i = side.index_of(x);
        assert(0 <= i < side.len() && side[i] == x);
        assert(side.take(i + 1).drop_last() =~= side.take(i));
        assert(side.take(i + 1).last() == x);
        lemma_rows_prefix(g, side, i + 1, side.len() as int, 1);
        assert(side.take(side.len() as int) =~= side);
    } else {
        rows_are_nested(g, x, d);
        lemma_rows_bound(g, g.parent_of(x)->0, (d - 1) as nat, most);
    }
}

/// What hangs somewhere and has no place stands in one column under the root, below
/// everything that has one, and each a whole row below the one before.
pub proof fn strays_stand_below_the_map<C: Fn(Coord, Coord, Coord) -> Coord>(
    g: GraphModel,
    h: GraphModel,
    carry: &C,
    x: u64,
    i: int,
)
    requires
        g.nodes.dom().finite(),
        g.grounded(),
        tidy::tidied(g, h, carry),
        g.shown(x),
        0 <= i < ids::listed(g.strays()).len(),
    ensures
        h.nodes[ids::listed(g.strays())[i]].x.rank() == 0,
        h.nodes[ids::listed(g.strays())[i]].y == coord::spec_whole(
            HALF_ROW * (g.strays_top() + 2 * i),
        ),
        g.strays_top() >= g.middle(x) + 5,
{
    let stray = ids::listed(g.strays())[i];
    if x != g.root {
        let d = g.level(x);
        assert(g.laid(x, d));
        let r = g.rows_of(g.right_side(), 1) as int;
        let l = g.rows_of(g.left_side(), 1) as int;
        lemma_rows_bound(
            g,
            x,
            d,
            if r > l {
                r
            } else {
                l
            },
        );
        tidy::lemma_rows_positive(g, x, d);
    }
}

/// What a fold hides keeps its distance from the fold: it goes along where that goes, and
/// stays where that stays.
pub proof fn what_is_hidden_goes_along<C: Fn(Coord, Coord, Coord) -> Coord>(
    g: GraphModel,
    h: GraphModel,
    carry: &C,
    x: u64,
    y: u64,
)
    requires
        g.grounded(),
        tidy::tidied(g, h, carry),
        g.carrier(x, y),
        g.has(y),
        !g.strays().contains(y),
    ensures
        h.place_of(y) == g.place_of(y) ==> h.place_of(x) == g.place_of(x),
        h.place_of(y) != g.place_of(y) ==> carry.ensures(
            (g.nodes[x].x, g.nodes[y].x, h.nodes[y].x),
            h.nodes[x].x,
        ) && carry.ensures((g.nodes[x].y, g.nodes[y].y, h.nodes[y].y), h.nodes[x].y),
{
    tidy::lemma_one_carrier(g, x, y);
    assert(!g.strays().contains(x));
    assert(tidy::seat(g, h.nodes[x], x, carry));
    assert(tidy::seat(g, h.nodes[y], y, carry));
}

// ---------------------------------------------------------------------------
// The deal
// ---------------------------------------------------------------------------

/// Dealing keeps the sides even: neither is longer than the other by more than a branch,
/// and the first branch is on the right.
pub proof fn the_sides_are_even(g: GraphModel, v: Seq<u64>, most: int)
    requires
        most >= 0,
        forall|i: int| 0 <= i < v.len() ==> g.rows(#[trigger] v[i], 1) <= most,
    ensures
        g.rows_of(g.dealt(v).0, 1) - g.rows_of(g.dealt(v).1, 1) <= most,
        g.rows_of(g.dealt(v).1, 1) - g.rows_of(g.dealt(v).0, 1) <= most,
        v.len() > 0 ==> g.dealt(v).0.len() > 0 && g.dealt(v).0[0] == v[0],
        g.dealt(v).0.len() + g.dealt(v).1.len() == v.len(),
    decreases v.len(),
{
    if v.len() > 0 {
        let w = v.drop_last();
        assert forall|i: int| 0 <= i < w.len() implies g.rows(#[trigger] w[i], 1) <= most by {
            assert(w[i] == v[i]);
        }
        the_sides_are_even(g, w, most);
        let (r, l) = g.dealt(w);
        assert(r.push(v.last()).drop_last() =~= r);
        assert(l.push(v.last()).drop_last() =~= l);
        assert(v.last() == v[v.len() - 1]);
        if w.len() == 0 {
            assert(r.len() == 0 && l.len() == 0);
        }
    }
}

/// The bigger of two branches is dealt before the other, and of two that are alike the
/// older.
pub proof fn the_biggest_is_dealt_first(g: GraphModel, i: int, j: int)
    requires
        g.nodes.dom().finite(),
        0 <= i < j < g.sized().len(),
    ensures
        ({
            let v = g.sized();
            g.rows(v[i], 1) > g.rows(v[j], 1) || (g.rows(v[i], 1) == g.rows(v[j], 1) && v[i] < v[j])
        }),
{
    let s = g.children(g.root);
    assert(s.finite());
    order::lemma_has_arrangement(s, g.by_size());
    let v = g.sized();
    assert(order::arranges(v, s, g.by_size()));
    assert(order::before(g.by_size()(v[i]), g.by_size()(v[j])));
}

/// Where the map can read in its own order, a branch is on the right whenever the rest can
/// still be dealt then.
pub proof fn the_right_comes_first(
    s: Seq<nat>,
    i: int,
    r: int,
    last: bool,
    rt: int,
    lt: int,
)
    requires
        0 <= i < s.len(),
    ensures
        deal::picks(s, i, r, last, rt, lt).len() > 0,
        deal::picks(s, i, r, last, rt, lt)[0] <==> deal::goes(s, i, r, last, rt, lt, true),
{
}

} // verus!
