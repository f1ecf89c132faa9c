//! The rows on the two sides of a tidy map.

use vstd::prelude::*;
use crate::graph::deal;
use crate::graph::model::GraphModel;
use crate::graph::order;
use crate::graph::tidy;
use crate::graph::tidy_laws;
use crate::ids;

verus! {

/// The sizes of some branches of the root.
pub open spec fn sizes(g: GraphModel, v: Seq<u64>) -> Seq<nat> {
    v.map_values(|k: u64| g.rows(k, 1))
}

pub proof fn lemma_picked_distinct(v: Seq<u64>, p: Seq<bool>, side: bool)
    requires
        v.no_duplicates(),
    ensures
        deal::picked(v, p, side).no_duplicates(),
    decreases v.len(),
{
    if v.len() > 0 {
        let w = v.drop_last();
        assert(w.no_duplicates());
        lemma_picked_distinct(w, p, side);
        deal::lemma_picked(w, p, side);
        let rest = deal::picked(w, p, side);
        assert(!rest.contains(v.last())) by {
            if rest.contains(v.last()) {
                let i = choose|i: int|
                    0 <= i < w.len() && p[i] == side && #[trigger] w[i] == v.last();
                assert(v[i] == v[v.len() - 1]);
            }
        }
        let all = deal::picked(v, p, side);
        assert forall|i: int, j: int| 0 <= i < all.len() && 0 <= j < all.len() && i != j implies all[i]
            != all[j] by {
            if i < rest.len() {
                assert(rest.contains(rest[i]));
            }
            if j < rest.len() {
                assert(rest.contains(rest[j]));
            }
        }
    }
}

pub proof fn lemma_picked_rows(g: GraphModel, v: Seq<u64>, p: Seq<bool>, k: int)
    requires
        0 <= k <= v.len(),
    ensures
        g.rows_of(deal::picked(v.take(k), p, true), 1) == deal::right_rows(sizes(g, v), p, k),
        g.rows_of(deal::picked(v.take(k), p, false), 1) == deal::upto(sizes(g, v), k)
            - deal::right_rows(sizes(g, v), p, k),
    decreases k,
{
    if k > 0 {
        lemma_picked_rows(g, v, p, k - 1);
        assert(v.take(k).drop_last() =~= v.take(k - 1));
        let a = deal::picked(v.take(k - 1), p, true);
        let b = deal::picked(v.take(k - 1), p, false);
        assert(a.push(v[k - 1]).drop_last() =~= a);
        assert(b.push(v[k - 1]).drop_last() =~= b);
        assert(sizes(g, v)[k - 1] == g.rows(v[k - 1], 1));
    }
}

proof fn lemma_rows_without(g: GraphModel, w: Seq<u64>, j: int, d: nat)
    requires
        0 <= j < w.len(),
    ensures
        g.rows_of(w, d) == g.rows_of(w.remove(j), d) + g.rows(w[j], d),
    decreases w.len(),
{
    if j == w.len() - 1 {
        assert(w.remove(j) =~= w.drop_last());
    } else {
        let x = w.drop_last();
        lemma_rows_without(g, x, j, d);
        assert(w.remove(j).drop_last() =~= x.remove(j));
        assert(w.remove(j).last() == w.last());
    }
}

/// Without the last of one list, and the same one of another, two lists still
/// hold the same.
pub proof fn lemma_one_less(v: Seq<u64>, w: Seq<u64>) -> (j: int)
    requires
        v.len() > 0,
        v.no_duplicates(),
        w.no_duplicates(),
        forall|x: u64| #[trigger] v.contains(x) <==> w.contains(x),
    ensures
        0 <= j < w.len(),
        w[j] == v.last(),
        w.remove(j).no_duplicates(),
        v.drop_last().no_duplicates(),
        forall|x: u64| #[trigger] v.drop_last().contains(x) <==> w.remove(j).contains(x),
{
    assert(v.contains(v.last())) by {
        assert(v[v.len() - 1] == v.last());
    }
    assert(w.contains(v.last()));
    let j = choose|j: int| 0 <= j < w.len() && w[j] == v.last();
    let a = v.drop_last();
    let b = w.remove(j);
    assert forall|x: u64| #[trigger] a.contains(x) <==> b.contains(x) by {
        if a.contains(x) {
            let k = choose|k: int| 0 <= k < a.len() && a[k] == x;
            assert(v[k] == x && v[v.len() - 1] != x);
            assert(v.contains(x));
            assert(w.contains(x));
            let m = choose|m: int| 0 <= m < w.len() && w[m] == x;
            assert(b[if m < j {
                m
            } else {
                m - 1
            }] == x);
        }
        if b.contains(x) {
            let k = choose|k: int| 0 <= k < b.len() && b[k] == x;
            let m = if k < j {
                k
            } else {
                k + 1
            };
            assert(w[m] == x && m != j);
            assert(w.contains(x));
            assert(v.contains(x));
            let n = choose|n: int| 0 <= n < v.len() && v[n] == x;
            assert(n < v.len() - 1) by {
                if n == v.len() - 1 {
                    assert(w[m] == w[j]);
                }
            }
            assert(a[n] == x);
        }
    }
    assert(b.no_duplicates()) by {
        assert forall|k: int, m: int| 0 <= k < b.len() && 0 <= m < b.len() && k != m implies b[k]
            != b[m] by {
            let k2 = if k < j {
                k
            } else {
                k + 1
            };
            let m2 = if m < j {
                m
            } else {
                m + 1
            };
            assert(w[k2] != w[m2]);
        }
    }
    j
}

/// The rows of some branches do not depend on their order.
proof fn lemma_rows_any_order(g: GraphModel, v: Seq<u64>, w: Seq<u64>, d: nat)
    requires
        v.no_duplicates(),
        w.no_duplicates(),
        forall|x: u64| #[trigger] v.contains(x) <==> w.contains(x),
    ensures
        g.rows_of(v, d) == g.rows_of(w, d),
    decreases v.len(),
{
    if v.len() == 0 {
        if w.len() > 0 {
            assert(w.contains(w[0]));
            assert(v.contains(w[0]));
        }
    } else {
        let j = lemma_one_less(v, w);
        lemma_rows_any_order(g, v.drop_last(), w.remove(j), d);
        lemma_rows_without(g, w, j, d);
    }
}

/// The branches of the root in the order in which they are dealt.
pub proof fn lemma_sized(g: GraphModel)
    requires
        g.nodes.dom().finite(),
        !g.collapsed(g.root),
    ensures
        g.sized().no_duplicates(),
        forall|x: u64| #[trigger] g.sized().contains(x) <==> g.children(g.root).contains(x),
        vstd::relations::sorted_by(sizes(g, g.sized()), |a: nat, b: nat| a >= b),
{
    let s = g.children(g.root);
    assert(s.finite());
    order::lemma_has_arrangement(s, g.by_size());
    let v = g.sized();
    order::lemma_arranges_distinct(v, s, g.by_size());
    let z = sizes(g, v);
    let leq = |a: nat, b: nat| a >= b;
    assert forall|i: int, j: int| 0 <= i < j < z.len() implies #[trigger] leq(z[i], z[j]) by {
        assert(order::before((g.by_size())(v[i]), (g.by_size())(v[j])));
    }
}

proof fn lemma_dealt_distinct(g: GraphModel, v: Seq<u64>)
    requires
        v.no_duplicates(),
    ensures
        g.dealt(v).0.no_duplicates(),
        g.dealt(v).1.no_duplicates(),
    decreases v.len(),
{
    if v.len() > 0 {
        let w = v.drop_last();
        assert(w.no_duplicates());
        lemma_dealt_distinct(g, w);
        tidy_laws::lemma_dealt(g, w);
        let (r, l) = g.dealt(w);
        assert(!w.contains(v.last())) by {
            if w.contains(v.last()) {
                let k = choose|k: int| 0 <= k < w.len() && w[k] == v.last();
                assert(v[k] == v[v.len() - 1]);
            }
        }
        assert(!r.contains(v.last()) && !l.contains(v.last()));
        lemma_push_distinct(r, v.last());
        lemma_push_distinct(l, v.last());
    }
}

proof fn lemma_push_distinct(v: Seq<u64>, x: u64)
    requires
        v.no_duplicates(),
        !v.contains(x),
    ensures
        v.push(x).no_duplicates(),
{
    let w = v.push(x);
    assert forall|i: int, j: int| 0 <= i < w.len() && 0 <= j < w.len() && i != j implies w[i]
        != w[j] by {
        if i == v.len() {
            assert(v.contains(v[j]));
        } else if j == v.len() {
            assert(v.contains(v[i]));
        }
    }
}

/// Each side has the rows that it was dealt.
pub proof fn lemma_side_rows(g: GraphModel)
    requires
        g.nodes.dom().finite(),
    ensures
        g.rows_of(g.right_side(), 1) == g.rows_of(g.dealt(g.sized()).0, 1),
        g.rows_of(g.left_side(), 1) == g.rows_of(g.dealt(g.sized()).1, 1),
{
    let v = g.branches(g.root);
    let p = g.on_right();
    let (d, e) = g.dealt(g.sized());
    if g.collapsed(g.root) {
        assert(g.right_side() =~= Seq::<u64>::empty());
        assert(g.left_side() =~= Seq::<u64>::empty());
    } else {
        assert(g.children(g.root).finite());
        ids::lemma_has_list(g.children(g.root));
        ids::lemma_lists_len(v, g.children(g.root));
        lemma_sized(g);
        assert(v.take(v.len() as int) =~= v);
        assert(g.branch_sizes() =~= sizes(g, v));
        lemma_picked_rows(g, v, p, v.len() as int);
        if g.reads_in_order() {
            deal::lemma_picks(g.branch_sizes(), g.right_total(), g.left_total());
        } else {
            tidy_laws::lemma_dealt(g, g.sized());
            lemma_dealt_distinct(g, g.sized());
            deal::lemma_picked(v, p, true);
            lemma_picked_distinct(v, p, true);
            assert forall|x: u64| #[trigger] g.right_side().contains(x) <==> d.contains(x) by {
                if d.contains(x) {
                    assert(g.sized().contains(x));
                    assert(g.children(g.root).contains(x));
                    assert(v.contains(x));
                    let i = choose|i: int| 0 <= i < v.len() && v[i] == x;
                    assert(p[i] == true);
                }
            }
            lemma_rows_any_order(g, g.right_side(), d, 1);
        }
        // What is not on the right is on the left.
        lemma_dealt_rows(g, g.sized());
        assert forall|x: u64| #[trigger] v.contains(x) <==> g.sized().contains(x) by {
            assert(g.children(g.root).contains(x) <==> g.sized().contains(x));
        }
        lemma_rows_any_order(g, v, g.sized(), 1);
        tidy::lemma_upto_rows(g, v, v.len() as int);
    }
}

/// Dealing loses no rows.
proof fn lemma_dealt_rows(g: GraphModel, v: Seq<u64>)
    ensures
        g.rows_of(g.dealt(v).0, 1) + g.rows_of(g.dealt(v).1, 1) == g.rows_of(v, 1),
    decreases v.len(),
{
    if v.len() > 0 {
        let w = v.drop_last();
        lemma_dealt_rows(g, w);
        let (r, l) = g.dealt(w);
        assert(r.push(v.last()).drop_last() =~= r);
        assert(l.push(v.last()).drop_last() =~= l);
    }
}

/// If every one of some branches takes at most `most` rows, the sides that they are
/// dealt to differ by no more.
proof fn lemma_dealt_evenly(g: GraphModel, v: Seq<u64>, most: nat)
    requires
        forall|i: int| 0 <= i < v.len() ==> g.rows(#[trigger] v[i], 1) <= most,
    ensures
        ({
            let (r, l) = g.dealt(v);
            &&& g.rows_of(r, 1) <= g.rows_of(l, 1) + most
            &&& g.rows_of(l, 1) <= g.rows_of(r, 1) + most
        }),
    decreases v.len(),
{
    if v.len() > 0 {
        let w = v.drop_last();
        assert forall|i: int| 0 <= i < w.len() implies g.rows(#[trigger] w[i], 1) <= most by {
            assert(w[i] == v[i]);
        }
        lemma_dealt_evenly(g, w, most);
        let (r, l) = g.dealt(w);
        assert(v[v.len() - 1] == v.last());
        assert(r.push(v.last()).drop_last() =~= r);
        assert(l.push(v.last()).drop_last() =~= l);
    }
}

/// The two sides of a tidy map differ by no more than one branch: if every branch
/// of the root takes at most `most` rows, so does the difference.
pub proof fn tidy_balances_sides(g: GraphModel, most: nat)
    requires
        g.nodes.dom().finite(),
        forall|c: u64| #[trigger] g.children(g.root).contains(c) ==> g.rows(c, 1) <= most,
    ensures
        g.rows_of(g.right_side(), 1) <= g.rows_of(g.left_side(), 1) + most,
        g.rows_of(g.left_side(), 1) <= g.rows_of(g.right_side(), 1) + most,
{
    let v = g.sized();
    lemma_side_rows(g);
    if !g.collapsed(g.root) {
        lemma_sized(g);
        assert forall|i: int| 0 <= i < v.len() implies g.rows(#[trigger] v[i], 1) <= most by {
            assert(v.contains(v[i]));
            assert(g.children(g.root).contains(v[i]));
        }
    }
    lemma_dealt_evenly(g, v, most);
}

} // verus!
