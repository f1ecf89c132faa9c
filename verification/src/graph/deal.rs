//! Dealing the branches of the root to both sides so that the map reads in its
//! own order.

use vstd::prelude::*;
use crate::coord;
use crate::coord::Coord;
use crate::graph::tidy::{HALF_ROW, TIDY_COL};

verus! {

/// Where a branch is read: how far down its middle is, then how far to the right.
/// Above it on its side are `before` rows, it takes `rows`, and the side has
/// `total`.
pub open spec fn spot(right: bool, before: int, rows: int, total: int) -> (int, int) {
    (
        coord::spec_whole(HALF_ROW * (2 * before - total + rows)).rank(),
        coord::spec_whole(
            if right {
                TIDY_COL as int
            } else {
                -TIDY_COL
            },
        ).rank(),
    )
}

/// What is at `b` is read after what is at `a`, or the two are in one place.
pub open spec fn reads_on(a: (int, int), b: (int, int)) -> bool {
    a.0 < b.0 || (a.0 == b.0 && a.1 <= b.1)
}

/// The rows of the first `k` branches.
pub open spec fn upto(s: Seq<nat>, k: int) -> int
    decreases k,
{
    if k <= 0 {
        0
    } else {
        upto(s, k - 1) + s[k - 1]
    }
}

/// Where branch `i` is read on one side, with `r` rows on the right before it.
pub open spec fn at(s: Seq<nat>, i: int, r: int, right: bool, rt: int, lt: int) -> (int, int) {
    if right {
        spot(true, r, s[i] as int, rt)
    } else {
        spot(false, upto(s, i) - r, s[i] as int, lt)
    }
}

/// Branch `i` on one side is read after the one before it, which is on the side
/// `last`, with `r` rows on the right so far.
pub open spec fn follows(
    s: Seq<nat>,
    i: int,
    r: int,
    last: bool,
    rt: int,
    lt: int,
    right: bool,
) -> bool {
    i == 0 || reads_on(
        at(
            s,
            i - 1,
            if last {
                r - s[i - 1]
            } else {
                r
            },
            last,
            rt,
            lt,
        ),
        at(s, i, r, right, rt, lt),
    )
}

/// The branches from `i` on can be dealt so that they are read in order and the
/// right has `rt` rows in the end.
pub open spec fn fits(s: Seq<nat>, i: int, r: int, last: bool, rt: int, lt: int) -> bool
    decreases s.len() - i, 1nat,
{
    if i >= s.len() {
        r == rt
    } else {
        goes(s, i, r, last, rt, lt, true) || goes(s, i, r, last, rt, lt, false)
    }
}

/// Branch `i` can go to one side.
pub open spec fn goes(
    s: Seq<nat>,
    i: int,
    r: int,
    last: bool,
    rt: int,
    lt: int,
    right: bool,
) -> bool
    decreases s.len() - i, 0nat,
{
    i < s.len() && follows(s, i, r, last, rt, lt, right) && fits(
        s,
        i + 1,
        if right {
            r + s[i]
        } else {
            r
        },
        right,
        rt,
        lt,
    )
}

/// The sides that the branches from `i` on get: the right where it can be.
pub open spec fn picks(s: Seq<nat>, i: int, r: int, last: bool, rt: int, lt: int) -> Seq<bool>
    decreases s.len() - i,
{
    if i >= s.len() {
        seq![]
    } else if goes(s, i, r, last, rt, lt, true) {
        seq![true] + picks(s, i + 1, r + s[i], true, rt, lt)
    } else {
        seq![false] + picks(s, i + 1, r, false, rt, lt)
    }
}

/// The rows on the right among the first `k` branches of a deal.
pub open spec fn right_rows(s: Seq<nat>, p: Seq<bool>, k: int) -> int
    decreases k,
{
    if k <= 0 {
        0
    } else {
        right_rows(s, p, k - 1) + if p[k - 1] {
            s[k - 1] as int
        } else {
            0
        }
    }
}

/// Branch `k` is read after the one before it.
pub open spec fn in_step(s: Seq<nat>, p: Seq<bool>, rt: int, lt: int, k: int) -> bool {
    reads_on(
        at(s, k - 1, right_rows(s, p, k - 1), p[k - 1], rt, lt),
        at(s, k, right_rows(s, p, k), p[k], rt, lt),
    )
}

/// A deal by which the branches are read in order, with `rt` rows on the right.
pub open spec fn orderly(s: Seq<nat>, p: Seq<bool>, rt: int, lt: int) -> bool {
    &&& p.len() == s.len()
    &&& right_rows(s, p, s.len() as int) == rt
    &&& forall|k: int| 0 < k < s.len() ==> #[trigger] in_step(s, p, rt, lt, k)
}

/// Where there is an orderly deal, one is found.
pub proof fn lemma_fits(s: Seq<nat>, p: Seq<bool>, i: int, last: bool, rt: int, lt: int)
    requires
        orderly(s, p, rt, lt),
        0 <= i <= s.len(),
        i > 0 ==> last == p[i - 1],
    ensures
        fits(s, i, right_rows(s, p, i), last, rt, lt),
    decreases s.len() - i,
{
    if i < s.len() {
        lemma_fits(s, p, i + 1, p[i], rt, lt);
        if i > 0 {
            assert(in_step(s, p, rt, lt, i));
        }
        assert(goes(s, i, right_rows(s, p, i), last, rt, lt, p[i]));
    }
}

proof fn lemma_picks_from(
    s: Seq<nat>,
    p: Seq<bool>,
    i: int,
    r: int,
    last: bool,
    rt: int,
    lt: int,
)
    requires
        0 <= i <= s.len(),
        p.len() == s.len(),
        r == right_rows(s, p, i),
        i > 0 ==> last == p[i - 1],
        fits(s, i, r, last, rt, lt),
        p.skip(i) == picks(s, i, r, last, rt, lt),
    ensures
        right_rows(s, p, s.len() as int) == rt,
        forall|k: int| 0 < k < s.len() && i <= k ==> #[trigger] in_step(s, p, rt, lt, k),
    decreases s.len() - i,
{
    if i < s.len() {
        let right = goes(s, i, r, last, rt, lt, true);
        assert(p.skip(i)[0] == p[i]);
        assert(p[i] == right);
        let r2 = if right {
            r + s[i]
        } else {
            r
        };
        assert(goes(s, i, r, last, rt, lt, right));
        assert(p.skip(i + 1) =~= p.skip(i).skip(1));
        assert(p.skip(i).skip(1) =~= picks(s, i + 1, r2, right, rt, lt));
        lemma_picks_from(s, p, i + 1, r2, right, rt, lt);
        assert forall|k: int| 0 < k < s.len() && i <= k implies #[trigger] in_step(
            s,
            p,
            rt,
            lt,
            k,
        ) by {
            if k == i {
                assert(follows(s, i, r, last, rt, lt, right));
            }
        }
    }
}

proof fn lemma_picks_len(s: Seq<nat>, i: int, r: int, last: bool, rt: int, lt: int)
    requires
        0 <= i <= s.len(),
    ensures
        picks(s, i, r, last, rt, lt).len() == s.len() - i,
    decreases s.len() - i,
{
    if i < s.len() {
        if goes(s, i, r, last, rt, lt, true) {
            lemma_picks_len(s, i + 1, r + s[i], true, rt, lt);
        } else {
            lemma_picks_len(s, i + 1, r, false, rt, lt);
        }
    }
}

/// What is found is an orderly deal.
pub proof fn lemma_picks(s: Seq<nat>, rt: int, lt: int)
    ensures
        picks(s, 0, 0, false, rt, lt).len() == s.len(),
        fits(s, 0, 0, false, rt, lt) ==> orderly(s, picks(s, 0, 0, false, rt, lt), rt, lt),
{
    let p = picks(s, 0, 0, false, rt, lt);
    lemma_picks_len(s, 0, 0, false, rt, lt);
    if fits(s, 0, 0, false, rt, lt) {
        assert(p.skip(0) =~= p);
        lemma_picks_from(s, p, 0, 0, false, rt, lt);
    }
}

/// The right never has more rows than it gets, nor fewer than what is left allows.
pub proof fn lemma_within(s: Seq<nat>, i: int, r: int, last: bool, rt: int, lt: int)
    requires
        0 <= i <= s.len(),
        fits(s, i, r, last, rt, lt),
    ensures
        r <= rt <= r + upto(s, s.len() as int) - upto(s, i),
    decreases s.len() - i,
{
    if i < s.len() {
        let right = goes(s, i, r, last, rt, lt, true);
        assert(goes(s, i, r, last, rt, lt, right));
        lemma_within(
            s,
            i + 1,
            if right {
                r + s[i]
            } else {
                r
            },
            right,
            rt,
            lt,
        );
    }
}

proof fn lemma_upto(s: Seq<nat>, i: int, j: int)
    requires
        0 <= i <= j,
    ensures
        0 <= upto(s, i) <= upto(s, j),
    decreases j,
{
    if i < j {
        lemma_upto(s, i, j - 1);
    } else if i > 0 {
        lemma_upto(s, i - 1, i - 1);
    }
}

/// Those of `v` that are on one side.
pub open spec fn picked(v: Seq<u64>, p: Seq<bool>, side: bool) -> Seq<u64>
    decreases v.len(),
{
    if v.len() == 0 {
        seq![]
    } else {
        let rest = picked(v.drop_last(), p, side);
        if p[v.len() - 1] == side {
            rest.push(v.last())
        } else {
            rest
        }
    }
}

/// What is picked is what is on that side, in order.
pub proof fn lemma_picked(v: Seq<u64>, p: Seq<bool>, side: bool)
    ensures
        forall|x: u64| #[trigger]
            picked(v, p, side).contains(x) <==> exists|i: int|
                0 <= i < v.len() && p[i] == side && #[trigger] v[i] == x,
        crate::ids::increasing(v) ==> crate::ids::increasing(picked(v, p, side)),
    decreases v.len(),
{
    if v.len() > 0 {
        let w = v.drop_last();
        let last = v.last();
        lemma_picked(w, p, side);
        let rest = picked(w, p, side);
        let all = picked(v, p, side);
        assert forall|x: u64| #[trigger] all.contains(x) <==> exists|i: int|
            0 <= i < v.len() && p[i] == side && #[trigger] v[i] == x by {
            if all.contains(x) {
                let k = choose|k: int| 0 <= k < all.len() && all[k] == x;
                if k < rest.len() {
                    assert(rest[k] == x);
                    assert(rest.contains(x));
                    let i = choose|i: int|
                        0 <= i < w.len() && p[i] == side && #[trigger] w[i] == x;
                    assert(v[i] == x);
                } else {
                    assert(v[v.len() - 1] == x);
                }
            }
            if exists|i: int| 0 <= i < v.len() && p[i] == side && #[trigger] v[i] == x {
                let i = choose|i: int| 0 <= i < v.len() && p[i] == side && #[trigger] v[i] == x;
                if i < w.len() {
                    assert(w[i] == x);
                    assert(rest.contains(x));
                    let k = choose|k: int| 0 <= k < rest.len() && rest[k] == x;
                    assert(all[k] == x);
                } else {
                    assert(all[rest.len() as int] == x);
                }
            }
        }
        if crate::ids::increasing(v) {
            assert forall|i: int, j: int| 0 <= i < j < w.len() implies #[trigger] w[i]
                < #[trigger] w[j] by {
                assert(v[i] < v[j]);
            }
            assert forall|i: int, j: int| 0 <= i < j < all.len() implies #[trigger] all[i]
                < #[trigger] all[j] by {
                if j < rest.len() {
                    assert(rest[i] < rest[j]);
                } else {
                    assert(rest.contains(rest[i]));
                    let k = choose|k: int|
                        0 <= k < w.len() && p[k] == side && #[trigger] w[k] == rest[i];
                    assert(v[k] < v[v.len() - 1]);
                }
            }
        }
    }
}

// ---------------------------------------------------------------------------
// Finding a deal
// ---------------------------------------------------------------------------

/// The sizes as numbers.
pub open spec fn sizes_of(s: Seq<usize>) -> Seq<nat> {
    s.map_values(|n: usize| n as nat)
}

fn read_at(right: bool, before: i128, rows: usize, total: usize) -> (r: (i64, i64))
    requires
        -0x2_0000_0000_0000_0000 <= before <= 0x2_0000_0000_0000_0000,
    ensures
        (r.0 as int, r.1 as int) == spot(right, before as int, rows as int, total as int),
{
    let down: i128 = HALF_ROW * (2 * before - total as i128 + rows as i128);
    let across: i128 = if right {
        TIDY_COL
    } else {
        -TIDY_COL
    };
    (Coord::whole(down).order(), Coord::whole(across).order())
}

/// What branch `i` is read after, and what it is read as.
fn step(
    s: &Vec<usize>,
    sums: &Vec<usize>,
    i: usize,
    r: usize,
    last: bool,
    rt: usize,
    lt: usize,
    right: bool,
) -> (ok: bool)
    requires
        i < s@.len(),
        r <= rt,
        sums@.len() == s@.len() + 1,
        forall|k: int| 0 <= k <= s@.len() ==> #[trigger] sums@[k] == upto(sizes_of(s@), k),
    ensures
        ok == follows(
            sizes_of(s@),
            i as int,
            r as int,
            last,
            rt as int,
            lt as int,
            right,
        ),
{
    if i == 0 {
        return true;
    }
    let ghost z = sizes_of(s@);
    assert(sums@[i as int] == upto(z, i as int));
    assert(sums@[i - 1] == upto(z, i - 1));
    let a = if last {
        read_at(true, r as i128 - s[i - 1] as i128, s[i - 1], rt)
    } else {
        read_at(false, sums[i - 1] as i128 - r as i128, s[i - 1], lt)
    };
    let b = if right {
        read_at(true, r as i128, s[i], rt)
    } else {
        read_at(false, sums[i] as i128 - r as i128, s[i], lt)
    };
    a.0 < b.0 || (a.0 == b.0 && a.1 <= b.1)
}

/// One level of the table: for every number of rows on the right, and either side
/// that the branch before it may be on, whether the branches from `i` on fit.
spec fn level(z: Seq<nat>, i: int, rt: int, lt: int, row: Seq<(bool, bool)>) -> bool {
    &&& row.len() == rt + 1
    &&& forall|r: int|
        0 <= r <= rt ==> #[trigger] row[r] == (
            fits(z, i, r, true, rt, lt),
            fits(z, i, r, false, rt, lt),
        )
}

fn fill(
    s: &Vec<usize>,
    sums: &Vec<usize>,
    i: usize,
    rt: usize,
    lt: usize,
    next: &Vec<(bool, bool)>,
) -> (row: Vec<(bool, bool)>)
    requires
        i < s@.len(),
        sums@.len() == s@.len() + 1,
        forall|k: int| 0 <= k <= s@.len() ==> #[trigger] sums@[k] == upto(sizes_of(s@), k),
        level(sizes_of(s@), i + 1, rt as int, lt as int, next@),
    ensures
        level(sizes_of(s@), i as int, rt as int, lt as int, row@),
{
    let ghost z = sizes_of(s@);
    let mut row: Vec<(bool, bool)> = Vec::new();
    let mut count: u128 = 0;
    while count <= rt as u128
        invariant
            i < s@.len(),
            z == sizes_of(s@),
            count <= rt + 1,
            sums@.len() == s@.len() + 1,
            forall|k: int| 0 <= k <= s@.len() ==> #[trigger] sums@[k] == upto(sizes_of(s@), k),
            level(z, i + 1, rt as int, lt as int, next@),
            row@.len() == count,
            forall|k: int|
                0 <= k < count ==> #[trigger] row@[k] == (
                    fits(z, i as int, k, true, rt as int, lt as int),
                    fits(z, i as int, k, false, rt as int, lt as int),
                ),
        decreases rt + 1 - count,
    {
        let r: usize = count as usize;
        let stays: bool = next[r].1;
        assert(next@[r as int] == (
            fits(z, i + 1, r as int, true, rt as int, lt as int),
            fits(z, i + 1, r as int, false, rt as int, lt as int),
        ));
        let more: bool = if s[i] <= rt - r {
            let k: usize = r + s[i];
            assert(next@[k as int] == (
                fits(z, i + 1, k as int, true, rt as int, lt as int),
                fits(z, i + 1, k as int, false, rt as int, lt as int),
            ));
            next[k].0
        } else {
            proof {
                if fits(z, i + 1, r + z[i as int], true, rt as int, lt as int) {
                    lemma_within(z, i + 1, r + z[i as int], true, rt as int, lt as int);
                }
            }
            false
        };
        assert(more == fits(z, i + 1, r + z[i as int], true, rt as int, lt as int));
        let a: bool = (more && step(s, sums, i, r, true, rt, lt, true)) || (stays && step(
            s,
            sums,
            i,
            r,
            true,
            rt,
            lt,
            false,
        ));
        let b: bool = (more && step(s, sums, i, r, false, rt, lt, true)) || (stays && step(
            s,
            sums,
            i,
            r,
            false,
            rt,
            lt,
            false,
        ));
        assert(a == fits(z, i as int, r as int, true, rt as int, lt as int)) by {
            assert(goes(z, i as int, r as int, true, rt as int, lt as int, true) == (follows(
                z,
                i as int,
                r as int,
                true,
                rt as int,
                lt as int,
                true,
            ) && more));
            assert(goes(z, i as int, r as int, true, rt as int, lt as int, false) == (follows(
                z,
                i as int,
                r as int,
                true,
                rt as int,
                lt as int,
                false,
            ) && stays));
        }
        assert(b == fits(z, i as int, r as int, false, rt as int, lt as int)) by {
            assert(goes(z, i as int, r as int, false, rt as int, lt as int, true) == (follows(
                z,
                i as int,
                r as int,
                false,
                rt as int,
                lt as int,
                true,
            ) && more));
            assert(goes(z, i as int, r as int, false, rt as int, lt as int, false) == (follows(
                z,
                i as int,
                r as int,
                false,
                rt as int,
                lt as int,
                false,
            ) && stays));
        }
        row.push((a, b));
        count = count + 1;
    }
    row
}

/// A deal by which the branches are read in order, with `rt` rows on the right,
/// if there is one.
pub fn find(s: &Vec<usize>, rt: usize, lt: usize) -> (r: Option<Vec<bool>>)
    requires
        upto(sizes_of(s@), s@.len() as int) <= usize::MAX,
    ensures
        match r {
            Some(p) => fits(sizes_of(s@), 0, 0, false, rt as int, lt as int) && p@ == picks(
                sizes_of(s@),
                0,
                0,
                false,
                rt as int,
                lt as int,
            ),
            None => !fits(sizes_of(s@), 0, 0, false, rt as int, lt as int),
        },
{
    let ghost z = sizes_of(s@);
    let n: usize = s.len();
    let mut sums: Vec<usize> = Vec::new();
    sums.push(0);
    let mut k: usize = 0;
    while k < n
        invariant
            k <= n,
            n == s@.len(),
            z == sizes_of(s@),
            upto(z, n as int) <= usize::MAX,
            sums@.len() == k + 1,
            forall|j: int| 0 <= j <= k ==> #[trigger] sums@[j] == upto(z, j),
        decreases n - k,
    {
        proof {
            lemma_upto(z, k + 1, n as int);
            assert(sums@[k as int] == upto(z, k as int));
        }
        let next: usize = sums[k] + s[k];
        sums.push(next);
        k = k + 1;
    }
    // From the last branch back.
    let mut table: Vec<Vec<(bool, bool)>> = Vec::new();
    let mut end: Vec<(bool, bool)> = Vec::new();
    let mut count: u128 = 0;
    while count <= rt as u128
        invariant
            count <= rt + 1,
            end@.len() == count,
            forall|j: int| 0 <= j < count ==> #[trigger] end@[j] == (j == rt, j == rt),
        decreases rt + 1 - count,
    {
        let full = count == rt as u128;
        end.push((full, full));
        count = count + 1;
    }
    assert(level(z, n as int, rt as int, lt as int, end@));
    table.push(end);
    let mut m: usize = 0;
    while m < n
        invariant
            m <= n,
            n == s@.len(),
            z == sizes_of(s@),
            sums@.len() == n + 1,
            forall|j: int| 0 <= j <= n ==> #[trigger] sums@[j] == upto(z, j),
            table@.len() == m + 1,
            forall|j: int|
                0 <= j <= m ==> level(z, n - j, rt as int, lt as int, (#[trigger] table@[j])@),
        decreases n - m,
    {
        assert(level(z, n - m, rt as int, lt as int, table@[m as int]@));
        let row = fill(s, &sums, n - m - 1, rt, lt, &table[m]);
        table.push(row);
        m = m + 1;
    }
    assert(level(z, 0, rt as int, lt as int, table@[n as int]@));
    assert(table@[n as int]@[0] == (
        fits(z, 0, 0, true, rt as int, lt as int),
        fits(z, 0, 0, false, rt as int, lt as int),
    ));
    if !table[n][0].1 {
        return None;
    }
    let mut p: Vec<bool> = Vec::new();
    let mut i: usize = 0;
    let mut on: usize = 0;
    let mut last = false;
    assert(p@ + picks(z, 0, 0, false, rt as int, lt as int) =~= picks(
        z,
        0,
        0,
        false,
        rt as int,
        lt as int,
    ));
    while i < n
        invariant
            i <= n,
            n == s@.len(),
            z == sizes_of(s@),
            on <= rt,
            sums@.len() == n + 1,
            forall|j: int| 0 <= j <= n ==> #[trigger] sums@[j] == upto(z, j),
            table@.len() == n + 1,
            forall|j: int|
                0 <= j <= n ==> level(z, n - j, rt as int, lt as int, (#[trigger] table@[j])@),
            fits(z, i as int, on as int, last, rt as int, lt as int),
            p@ + picks(z, i as int, on as int, last, rt as int, lt as int) == picks(
                z,
                0,
                0,
                false,
                rt as int,
                lt as int,
            ),
        decreases n - i,
    {
        let ghost was = p@;
        let ghost here = picks(z, i as int, on as int, last, rt as int, lt as int);
        assert(level(z, i + 1, rt as int, lt as int, table@[n - i - 1]@));
        let mut right = false;
        if s[i] <= rt - on {
            let to: usize = on + s[i];
            assert(table@[n - i - 1]@[to as int] == (
                fits(z, i + 1, to as int, true, rt as int, lt as int),
                fits(z, i + 1, to as int, false, rt as int, lt as int),
            ));
            if table[n - i - 1][to].0 && step(s, &sums, i, on, last, rt, lt, true) {
                right = true;
            }
        } else {
            proof {
                if fits(z, i + 1, on + z[i as int], true, rt as int, lt as int) {
                    lemma_within(z, i + 1, on + z[i as int], true, rt as int, lt as int);
                }
            }
        }
        assert(right == goes(z, i as int, on as int, last, rt as int, lt as int, true));
        p.push(right);
        proof {
            let to = if right {
                on + s@[i as int]
            } else {
                on as int
            };
            let there = picks(z, i + 1, to, right, rt as int, lt as int);
            assert(here =~= seq![right] + there);
            assert(p@ + there =~= was + here);
            assert(goes(z, i as int, on as int, last, rt as int, lt as int, right));
        }
        if right {
            on = on + s[i];
        }
        last = right;
        i = i + 1;
    }
    assert(p@ + seq![] =~= p@);
    Some(p)
}

} // verus!
