//! Trading places with a sibling.

use vstd::prelude::*;
use crate::coord::Coord;
use crate::graph::model::{GraphModel, NodeModel};
use crate::graph::order;
use crate::graph::spatial;
use crate::graph::Graph;
use crate::ids;

verus! {

broadcast use {vstd::std_specs::hash::group_hash_axioms, vstd::std_specs::btree::group_btree_axioms};

/// `v` with what stands at `i` and what stands at `j` changing places.
pub open spec fn traded(v: Seq<u64>, i: int, j: int) -> Seq<u64> {
    v.update(i, v[j]).update(j, v[i])
}

/// How high each of `w` stands: at the height of its row, or where that would not
/// put it after the one before it, just below that one.
pub open spec fn height(rows: Seq<Coord>, w: Seq<u64>, i: int) -> Coord
    decreases i,
{
    if i <= 0 {
        rows[0]
    } else {
        let above = height(rows, w, i - 1);
        let y = rows[i];
        if above.rank() < y.rank() || (above.rank() == y.rank() && w[i - 1] < w[i]) {
            y
        } else {
            above.raised()
        }
    }
}

impl GraphModel {
    /// The heights of some nodes.
    pub open spec fn heights(self, v: Seq<u64>) -> Seq<Coord> {
        v.map_values(|id: u64| self.nodes[id].y)
    }

    /// Where each of `w` goes, which takes the places of `v`.
    pub open spec fn new_spot(self, v: Seq<u64>, w: Seq<u64>, i: int) -> (Coord, Coord) {
        (self.nodes[v[i]].x, height(self.heights(v), w, i))
    }

    /// The siblings of `id` from top to bottom once it has traded places.
    pub open spec fn siblings_traded(self, id: u64, up: bool) -> Seq<u64> {
        let v = self.siblings_down(id);
        let k = v.index_of(id);
        if up {
            traded(v, k, k - 1)
        } else {
            traded(v, k, k + 1)
        }
    }

    /// The siblings `w` put where they go, which take the places of `v`.
    pub open spec fn put_in(self, g: GraphModel, v: Seq<u64>, w: Seq<u64>) -> GraphModel {
        GraphModel {
            nodes: Map::new(
                |id: u64| self.has(id),
                |id: u64|
                    if w.contains(id) {
                        let (x, y) = g.new_spot(v, w, w.index_of(id));
                        NodeModel { x, y, ..self.nodes[id] }
                    } else {
                        self.nodes[id]
                    },
            ),
            ..self
        }
    }

    /// The heights of the siblings leave room for one more under each of them.
    pub open spec fn roomy(self, id: u64) -> bool {
        forall|s: u64| #[trigger]
            self.siblings(id).contains(s) ==> self.nodes[s].y.rank() + self.siblings(id).len()
                <= Coord::most()
    }
}

/// What stands under the first of `w` carried along with them, one after another.
pub open spec fn brought<C: Fn(Coord, Coord, Coord) -> Coord>(
    g: GraphModel,
    run: Seq<GraphModel>,
    v: Seq<u64>,
    w: Seq<u64>,
    carry: &C,
) -> bool {
    &&& run.len() > 0
    &&& run[0] == g
    &&& forall|i: int|
        0 <= i < run.len() - 1 ==> #[trigger] brought_one(g, run, v, w, i, carry)
}

pub open spec fn brought_one<C: Fn(Coord, Coord, Coord) -> Coord>(
    g: GraphModel,
    run: Seq<GraphModel>,
    v: Seq<u64>,
    w: Seq<u64>,
    i: int,
    carry: &C,
) -> bool {
    if g.place_of(w[i]) == g.new_spot(v, w, i) {
        run[i + 1] == run[i]
    } else {
        spatial::carried_along(
            run[i],
            run[i + 1],
            g.subtree(w[i]).remove(w[i]),
            g.place_of(w[i]),
            g.new_spot(v, w, i),
            carry,
        )
    }
}

/// `h` is `g` after `id` traded places with the sibling above it or below it:
/// each of the siblings stands where it goes, and what is under one that moved
/// went along.
pub open spec fn moved_past<C: Fn(Coord, Coord, Coord) -> Coord>(
    g: GraphModel,
    h: GraphModel,
    id: u64,
    up: bool,
    carry: &C,
) -> bool {
    let v = g.siblings_down(id);
    let w = g.siblings_traded(id, up);
    exists|run: Seq<GraphModel>| #[trigger]
        brought(g, run, v, w, carry) && run.len() == w.len() + 1 && h == run.last().put_in(g, v, w)
}

/// A trade of two rows keeps who is there.
proof fn lemma_traded(v: Seq<u64>, i: int, j: int)
    requires
        0 <= i < v.len(),
        0 <= j < v.len(),
        v.no_duplicates(),
    ensures
        traded(v, i, j).len() == v.len(),
        traded(v, i, j).no_duplicates(),
        forall|x: u64| #[trigger] traded(v, i, j).contains(x) <==> v.contains(x),
{
    let w = traded(v, i, j);
    assert forall|x: u64| #[trigger] w.contains(x) <==> v.contains(x) by {
        if v.contains(x) {
            let k = choose|k: int| 0 <= k < v.len() && v[k] == x;
            let m = if k == i {
                j
            } else if k == j {
                i
            } else {
                k
            };
            assert(w[m] == x);
        }
        if w.contains(x) {
            let k = choose|k: int| 0 <= k < w.len() && w[k] == x;
            let m = if k == i {
                j
            } else if k == j {
                i
            } else {
                k
            };
            assert(v[m] == x);
        }
    }
}

/// No height is far below the rows.
proof fn lemma_height_bound(rows: Seq<Coord>, w: Seq<u64>, i: int, top: int)
    requires
        0 <= i < rows.len(),
        w.len() == rows.len(),
        forall|k: int| 0 <= k < rows.len() ==> (#[trigger] rows[k]).rank() <= top,
        top + rows.len() <= Coord::most(),
    ensures
        height(rows, w, i).rank() <= top + i,
    decreases i,
{
    if i > 0 {
        lemma_height_bound(rows, w, i - 1, top);
        height(rows, w, i - 1).lemma_raised();
    } else {
        assert(rows[0].rank() <= top);
    }
}

/// The heights go down, and where two are alike the ids do.
proof fn lemma_heights_rise(rows: Seq<Coord>, w: Seq<u64>, i: int, j: int, top: int)
    requires
        0 <= i < j < rows.len(),
        w.len() == rows.len(),
        forall|k: int| 0 <= k < rows.len() ==> (#[trigger] rows[k]).rank() <= top,
        top + rows.len() <= Coord::most(),
    ensures
        order::before(
            (height(rows, w, i).rank(), 0, w[i] as int),
            (height(rows, w, j).rank(), 0, w[j] as int),
        ),
    decreases j,
{
    lemma_height_bound(rows, w, j - 1, top);
    height(rows, w, j - 1).lemma_raised();
    if i < j - 1 {
        lemma_heights_rise(rows, w, i, j - 1, top);
    }
}

/// Only places change on the way.
proof fn lemma_brought<C: Fn(Coord, Coord, Coord) -> Coord>(
    g: GraphModel,
    run: Seq<GraphModel>,
    v: Seq<u64>,
    w: Seq<u64>,
    n: int,
    carry: &C,
)
    requires
        brought(g, run, v, w, carry),
        0 <= n < run.len(),
    ensures
        run[n] == (GraphModel { nodes: run[n].nodes, ..g }),
        run[n].nodes.dom() == g.nodes.dom(),
        forall|x: u64| #[trigger]
            g.has(x) ==> run[n].nodes[x] == (NodeModel {
                x: run[n].nodes[x].x,
                y: run[n].nodes[x].y,
                ..g.nodes[x]
            }),
    decreases n,
{
    if n > 0 {
        lemma_brought(g, run, v, w, n - 1, carry);
        assert(brought_one(g, run, v, w, n - 1, carry));
    }
}

/// Moving past a sibling changes nothing but places.
pub proof fn moving_past_keeps_the_tree<C: Fn(Coord, Coord, Coord) -> Coord>(
    g: GraphModel,
    h: GraphModel,
    id: u64,
    up: bool,
    carry: &C,
)
    requires
        moved_past(g, h, id, up, carry),
    ensures
        h == (GraphModel { nodes: h.nodes, ..g }),
        h.nodes.dom() == g.nodes.dom(),
        forall|x: u64| #[trigger]
            g.has(x) ==> h.nodes[x] == (NodeModel {
                x: h.nodes[x].x,
                y: h.nodes[x].y,
                ..g.nodes[x]
            }),
{
    let v = g.siblings_down(id);
    let w = g.siblings_traded(id, up);
    let run = choose|run: Seq<GraphModel>| #[trigger]
        brought(g, run, v, w, carry) && run.len() == w.len() + 1 && h == run.last().put_in(g, v, w);
    lemma_brought(g, run, v, w, run.len() - 1, carry);
    assert(h.nodes.dom() =~= g.nodes.dom());
}

/// Trading places with a sibling changes the order of the siblings: afterwards
/// the two stand the other way round, and the others as before. Siblings at one
/// height are no exception.
pub proof fn moving_past_changes_the_order<C: Fn(Coord, Coord, Coord) -> Coord>(
    g: GraphModel,
    h: GraphModel,
    id: u64,
    up: bool,
    carry: &C,
)
    requires
        order::arranges(g.siblings_down(id), g.siblings(id), g.down()),
        g.neighbour(id, up) is Some,
        g.roomy(id),
        moved_past(g, h, id, up, carry),
    ensures
        h.siblings_down(id) == g.siblings_traded(id, up),
{
    let v = g.siblings_down(id);
    let w = g.siblings_traded(id, up);
    let k = v.index_of(id);
    order::lemma_arranges_distinct(v, g.siblings(id), g.down());
    assert(v.contains(id));
    let m = if up {
        k - 1
    } else {
        k + 1
    };
    lemma_traded(v, k, m);
    moving_past_keeps_the_tree(g, h, id, up, carry);
    let run = choose|run: Seq<GraphModel>| #[trigger]
        brought(g, run, v, w, carry) && run.len() == w.len() + 1 && h == run.last().put_in(g, v, w);
    lemma_brought(g, run, v, w, run.len() - 1, carry);
    assert(g.has(id) && h.parent_of(id) == g.parent_of(id)) by {
        assert(g.siblings(id).contains(id));
    }
    assert forall|x: u64| h.siblings(id).contains(x) <==> g.siblings(id).contains(x) by {
        if g.has(x) {
            assert(h.nodes[x].parent == g.nodes[x].parent);
        }
    }
    assert(h.siblings(id) =~= g.siblings(id));
    let rows = g.heights(v);
    let top = Coord::most() - v.len();
    assert forall|i: int| 0 <= i < rows.len() implies (#[trigger] rows[i]).rank() <= top by {
        assert(v.contains(v[i]));
        assert(g.siblings(id).contains(v[i]));
    }
    assert forall|i: int| 0 <= i < w.len() implies h.nodes[#[trigger] w[i]].y == height(
        rows,
        w,
        i,
    ) by {
        assert(w.contains(w[i]));
        assert(w.index_of(w[i]) == i);
        assert(v.contains(w[i]));
        assert(g.siblings(id).contains(w[i]));
    }
    assert forall|i: int, j: int| 0 <= i < j < w.len() implies order::before(
        h.down()(#[trigger] w[i]),
        h.down()(#[trigger] w[j]),
    ) by {
        lemma_heights_rise(rows, w, i, j, top);
    }
    assert forall|x: u64| #[trigger] w.contains(x) <==> h.siblings(id).contains(x) by {
        assert(w.contains(x) <==> v.contains(x));
    }
    order::lemma_arranged(w, h.siblings(id), h.down());
}

/// After the trade the sibling that was next on one side is next on the other, and each
/// sibling stands in the column of the one whose place it took.
pub proof fn moving_past_goes_by_the_neighbour<C: Fn(Coord, Coord, Coord) -> Coord>(
    g: GraphModel,
    h: GraphModel,
    id: u64,
    up: bool,
    carry: &C,
    i: int,
)
    requires
        order::arranges(g.siblings_down(id), g.siblings(id), g.down()),
        g.neighbour(id, up) is Some,
        g.roomy(id),
        moved_past(g, h, id, up, carry),
        0 <= i < g.siblings_down(id).len(),
    ensures
        h.neighbour(id, !up) == g.neighbour(id, up),
        h.siblings_down(id).len() == g.siblings_down(id).len(),
        h.nodes[h.siblings_down(id)[i]].x == g.nodes[g.siblings_down(id)[i]].x,
        ({
            let v = g.siblings_down(id);
            v[i] != id && Some(v[i]) != g.neighbour(id, up) ==> h.siblings_down(id)[i] == v[i]
        }),
{
    let v = g.siblings_down(id);
    let w = g.siblings_traded(id, up);
    let k = v.index_of(id);
    order::lemma_arranges_distinct(v, g.siblings(id), g.down());
    assert(v.contains(id));
    let m = if up {
        k - 1
    } else {
        k + 1
    };
    lemma_traded(v, k, m);
    moving_past_changes_the_order(g, h, id, up, carry);
    let run = choose|run: Seq<GraphModel>| #[trigger]
        brought(g, run, v, w, carry) && run.len() == w.len() + 1 && h == run.last().put_in(g, v, w);
    lemma_brought(g, run, v, w, run.len() - 1, carry);
    assert(w.contains(w[i]));
    assert(w.index_of(w[i]) == i);
    assert(v.contains(w[i]));
    assert(g.siblings(id).contains(w[i]));
    assert(w[m] == id);
    assert(w.contains(id));
    assert(w.index_of(id) == m);
}

impl Graph {
    /// Trade places with the sibling just above (`up`) or below `id`, so their
    /// order changes. Each node carries its own subtree by the swap.
    pub fn move_sibling<C: Fn(Coord, Coord, Coord) -> Coord>(
        &mut self,
        id: u64,
        up: bool,
        carry: &C,
    ) -> (r: bool)
        requires
            forall|a: Coord, b: Coord, c: Coord| #[trigger] carry.requires((a, b, c)),
        ensures
            r == (old(self)@.neighbour(id, up) is Some),
            r ==> moved_past(old(self)@, final(self)@, id, up, carry),
            r && old(self)@.roomy(id) ==> final(self)@.siblings_down(id)
                == old(self)@.siblings_traded(id, up),
            !r ==> final(self)@ == old(self)@,
    {
        let ghost g = self@;
        let v = self.siblings_ordered(id);
        let other: u64 = match self.next_sibling(id, up) {
            Some(o) => o,
            None => {
                return false;
            },
        };
        proof {
            order::lemma_arranges_distinct(v@, g.siblings(id), g.down());
        }
        let w = trade(&v, id, up);
        proof {
            let k = v@.index_of(id);
            lemma_traded(
                v@,
                k,
                if up {
                    k - 1
                } else {
                    k + 1
                },
            );
            assert forall|i: int| 0 <= i < v@.len() implies g.has(#[trigger] v@[i]) by {
                assert(v@.contains(v@[i]));
                assert(g.siblings(id).contains(v@[i]));
            }
            assert forall|i: int| 0 <= i < w@.len() implies g.has(#[trigger] w@[i]) by {
                assert(w@.contains(w@[i]));
                assert(v@.contains(w@[i]));
                assert(g.siblings(id).contains(w@[i]));
            }
        }
        let spots = self.new_spots(&v, &w);
        let n: usize = w.len();
        // What stands under each of them, before anything moves.
        let mut under: Vec<Vec<u64>> = Vec::new();
        let mut i: usize = 0;
        while i < n
            invariant
                i <= n,
                n == w@.len(),
                self@ == g,
                under@.len() == i,
                forall|k: int|
                    0 <= k < i ==> ids::lists(
                        (#[trigger] under@[k])@,
                        g.subtree(w@[k]).remove(w@[k]),
                    ),
            decreases n - i,
        {
            let below = self.subtree_below(w[i]);
            under.push(below);
            i = i + 1;
        }
        let ghost mut run: Seq<GraphModel> = seq![g];
        let mut k: usize = 0;
        while k < n
            invariant
                forall|a: Coord, b: Coord, c: Coord| #[trigger] carry.requires((a, b, c)),
                k <= n,
                n == w@.len(),
                v@.len() == n,
                under@.len() == n,
                spots@.len() == n,
                forall|j: int| 0 <= j < n ==> g.has(#[trigger] w@[j]),
                forall|j: int|
                    0 <= j < n ==> #[trigger] spots@[j] == (g.place_of(w@[j]), g.new_spot(v@, w@, j)),
                forall|j: int|
                    0 <= j < n ==> ids::lists(
                        (#[trigger] under@[j])@,
                        g.subtree(w@[j]).remove(w@[j]),
                    ),
                run.len() == k + 1,
                run.last() == self@,
                brought(g, run, v@, w@, carry),
            decreases n - k,
        {
            let (from, to): ((Coord, Coord), (Coord, Coord)) = spots[k];
            assert(spots@[k as int] == (g.place_of(w@[k as int]), g.new_spot(v@, w@, k as int)));
            let ghost was = run;
            if !(from.0.bits == to.0.bits && from.1.bits == to.1.bits) {
                assert(under@[k as int]@.to_set() =~= g.subtree(w@[k as int]).remove(
                    w@[k as int],
                ));
                self.carry_all(&under[k], from, to, carry);
            }
            proof {
                run = run.push(self@);
                assert(brought_one(g, run, v@, w@, k as int, carry));
                assert forall|j: int| 0 <= j < run.len() - 1 implies #[trigger] brought_one(
                    g,
                    run,
                    v@,
                    w@,
                    j,
                    carry,
                ) by {
                    if j < k {
                        assert(brought_one(g, was, v@, w@, j, carry));
                        assert(run[j] == was[j] && run[j + 1] == was[j + 1]);
                    }
                }
            }
            k = k + 1;
        }
        let ghost mid = self@;
        proof {
            lemma_brought(g, run, v@, w@, run.len() - 1, carry);
        }
        let mut m: usize = 0;
        while m < n
            invariant
                m <= n,
                n == w@.len(),
                spots@.len() == n,
                w@.no_duplicates(),
                mid.nodes.dom() == g.nodes.dom(),
                forall|j: int| 0 <= j < n ==> g.has(#[trigger] w@[j]),
                forall|j: int|
                    0 <= j < n ==> #[trigger] spots@[j] == (g.place_of(w@[j]), g.new_spot(v@, w@, j)),
                self@ == (GraphModel { nodes: self@.nodes, ..mid }),
                self@.nodes.dom() == mid.nodes.dom(),
                forall|x: u64| #[trigger]
                    mid.nodes.dom().contains(x) ==> self@.nodes[x] == (if w@.take(
                        m as int,
                    ).contains(x) {
                        let (a, b) = g.new_spot(v@, w@, w@.index_of(x));
                        NodeModel { x: a, y: b, ..mid.nodes[x] }
                    } else {
                        mid.nodes[x]
                    }),
            decreases n - m,
        {
            let to: (Coord, Coord) = spots[m].1;
            let s: u64 = w[m];
            proof {
                assert(spots@[m as int].1 == g.new_spot(v@, w@, m as int));
                ids::lemma_contains_push(w@, m as int);
                assert(w@.index_of(s) == m);
                assert(mid.nodes.dom().contains(s));
                assert(!w@.take(m as int).contains(s)) by {
                    if w@.take(m as int).contains(s) {
                        let j = choose|j: int| 0 <= j < m && w@.take(m as int)[j] == s;
                        assert(w@[j] == s);
                    }
                }
            }
            self.place(s, to.0, to.1);
            assert(self@.nodes.dom() =~= mid.nodes.dom());
            m = m + 1;
        }
        proof {
            assert(w@.take(n as int) =~= w@);
            assert(self@.nodes =~= mid.put_in(g, v@, w@).nodes);
            assert(self@ == run.last().put_in(g, v@, w@));
            assert(moved_past(g, self@, id, up, carry));
            if g.roomy(id) {
                moving_past_changes_the_order(g, self@, id, up, carry);
            }
        }
        true
    }

    /// Everything under `id`, without `id` itself.
    fn subtree_below(&self, id: u64) -> (r: Vec<u64>)
        ensures
            ids::lists(r@, self@.subtree(id).remove(id)),
    {
        let all = self.subtree_ids(id);
        let mut out: Vec<u64> = Vec::new();
        let mut i: usize = 0;
        while i < all.len()
            invariant
                i <= all@.len(),
                ids::lists(all@, self@.subtree(id)),
                ids::increasing(out@),
                forall|x: u64| #[trigger]
                    out@.contains(x) <==> all@.take(i as int).contains(x) && x != id,
            decreases all@.len() - i,
        {
            let k: u64 = all[i];
            let ghost before = out@;
            let kept = k != id;
            if kept {
                out.push(k);
            }
            proof {
                ids::lemma_take(all@, i as int, before, out@, kept);
            }
            i = i + 1;
        }
        assert(all@.take(i as int) =~= all@);
        out
    }

    /// Where each of `w` stands, and where it goes.
    fn new_spots(&self, v: &Vec<u64>, w: &Vec<u64>) -> (r: Vec<((Coord, Coord), (Coord, Coord))>)
        requires
            v@.len() == w@.len(),
            forall|i: int| 0 <= i < v@.len() ==> self@.has(#[trigger] v@[i]),
            forall|i: int| 0 <= i < w@.len() ==> self@.has(#[trigger] w@[i]),
        ensures
            r@.len() == w@.len(),
            forall|i: int|
                0 <= i < w@.len() ==> #[trigger] r@[i] == (
                    self@.place_of(w@[i]),
                    self@.new_spot(v@, w@, i),
                ),
    {
        let mut out: Vec<((Coord, Coord), (Coord, Coord))> = Vec::new();
        let n: usize = w.len();
        let ghost rows = self@.heights(v@);
        let mut i: usize = 0;
        let mut above: Coord = Coord::zero();
        while i < n
            invariant
                i <= n,
                n == w@.len(),
                n == v@.len(),
                rows == self@.heights(v@),
                forall|k: int| 0 <= k < v@.len() ==> self@.has(#[trigger] v@[k]),
                forall|k: int| 0 <= k < w@.len() ==> self@.has(#[trigger] w@[k]),
                out@.len() == i,
                i > 0 ==> above == height(rows, w@, i - 1),
                forall|k: int|
                    0 <= k < i ==> #[trigger] out@[k] == (
                        self@.place_of(w@[k]),
                        self@.new_spot(v@, w@, k),
                    ),
            decreases n - i,
        {
            let (x, y): (Coord, Coord) = self.position(v[i]);
            assert(rows[i as int] == y);
            let next: Coord = if i == 0 || above.order() < y.order() || (above.order() == y.order()
                && w[i - 1] < w[i]) {
                y
            } else {
                above.raise()
            };
            out.push((self.position(w[i]), (x, next)));
            above = next;
            i = i + 1;
        }
        out
    }
}

/// The rows of a list with those of `id` and of its neighbour traded.
fn trade(v: &Vec<u64>, id: u64, up: bool) -> (w: Vec<u64>)
    requires
        v@.contains(id),
        v@.no_duplicates(),
        up ==> v@.index_of(id) > 0,
        !up ==> v@.index_of(id) + 1 < v@.len(),
    ensures
        w@ == (if up {
            traded(v@, v@.index_of(id), v@.index_of(id) - 1)
        } else {
            traded(v@, v@.index_of(id), v@.index_of(id) + 1)
        }),
{
    let mut k: usize = 0;
    let n: usize = v.len();
    let ghost at = v@.index_of(id);
    assert(0 <= at < v@.len() && v@[at] == id);
    while v[k] != id
        invariant
            k <= at,
            n == v@.len(),
            0 <= at < n,
            v@[at] == id,
        decreases at - k,
    {
        k = k + 1;
    }
    assert(k == at);
    let m: usize = if up {
        k - 1
    } else {
        k + 1
    };
    let mut w: Vec<u64> = v.clone();
    assert(w@ =~= v@);
    w.set(k, v[m]);
    w.set(m, v[k]);
    w
}

} // verus!
