//! Laying the whole tree out: branches to both sides of the root, each node in
//! the middle of the rows that its branch takes.

use std::collections::HashMap;
use std::collections::HashSet;
use vstd::prelude::*;
use vstd::set_lib::lemma_len_subset;
use crate::coord;
use crate::coord::Coord;
use crate::graph::deal;
use crate::graph::fold;
use crate::graph::model::{GraphModel, NodeModel};
use crate::graph::order;
use crate::graph::tree;
use crate::graph::tree::MAX_TIDY_DEPTH;
use crate::graph::Graph;
use crate::ids;

verus! {

broadcast use {vstd::std_specs::hash::group_hash_axioms, vstd::std_specs::btree::group_btree_axioms};

/// The distance between two columns of a tidy map.
pub const TIDY_COL: i128 = 210;

/// Half the height of a row of a tidy map.
pub const HALF_ROW: i128 = 27;

impl GraphModel {
    /// The children that a branch shows, in ascending order: none under a fold.
    pub open spec fn branches(self, id: u64) -> Seq<u64> {
        if self.collapsed(id) {
            Seq::empty()
        } else {
            ids::listed(self.children(id))
        }
    }

    /// The rows that the branch of `id`, `depth` links below the root, takes: one
    /// for each leaf. A folded branch occupies one row, not one per hidden leaf.
    pub open spec fn rows(self, id: u64, depth: nat) -> nat
        decreases MAX_TIDY_DEPTH - depth, 0nat,
    {
        if self.branches(id).len() == 0 || depth >= MAX_TIDY_DEPTH {
            1
        } else {
            self.rows_of(self.branches(id), depth + 1)
        }
    }

    /// The rows that some branches take together.
    pub open spec fn rows_of(self, v: Seq<u64>, depth: nat) -> nat
        decreases MAX_TIDY_DEPTH - depth, v.len() + 1,
    {
        if v.len() == 0 {
            0
        } else {
            self.rows_of(v.drop_last(), depth) + self.rows(v.last(), depth)
        }
    }

    /// The order in which the branches of the root are dealt: the biggest first.
    pub open spec fn by_size(self) -> spec_fn(u64) -> order::Place {
        |k: u64| (-(self.rows(k, 1) as int), 0, k as int)
    }

    pub open spec fn sized(self) -> Seq<u64> {
        if self.collapsed(self.root) {
            Seq::empty()
        } else {
            order::arranged(self.children(self.root), self.by_size())
        }
    }

    /// Branches dealt to the right and to the left, each onto whichever side is
    /// the shorter then.
    pub open spec fn dealt(self, v: Seq<u64>) -> (Seq<u64>, Seq<u64>)
        decreases v.len(),
    {
        if v.len() == 0 {
            (Seq::empty(), Seq::empty())
        } else {
            let (r, l) = self.dealt(v.drop_last());
            if self.rows_of(r, 1) <= self.rows_of(l, 1) {
                (r.push(v.last()), l)
            } else {
                (r, l.push(v.last()))
            }
        }
    }

    /// The rows of each branch of the root.
    pub open spec fn branch_sizes(self) -> Seq<nat> {
        self.branches(self.root).map_values(|k: u64| self.rows(k, 1))
    }

    /// The rows on the right.
    pub open spec fn right_total(self) -> int {
        self.rows_of(self.dealt(self.sized()).0, 1) as int
    }

    /// The rows on the left.
    pub open spec fn left_total(self) -> int {
        deal::upto(self.branch_sizes(), self.branch_sizes().len() as int) - self.right_total()
    }

    /// The branches can be dealt with as many rows on each side so that the map
    /// reads in its own order.
    pub open spec fn reads_in_order(self) -> bool {
        deal::fits(
            self.branch_sizes(),
            0,
            0,
            false,
            self.right_total(),
            self.left_total(),
        )
    }

    /// Which of the branches are on the right: so that the map reads in its own
    /// order, where that can be, or else as they are dealt by size.
    pub open spec fn on_right(self) -> Seq<bool> {
        let v = self.branches(self.root);
        if self.reads_in_order() {
            deal::picks(
                self.branch_sizes(),
                0,
                0,
                false,
                self.right_total(),
                self.left_total(),
            )
        } else {
            Seq::new(v.len(), |i: int| self.dealt(self.sized()).0.contains(v[i]))
        }
    }

    /// The branches on the right, in ascending order.
    pub open spec fn right_side(self) -> Seq<u64> {
        deal::picked(self.branches(self.root), self.on_right(), true)
    }

    /// The branches on the left, in ascending order.
    pub open spec fn left_side(self) -> Seq<u64> {
        deal::picked(self.branches(self.root), self.on_right(), false)
    }

    /// `x` is a node in sight, `d` links below the root and not too far down.
    pub open spec fn laid(self, x: u64, d: nat) -> bool {
        &&& self.has(x)
        &&& 1 <= d <= MAX_TIDY_DEPTH
        &&& self.ancestor(x, d) == Some(self.root)
        &&& forall|k: nat| 1 <= k <= d ==> !#[trigger] self.folded_at(x, k)
    }

    /// `x` gets a place of its own.
    pub open spec fn shown(self, x: u64) -> bool {
        x == self.root || exists|d: nat| self.laid(x, d)
    }

    pub open spec fn level(self, x: u64) -> nat {
        choose|d: nat| self.laid(x, d)
    }

    /// One for a node on the right, minus one for a node on the left.
    pub open spec fn lane(self, x: u64, d: nat) -> int
        decreases d,
    {
        if d <= 1 {
            if self.right_side().contains(x) {
                1
            } else {
                -1
            }
        } else {
            self.lane(self.parent_of(x)->0, (d - 1) as nat)
        }
    }

    /// Where the rows of the branch of `x` begin, in half rows from the middle.
    pub open spec fn row_top(self, x: u64, d: nat) -> int
        decreases d,
    {
        if d <= 1 {
            let side = if self.right_side().contains(x) {
                self.right_side()
            } else {
                self.left_side()
            };
            2 * self.rows_of(side.take(side.index_of(x)), 1) - self.rows_of(side, 1)
        } else {
            let p = self.parent_of(x)->0;
            let sibs = ids::listed(self.children(p));
            self.row_top(p, (d - 1) as nat) + 2 * self.rows_of(sibs.take(sibs.index_of(x)), d)
        }
    }

    /// The column of `x`: none for the root, positive on the right and negative on
    /// the left.
    pub open spec fn column(self, x: u64) -> int {
        if x == self.root {
            0
        } else {
            self.lane(x, self.level(x)) * self.level(x)
        }
    }

    /// The middle of the rows of `x`, in half rows from the middle of the map.
    pub open spec fn middle(self, x: u64) -> int {
        if x == self.root {
            0
        } else {
            self.row_top(x, self.level(x)) + self.rows(x, self.level(x))
        }
    }

    /// Where a tidy map puts `x`: the root in the middle, every other node in its
    /// column and halfway down its rows.
    pub open spec fn slot(self, x: u64) -> (Coord, Coord) {
        (
            coord::spec_whole(TIDY_COL * self.column(x)),
            coord::spec_whole(HALF_ROW * self.middle(x)),
        )
    }

    /// `y` is a folded node with a place, and hides `x`.
    pub open spec fn carrier(self, x: u64, y: u64) -> bool {
        &&& self.has(x)
        &&& x != y
        &&& self.collapsed(y)
        &&& self.shown(y)
        &&& self.above(y, x)
    }

    pub open spec fn carrier_of(self, x: u64) -> u64 {
        choose|y: u64| self.carrier(x, y)
    }

    /// `x` gets a place, or goes along with the fold that hides it.
    pub open spec fn seated(self, x: u64) -> bool {
        self.shown(x) || exists|y: u64| self.carrier(x, y)
    }

    /// What hangs somewhere and has no place.
    pub open spec fn strays(self) -> Set<u64> {
        self.nodes.dom().filter(|x: u64| !self.seated(x) && self.parent_of(x) is Some)
    }

    /// The row, in half rows from the middle, at which the column of strays
    /// begins: below everything else.
    pub open spec fn strays_top(self) -> int {
        let r = self.rows_of(self.right_side(), 1);
        let l = self.rows_of(self.left_side(), 1);
        let most = if r > l {
            r
        } else {
            l
        };
        (if most > 1 {
            most as int
        } else {
            1
        }) + 4
    }

    /// The root is not under itself.
    pub open spec fn grounded(self) -> bool {
        !self.on_loop(self.root)
    }
}

/// `h` is `g` with nodes moved.
pub open spec fn repositioned(g: GraphModel, h: GraphModel) -> bool {
    &&& h == (GraphModel { nodes: h.nodes, ..g })
    &&& h.nodes.dom() == g.nodes.dom()
    &&& forall|x: u64| #[trigger]
        g.nodes.dom().contains(x) ==> h.nodes[x] == (NodeModel {
            x: h.nodes[x].x,
            y: h.nodes[x].y,
            ..g.nodes[x]
        })
}

/// What stands at `at` is at `r` once it has gone along with something that went
/// from one place to another. Where that went nowhere, neither does this.
pub open spec fn goes_along<C: Fn(Coord, Coord, Coord) -> Coord>(
    at: (Coord, Coord),
    from: (Coord, Coord),
    to: (Coord, Coord),
    r: (Coord, Coord),
    carry: &C,
) -> bool {
    if from == to {
        r == at
    } else {
        carry.ensures((at.0, from.0, to.0), r.0) && carry.ensures((at.1, from.1, to.1), r.1)
    }
}

/// `n` stands where a tidy map puts `x`, as far as that gives it a place.
pub open spec fn seat<C: Fn(Coord, Coord, Coord) -> Coord>(
    g: GraphModel,
    n: NodeModel,
    x: u64,
    carry: &C,
) -> bool {
    if g.shown(x) {
        (n.x, n.y) == g.slot(x)
    } else if g.seated(x) {
        let y = g.carrier_of(x);
        goes_along(g.place_of(x), g.place_of(y), g.slot(y), (n.x, n.y), carry)
    } else {
        (n.x, n.y) == (g.nodes[x].x, g.nodes[x].y)
    }
}

/// `h` is `g` laid out: every node that gets a place has it, what a fold hides
/// has gone along with it, what hangs nowhere is in a column below, and what
/// floats is where it was.
pub open spec fn tidied<C: Fn(Coord, Coord, Coord) -> Coord>(
    g: GraphModel,
    h: GraphModel,
    carry: &C,
) -> bool {
    &&& repositioned(g, h)
    &&& forall|x: u64|
        g.has(x) && !g.strays().contains(x) ==> seat(g, #[trigger] h.nodes[x], x, carry)
    &&& forall|i: int|
        0 <= i < ids::listed(g.strays()).len() ==> {
            let n = h.nodes[#[trigger] ids::listed(g.strays())[i]];
            &&& n.x == coord::spec_whole(0)
            &&& n.y == coord::spec_whole(HALF_ROW * (g.strays_top() + 2 * i))
        }
}

// ---------------------------------------------------------------------------
// Levels
// ---------------------------------------------------------------------------

/// What is under the root is on no loop, unless the root is.
pub proof fn lemma_under_root(g: GraphModel, x: u64, d: nat)
    requires
        g.grounded(),
        g.ancestor(x, d) == Some(g.root),
    ensures
        !g.on_loop(x),
{
    if g.on_loop(x) {
        let m = choose|m: nat| 1 <= m && #[trigger] g.ancestor(x, m) == Some(x);
        tree::lemma_ancestor_sum(g, x, m, d);
        tree::lemma_ancestor_sum(g, x, d, m);
        assert(g.ancestor(g.root, m) == Some(g.root));
    }
}

/// A node is at one level.
proof fn lemma_one_level(g: GraphModel, x: u64, d: nat, e: nat)
    requires
        g.grounded(),
        g.ancestor(x, d) == Some(g.root),
        g.ancestor(x, e) == Some(g.root),
    ensures
        d == e,
{
    if d < e {
        tree::lemma_ancestor_sum(g, x, d, (e - d) as nat);
        assert(g.ancestor(g.root, (e - d) as nat) == Some(g.root));
    } else if e < d {
        tree::lemma_ancestor_sum(g, x, e, (d - e) as nat);
        assert(g.ancestor(g.root, (d - e) as nat) == Some(g.root));
    }
}

pub proof fn lemma_level(g: GraphModel, x: u64, d: nat)
    requires
        g.grounded(),
        g.laid(x, d),
    ensures
        g.level(x) == d,
        x != g.root,
        g.shown(x),
{
    lemma_one_level(g, x, d, g.level(x));
    if x == g.root {
        assert(g.ancestor(g.root, d) == Some(g.root));
    }
}

/// What the root hangs under gets no place.
proof fn lemma_not_over_root(g: GraphModel, y: u64, k: nat)
    requires
        g.grounded(),
        k >= 1,
        g.ancestor(g.root, k) == Some(y),
    ensures
        !g.shown(y),
{
    if y == g.root {
        assert(g.on_loop(g.root));
    } else if g.shown(y) {
        let e = g.level(y);
        assert(g.laid(y, e));
        tree::lemma_ancestor_sum(g, g.root, k, e);
        assert(g.ancestor(g.root, k + e) == Some(g.root));
    }
}

/// What has a place of its own is not carried.
proof fn lemma_shown_not_carried(g: GraphModel, x: u64, y: u64)
    requires
        g.grounded(),
        g.shown(x),
    ensures
        !g.carrier(x, y),
{
    if g.carrier(x, y) {
        let k = choose|k: nat| g.ancestor(x, k) == Some(y);
        assert(g.ancestor(x, 0) == Some(x));
        assert(k >= 1);
        if x == g.root {
            lemma_not_over_root(g, y, k);
        } else {
            let d = g.level(x);
            assert(g.laid(x, d));
            if k <= d {
                assert(g.folded_at(x, k));
            } else {
                tree::lemma_ancestor_sum(g, x, d, (k - d) as nat);
                lemma_not_over_root(g, y, (k - d) as nat);
            }
        }
    }
}

/// A node goes along with one fold.
pub proof fn lemma_one_carrier(g: GraphModel, x: u64, y: u64)
    requires
        g.grounded(),
        g.carrier(x, y),
    ensures
        g.carrier_of(x) == y,
        g.seated(x),
        !g.shown(x),
{
    let z = g.carrier_of(x);
    assert(g.carrier(x, z));
    if g.shown(x) {
        lemma_shown_not_carried(g, x, y);
    }
    if z != y {
        let a = choose|a: nat| g.ancestor(x, a) == Some(y);
        let b = choose|b: nat| g.ancestor(x, b) == Some(z);
        if a <= b {
            tree::lemma_ancestor_sum(g, x, a, (b - a) as nat);
            assert(g.ancestor(y, (b - a) as nat) == Some(z));
            assert(g.carrier(y, z));
            lemma_shown_not_carried(g, y, z);
        } else {
            tree::lemma_ancestor_sum(g, x, b, (a - b) as nat);
            assert(g.ancestor(z, (a - b) as nat) == Some(y));
            assert(g.carrier(z, y));
            lemma_shown_not_carried(g, z, y);
        }
    }
}

/// A child is one level below its parent.
proof fn lemma_child_laid(g: GraphModel, id: u64, c: u64, d: nat)
    requires
        g.laid(id, d) || (id == g.root && d == 0),
        !g.collapsed(id),
        d < MAX_TIDY_DEPTH,
        g.children(id).contains(c),
    ensures
        g.laid(c, d + 1),
{
    tree::lemma_ancestor_shift(g, c, d);
    assert(g.ancestor(id, 0) == Some(id));
    assert(g.ancestor(c, d + 1) == Some(g.root));
    assert forall|k: nat| 1 <= k <= d + 1 implies !#[trigger] g.folded_at(c, k) by {
        tree::lemma_ancestor_shift(g, c, (k - 1) as nat);
        if k > 1 {
            assert(!g.folded_at(id, (k - 1) as nat));
        }
    }
}

/// Under an open leaf, or below the last level, nothing has a place.
proof fn lemma_under_leaf(g: GraphModel, id: u64, d: nat, x: u64)
    requires
        g.grounded(),
        g.laid(id, d),
        !g.collapsed(id),
        g.children(id) == Set::<u64>::empty() || d >= MAX_TIDY_DEPTH,
        g.subtree(id).contains(x),
        x != id,
    ensures
        !g.seated(x),
{
    let k = choose|k: nat| g.ancestor(x, k) == Some(id);
    assert(g.ancestor(x, 0) == Some(x));
    assert(k >= 1);
    lemma_deep(g, id, d, x, k);
    if exists|y: u64| g.carrier(x, y) {
        let y = g.carrier_of(x);
        let j = choose|j: nat| g.ancestor(x, j) == Some(y);
        if j < k {
            tree::lemma_ancestor_sum(g, x, j, (k - j) as nat);
            assert(g.ancestor(y, (k - j) as nat) == Some(id));
            lemma_deep(g, id, d, y, (k - j) as nat);
        } else if j > k {
            tree::lemma_ancestor_sum(g, x, k, (j - k) as nat);
            assert(g.ancestor(id, (j - k) as nat) == Some(y));
            if y == id {
                lemma_under_root(g, id, d);
                assert(g.on_loop(id));
            }
            assert(g.shown(id));
            assert(g.carrier(id, y));
            lemma_shown_not_carried(g, id, y);
        }
    }
}

proof fn lemma_deep(g: GraphModel, id: u64, d: nat, x: u64, k: nat)
    requires
        g.grounded(),
        g.laid(id, d),
        g.children(id) == Set::<u64>::empty() || d >= MAX_TIDY_DEPTH,
        k >= 1,
        g.ancestor(x, k) == Some(id),
    ensures
        !g.shown(x),
{
    let c = g.ancestor(x, (k - 1) as nat)->0;
    assert(g.children(id).contains(c));
    if g.shown(x) {
        tree::lemma_ancestor_sum(g, x, k, d);
        if x == g.root {
            assert(g.ancestor(g.root, k + d) == Some(g.root));
        } else {
            let e = g.level(x);
            assert(g.laid(x, e));
            lemma_one_level(g, x, e, k + d);
        }
    }
}

/// Under a fold with a place, everything goes along with it.
proof fn lemma_under_fold(g: GraphModel, id: u64, x: u64)
    requires
        g.grounded(),
        g.shown(id),
        g.collapsed(id),
        g.subtree(id).contains(x),
        x != id,
    ensures
        g.carrier_of(x) == id,
        g.seated(x),
        !g.shown(x),
{
    assert(g.carrier(x, id));
    lemma_one_carrier(g, x, id);
}

// ---------------------------------------------------------------------------
// Branches
// ---------------------------------------------------------------------------

/// Every node under `id` is `id` or under one of its children.
proof fn lemma_under_child(g: GraphModel, id: u64, x: u64) -> (c: u64)
    requires
        g.subtree(id).contains(x),
        x != id,
    ensures
        g.children(id).contains(c),
        g.subtree(c).contains(x),
{
    let k = choose|k: nat| g.ancestor(x, k) == Some(id);
    assert(g.ancestor(x, 0) == Some(x));
    assert(k >= 1);
    let c = g.ancestor(x, (k - 1) as nat)->0;
    assert(g.parent_of(c) == Some(id));
    assert(g.above(c, x));
    c
}

/// What is under a child is under the parent.
pub proof fn lemma_child_under(g: GraphModel, id: u64, c: u64, x: u64)
    requires
        g.has(id),
        g.children(id).contains(c),
        g.subtree(c).contains(x),
    ensures
        g.subtree(id).contains(x),
{
    let k = choose|k: nat| g.ancestor(x, k) == Some(c);
    tree::lemma_ancestor_sum(g, x, k, 1);
    assert(g.ancestor(c, 0) == Some(c));
    assert(g.ancestor(c, 1) == Some(id));
    assert(g.ancestor(x, k + 1) == Some(id));
}

/// Neither a node nor a sibling of `c` is under `c`.
pub proof fn lemma_apart(g: GraphModel, id: u64, c: u64, e: u64, x: u64)
    requires
        !g.on_loop(id),
        g.children(id).contains(c),
        g.children(id).contains(e),
        c != e,
        g.subtree(c).contains(x),
    ensures
        !g.subtree(e).contains(x),
{
    if g.subtree(e).contains(x) {
        let a = choose|a: nat| g.ancestor(x, a) == Some(c);
        let b = choose|b: nat| g.ancestor(x, b) == Some(e);
        if a < b {
            lemma_sibling_above(g, id, c, e, x, a, b);
        } else if b < a {
            lemma_sibling_above(g, id, e, c, x, b, a);
        }
    }
}

proof fn lemma_sibling_above(g: GraphModel, id: u64, c: u64, e: u64, x: u64, a: nat, b: nat)
    requires
        g.children(id).contains(c),
        g.children(id).contains(e),
        g.ancestor(x, a) == Some(c),
        g.ancestor(x, b) == Some(e),
        a < b,
    ensures
        g.on_loop(id),
{
    tree::lemma_ancestor_sum(g, x, a, (b - a) as nat);
    tree::lemma_ancestor_shift(g, c, (b - a - 1) as nat);
    assert(g.ancestor(id, (b - a - 1) as nat) == Some(e));
    assert(g.ancestor(id, (b - a) as nat) == Some(id));
}

pub proof fn lemma_not_under_child(g: GraphModel, id: u64, c: u64)
    requires
        !g.on_loop(id),
        g.children(id).contains(c),
    ensures
        !g.subtree(c).contains(id),
        !g.on_loop(c),
{
    if g.subtree(c).contains(id) {
        let k = choose|k: nat| g.ancestor(id, k) == Some(c);
        assert(g.ancestor(id, k + 1) == Some(id));
    }
    if g.on_loop(c) {
        let m = choose|m: nat| 1 <= m && #[trigger] g.ancestor(c, m) == Some(c);
        tree::lemma_ancestor_shift(g, c, (m - 1) as nat);
        assert(g.ancestor(id, (m - 1) as nat) == Some(c));
        assert(g.ancestor(id, m) == Some(id));
    }
}

/// Moving nodes about changes nothing above them.
proof fn lemma_same_subtree(g: GraphModel, h: GraphModel, id: u64)
    requires
        repositioned(g, h),
    ensures
        g.subtree(id) == h.subtree(id),
        g.collapsed(id) == h.collapsed(id),
        g.has(id) == h.has(id),
{
    assert forall|x: u64| #[trigger] g.parent_of(x) == h.parent_of(x) by {
        if g.nodes.dom().contains(x) {
        }
    }
    assert forall|x: u64| g.subtree(id).contains(x) <==> h.subtree(id).contains(x) by {
        if g.above(id, x) {
            let k = choose|k: nat| g.ancestor(x, k) == Some(id);
            fold::lemma_same_parents(g, h, x, k);
            assert(h.ancestor(x, k) == Some(id));
        }
        if h.above(id, x) {
            let k = choose|k: nat| h.ancestor(x, k) == Some(id);
            fold::lemma_same_parents(g, h, x, k);
            assert(g.ancestor(x, k) == Some(id));
        }
    }
    assert(g.subtree(id) =~= h.subtree(id));
    if g.nodes.dom().contains(id) {
    }
}

/// The rows of some branches and one more.
proof fn lemma_rows_step(g: GraphModel, v: Seq<u64>, i: int, depth: nat)
    requires
        0 <= i < v.len(),
    ensures
        g.rows_of(v.take(i + 1), depth) == g.rows_of(v.take(i), depth) + g.rows(v[i], depth),
{
    assert(v.take(i + 1).drop_last() =~= v.take(i));
}

/// Every branch takes a row.
pub proof fn lemma_rows_positive(g: GraphModel, id: u64, depth: nat)
    ensures
        g.rows(id, depth) >= 1,
    decreases MAX_TIDY_DEPTH - depth,
{
    let v = g.branches(id);
    if v.len() > 0 && depth < MAX_TIDY_DEPTH {
        lemma_rows_positive(g, v.last(), depth + 1);
    }
}

// ---------------------------------------------------------------------------
// Rows
// ---------------------------------------------------------------------------

/// Nothing under `id` has been seen, and `id` is not under itself.
spec fn unseen(g: GraphModel, id: u64, seen: Set<u64>) -> bool {
    &&& !g.on_loop(id)
    &&& forall|x: u64| g.subtree(id).contains(x) ==> !#[trigger] seen.contains(x)
}

/// Children of one node, none of which has been seen.
spec fn all_unseen(g: GraphModel, p: u64, v: Seq<u64>, seen: Set<u64>) -> bool {
    &&& !g.on_loop(p)
    &&& v.no_duplicates()
    &&& forall|i: int| 0 <= i < v.len() ==> g.children(p).contains(#[trigger] v[i])
    &&& forall|i: int, x: u64|
        0 <= i < v.len() && g.subtree(#[trigger] v[i]).contains(x) ==> !#[trigger] seen.contains(x)
}

/// `x` is under one of `v`.
spec fn under_any(g: GraphModel, v: Seq<u64>, x: u64) -> bool {
    exists|i: int| 0 <= i < v.len() && g.subtree(#[trigger] v[i]).contains(x)
}

impl Graph {
    /// The rows that the branch of `id` takes.
    fn subtree_rows(
        &self,
        id: u64,
        depth: usize,
        seen: &mut HashSet<u64>,
        kids: &HashMap<u64, Vec<u64>>,
    ) -> (r: usize)
        requires
            self@.indexed_by(kids@),
            self@.has(id),
            depth <= MAX_TIDY_DEPTH,
            old(seen)@.subset_of(self@.nodes.dom()),
        ensures
            old(seen)@.subset_of(final(seen)@),
            final(seen)@.subset_of(self@.nodes.dom()),
            old(seen)@.len() + r <= final(seen)@.len(),
            unseen(self@, id, old(seen)@) ==> r == self@.rows(id, depth as nat) && forall|x: u64|
                #[trigger]
                final(seen)@.contains(x) ==> old(seen)@.contains(x) || self@.subtree(id).contains(x),
        decreases MAX_TIDY_DEPTH - depth, 0nat,
    {
        let ghost g = self@;
        let ghost was = seen@;
        let n: usize = self.nodes.len();
        proof {
            assert(g.nodes.dom() =~= self.nodes@.dom());
            assert(g.ancestor(id, 0) == Some(id));
            assert(g.subtree(id).contains(id));
            lemma_len_subset(was, g.nodes.dom());
        }
        if !seen.insert(id) {
            return 0;
        }
        proof {
            lemma_len_subset(seen@, g.nodes.dom());
        }
        if self.is_collapsed(id) || depth >= MAX_TIDY_DEPTH {
            return 1;
        }
        match kids.get(&id) {
            Some(v) => {
                let ghost mid = seen@;
                proof {
                    ids::lemma_listed(v@, g.children(id));
                    ids::lemma_lists_len(v@, g.children(id));
                    assert forall|i: int| 0 <= i < v@.len() implies g.children(id).contains(
                        #[trigger] v@[i],
                    ) by {
                        assert(v@.contains(v@[i]));
                    }
                    if unseen(g, id, was) {
                        assert(all_unseen(g, id, v@, mid)) by {
                            assert forall|i: int, x: u64|
                                0 <= i < v@.len() && g.subtree(#[trigger] v@[i]).contains(
                                    x,
                                ) implies !#[trigger] mid.contains(x) by {
                                lemma_child_under(g, id, v@[i], x);
                                lemma_not_under_child(g, id, v@[i]);
                            }
                        }
                    }
                }
                let sum: usize = self.branch_rows(v, depth + 1, seen, kids, Ghost(id));
                proof {
                    lemma_len_subset(seen@, g.nodes.dom());
                    if unseen(g, id, was) {
                        if v@.len() > 0 {
                            lemma_rows_positive(g, v@.last(), (depth + 1) as nat);
                        }
                        assert forall|x: u64| #[trigger] seen@.contains(x) implies was.contains(x)
                            || g.subtree(id).contains(x) by {
                            if !mid.contains(x) {
                                let i = choose|i: int|
                                    0 <= i < v@.len() && g.subtree(#[trigger] v@[i]).contains(x);
                                lemma_child_under(g, id, v@[i], x);
                            }
                        }
                    }
                }
                if sum == 0 {
                    1
                } else {
                    sum
                }
            },
            None => {
                proof {
                    assert(!kids@.dom().contains(id));
                    assert(ids::lists(Seq::<u64>::empty(), g.children(id))) by {
                        assert forall|x: u64| !g.children(id).contains(x) by {}
                    }
                    ids::lemma_listed(Seq::<u64>::empty(), g.children(id));
                }
                1
            },
        }
    }

    /// The rows that some branches take together.
    fn branch_rows(
        &self,
        v: &Vec<u64>,
        depth: usize,
        seen: &mut HashSet<u64>,
        kids: &HashMap<u64, Vec<u64>>,
        p: Ghost<u64>,
    ) -> (r: usize)
        requires
            self@.indexed_by(kids@),
            forall|i: int| 0 <= i < v@.len() ==> self@.has(#[trigger] v@[i]),
            depth <= MAX_TIDY_DEPTH,
            old(seen)@.subset_of(self@.nodes.dom()),
        ensures
            old(seen)@.subset_of(final(seen)@),
            final(seen)@.subset_of(self@.nodes.dom()),
            old(seen)@.len() + r <= final(seen)@.len(),
            all_unseen(self@, p@, v@, old(seen)@) ==> r == self@.rows_of(v@, depth as nat)
                && forall|x: u64| #[trigger]
                final(seen)@.contains(x) ==> old(seen)@.contains(x) || under_any(self@, v@, x),
        decreases MAX_TIDY_DEPTH - depth, 1nat,
    {
        let ghost g = self@;
        let ghost was = seen@;
        let n: usize = self.nodes.len();
        assert(g.nodes.dom() =~= self.nodes@.dom());
        let mut sum: usize = 0;
        let mut i: usize = 0;
        while i < v.len()
            invariant
                g == self@,
                n == g.nodes.dom().len(),
                g.nodes.dom().finite(),
                g.indexed_by(kids@),
                forall|k: int| 0 <= k < v@.len() ==> g.has(#[trigger] v@[k]),
                depth <= MAX_TIDY_DEPTH,
                i <= v@.len(),
                was.subset_of(seen@),
                seen@.subset_of(g.nodes.dom()),
                was.len() + sum <= seen@.len(),
                all_unseen(g, p@, v@, was) ==> sum == g.rows_of(v@.take(i as int), depth as nat)
                    && forall|x: u64| #[trigger]
                    seen@.contains(x) ==> was.contains(x) || under_any(g, v@.take(i as int), x),
            decreases v@.len() - i,
        {
            let id: u64 = v[i];
            let ghost mid = seen@;
            proof {
                assert(g.has(v@[i as int]));
                if all_unseen(g, p@, v@, was) {
                    lemma_rows_step(g, v@, i as int, depth as nat);
                    lemma_not_under_child(g, p@, id);
                    assert forall|x: u64| g.subtree(id).contains(x) implies !#[trigger] mid.contains(
                        x,
                    ) by {
                        if mid.contains(x) {
                            let t = v@.take(i as int);
                            assert(under_any(g, t, x));
                            let k = choose|k: int|
                                0 <= k < t.len() && g.subtree(#[trigger] t[k]).contains(x);
                            assert(g.children(p@).contains(v@[k]));
                            lemma_apart(g, p@, v@[k], id, x);
                        }
                    }
                }
            }
            let one: usize = self.subtree_rows(id, depth, seen, kids);
            proof {
                lemma_len_subset(seen@, g.nodes.dom());
                if all_unseen(g, p@, v@, was) {
                    let t = v@.take(i as int);
                    let u = v@.take(i + 1);
                    assert forall|x: u64| #[trigger] seen@.contains(x) implies was.contains(x)
                        || under_any(g, u, x) by {
                        if mid.contains(x) {
                            if !was.contains(x) {
                                let k = choose|k: int|
                                    0 <= k < t.len() && g.subtree(#[trigger] t[k]).contains(x);
                                assert(u[k] == t[k]);
                            }
                        } else {
                            assert(u[i as int] == id);
                        }
                    }
                }
            }
            sum = sum + one;
            i = i + 1;
        }
        assert(v@.take(i as int) =~= v@);
        sum
    }
}

// ---------------------------------------------------------------------------
// Places
// ---------------------------------------------------------------------------

/// The rows above the middle are no more than there are nodes.
const TOP_LIMIT: i128 = 0xffff_ffff_ffff_ffff;

/// The branch of `id` is where it was, and is to begin at `top`.
spec fn ready(
    g: GraphModel,
    cur: GraphModel,
    placed: Set<u64>,
    id: u64,
    depth: nat,
    top: int,
    dir: int,
) -> bool {
    &&& g.grounded()
    &&& g.laid(id, depth)
    &&& top == g.row_top(id, depth)
    &&& dir == g.lane(id, depth)
    &&& forall|x: u64| #[trigger]
        g.subtree(id).contains(x) ==> !placed.contains(x) && cur.nodes[x] == g.nodes[x]
}

/// Branches of one node are where they were, and are to begin at `top`, one below
/// the other.
spec fn all_ready(
    g: GraphModel,
    cur: GraphModel,
    placed: Set<u64>,
    p: u64,
    v: Seq<u64>,
    depth: nat,
    top: int,
    dir: int,
) -> bool {
    &&& g.grounded()
    &&& !g.on_loop(p)
    &&& v.no_duplicates()
    &&& forall|i: int|
        0 <= i < v.len() ==> {
            &&& g.children(p).contains(#[trigger] v[i])
            &&& g.laid(v[i], depth)
            &&& g.row_top(v[i], depth) == top + 2 * g.rows_of(v.take(i), depth)
            &&& g.lane(v[i], depth) == dir
        }
    &&& forall|i: int, x: u64|
        0 <= i < v.len() && #[trigger] g.subtree(#[trigger] v[i]).contains(x) ==> !placed.contains(x)
            && cur.nodes[x] == g.nodes[x]
}

spec fn under(g: GraphModel, v: Seq<u64>) -> Set<u64> {
    g.nodes.dom().filter(|x: u64| under_any(g, v, x))
}

/// What of `who` gets a place has it, and the rest is as it was.
spec fn placed_well<C: Fn(Coord, Coord, Coord) -> Coord>(
    g: GraphModel,
    before: GraphModel,
    after: GraphModel,
    was: Set<u64>,
    now: Set<u64>,
    who: Set<u64>,
    carry: &C,
) -> bool {
    forall|x: u64| #[trigger]
        g.nodes.dom().contains(x) ==> if who.contains(x) {
            seat(g, after.nodes[x], x, carry) && (now.contains(x) <==> g.seated(x))
        } else {
            after.nodes[x] == before.nodes[x] && (now.contains(x) <==> was.contains(x))
        }
}

/// What one step and then another place, both place.
proof fn lemma_placed_both<C: Fn(Coord, Coord, Coord) -> Coord>(
    g: GraphModel,
    a: GraphModel,
    b: GraphModel,
    c: GraphModel,
    pa: Set<u64>,
    pb: Set<u64>,
    pc: Set<u64>,
    one: Set<u64>,
    two: Set<u64>,
    both: Set<u64>,
    carry: &C,
)
    requires
        placed_well(g, a, b, pa, pb, one, carry),
        placed_well(g, b, c, pb, pc, two, carry),
        one.disjoint(two),
        forall|x: u64| #[trigger]
            g.nodes.dom().contains(x) ==> (both.contains(x) <==> one.contains(x) || two.contains(x)),
    ensures
        placed_well(g, a, c, pa, pc, both, carry),
{
}

impl Graph {
    /// Move what a folded node hides along with it, as it goes to `to`, and mark
    /// it placed. Hidden nodes are invisible to layout, but they are not homeless.
    fn move_hidden_branch<C: Fn(Coord, Coord, Coord) -> Coord>(
        &mut self,
        id: u64,
        to: (Coord, Coord),
        placed: &mut HashSet<u64>,
        carry: &C,
        g: Ghost<GraphModel>,
    )
        requires
            forall|a: Coord, b: Coord, c: Coord| #[trigger] carry.requires((a, b, c)),
            repositioned(g@, old(self)@),
            g@.has(id),
        ensures
            repositioned(g@, final(self)@),
            final(placed)@ == old(placed)@.union(g@.subtree(id)),
            forall|x: u64| #[trigger]
                g@.nodes.dom().contains(x) ==> {
                    let n = old(self)@.nodes[x];
                    let m = final(self)@.nodes[x];
                    let from = old(self)@.place_of(id);
                    if g@.subtree(id).contains(x) {
                        goes_along((n.x, n.y), from, to, (m.x, m.y), carry)
                    } else {
                        m == n
                    }
                },
    {
        proof {
            lemma_same_subtree(g@, self@, id);
        }
        let all = self.subtree_ids(id);
        assert(all@.to_set() =~= g@.subtree(id));
        let from: (Coord, Coord) = self.position(id);
        if !(from.0.bits == to.0.bits && from.1.bits == to.1.bits) {
            self.carry_all(&all, from, to, carry);
        }
        let ghost was = placed@;
        let mut i: usize = 0;
        while i < all.len()
            invariant
                i <= all@.len(),
                forall|x: u64| #[trigger]
                    placed@.contains(x) <==> was.contains(x) || all@.take(i as int).contains(x),
            decreases all@.len() - i,
        {
            let x: u64 = all[i];
            placed.insert(x);
            proof {
                ids::lemma_contains_push(all@, i as int);
            }
            i = i + 1;
        }
        assert(all@.take(i as int) =~= all@);
        assert(placed@ =~= was.union(g@.subtree(id)));
    }

    /// Places `id` in its column, occupying rows from `top` on, with what is under
    /// it. Returns the rows consumed. `depth` caps the recursion so a
    /// pathologically deep chain cannot blow the stack; anything past the cap is
    /// a stray.
    fn place_subtree<C: Fn(Coord, Coord, Coord) -> Coord>(
        &mut self,
        id: u64,
        dir: i128,
        top: i128,
        depth: usize,
        placed: &mut HashSet<u64>,
        kids: &HashMap<u64, Vec<u64>>,
        carry: &C,
        g: Ghost<GraphModel>,
    ) -> (r: usize)
        requires
            forall|a: Coord, b: Coord, c: Coord| #[trigger] carry.requires((a, b, c)),
            g@.indexed_by(kids@),
            repositioned(g@, old(self)@),
            g@.has(id),
            depth <= MAX_TIDY_DEPTH,
            dir == 1 || dir == -1,
            -TOP_LIMIT <= top <= 2 * old(placed)@.len(),
            old(placed)@.subset_of(g@.nodes.dom().insert(g@.root)),
        ensures
            repositioned(g@, final(self)@),
            old(placed)@.subset_of(final(placed)@),
            final(placed)@.subset_of(g@.nodes.dom().insert(g@.root)),
            old(placed)@.len() + r <= final(placed)@.len(),
            ready(
                g@,
                old(self)@,
                old(placed)@,
                id,
                depth as nat,
                top as int,
                dir as int,
            ) ==> r == g@.rows(id, depth as nat) && placed_well(
                g@,
                old(self)@,
                final(self)@,
                old(placed)@,
                final(placed)@,
                g@.subtree(id),
                carry,
            ),
        decreases MAX_TIDY_DEPTH - depth, 0nat,
    {
        let ghost before = self@;
        let ghost was = placed@;
        let ghost d = depth as nat;
        let ghost fine = ready(g@, before, was, id, d, top as int, dir as int);
        let m: usize = placed.len();
        proof {
            assert(g@.nodes.dom() =~= self.nodes@.dom());
            assert(g@.nodes.dom().insert(g@.root).finite());
            lemma_len_subset(was, g@.nodes.dom().insert(g@.root));
            lemma_same_subtree(g@, before, id);
            assert(g@.ancestor(id, 0) == Some(id));
            assert(g@.subtree(id).contains(id));
            if fine {
                lemma_level(g@, id, d);
            }
        }
        if !placed.insert(id) {
            return 0;
        }
        let across: i128 = if dir == 1 {
            depth as i128
        } else {
            -(depth as i128)
        };
        assert(across == dir * d) by (nonlinear_arith)
            requires
                dir == 1 || dir == -1,
                across == (if dir == 1 {
                    d as int
                } else {
                    -(d as int)
                }),
        ;
        let x: Coord = Coord::whole(TIDY_COL * across);
        let some = match kids.get(&id) {
            Some(v) => v.len() > 0,
            None => false,
        };
        let folded = self.is_collapsed(id);
        if folded || !some || depth >= MAX_TIDY_DEPTH {
            let y: Coord = Coord::whole(HALF_ROW * (top + 1));
            if folded {
                self.move_hidden_branch(id, (x, y), placed, carry, g);
            }
            self.place(id, x, y);
            proof {
                assert(self@.nodes.dom() =~= g@.nodes.dom());
                lemma_len_subset(placed@, g@.nodes.dom().insert(g@.root));
                lemma_len_subset(was.insert(id), placed@);
                if fine {
                    if !folded && !some {
                        if kids@.dom().contains(id) {
                            assert(kids@[id]@ =~= Seq::<u64>::empty());
                            assert forall|c: u64| !g@.children(id).contains(c) by {
                                assert(kids@[id]@.contains(c) <==> g@.children(id).contains(c));
                            }
                        }
                        assert(g@.children(id) =~= Set::<u64>::empty());
                        assert(ids::lists(Seq::<u64>::empty(), g@.children(id)));
                        ids::lemma_listed(Seq::<u64>::empty(), g@.children(id));
                    }
                    assert(g@.rows(id, d) == 1);
                    assert(g@.slot(id) == (x, y));
                    assert forall|z: u64| #[trigger] g@.nodes.dom().contains(z) implies (
                    if g@.subtree(id).contains(z) {
                        seat(g@, self@.nodes[z], z, carry) && (placed@.contains(z) <==> g@.seated(z))
                    } else {
                        self@.nodes[z] == before.nodes[z] && (placed@.contains(z) <==> was.contains(z))
                    }) by {
                        if g@.subtree(id).contains(z) && z != id {
                            assert(!was.contains(z));
                            assert(before.nodes[z] == g@.nodes[z]);
                            assert(before.nodes[id] == g@.nodes[id]);
                            if folded {
                                lemma_under_fold(g@, id, z);
                            } else {
                                lemma_under_leaf(g@, id, d, z);
                            }
                        }
                    }
                }
            }
            return 1;
        }
        match kids.get(&id) {
            Some(v) => {
                proof {
                    ids::lemma_listed(v@, g@.children(id));
                    ids::lemma_lists_len(v@, g@.children(id));
                    assert forall|i: int| 0 <= i < v@.len() implies g@.children(id).contains(
                        #[trigger] v@[i],
                    ) by {
                        assert(v@.contains(v@[i]));
                    }
                    if fine {
                        lemma_all_ready(g@, before, was, placed@, id, v@, d, top as int, dir as int);
                    }
                }
                let sum: usize = self.place_branches(
                    v,
                    dir,
                    top,
                    depth + 1,
                    placed,
                    kids,
                    carry,
                    g,
                    Ghost(id),
                );
                let span: usize = if sum == 0 {
                    1
                } else {
                    sum
                };
                let m2: usize = placed.len();
                proof {
                    lemma_len_subset(placed@, g@.nodes.dom().insert(g@.root));
                }
                let y: Coord = Coord::whole(HALF_ROW * (top + span as i128));
                self.place(id, x, y);
                proof {
                    assert(self@.nodes.dom() =~= g@.nodes.dom());
                    if fine {
                        lemma_rows_positive(g@, v@.last(), d + 1);
                        assert(span == g@.rows(id, d));
                        assert(g@.slot(id) == (x, y));
                        lemma_under_root(g@, id, d);
                        assert forall|z: u64| #[trigger] g@.nodes.dom().contains(z) implies (
                        if g@.subtree(id).contains(z) {
                            seat(g@, self@.nodes[z], z, carry) && (placed@.contains(z)
                                <==> g@.seated(z))
                        } else {
                            self@.nodes[z] == before.nodes[z] && (placed@.contains(z)
                                <==> was.contains(z))
                        }) by {
                            lemma_under_all(g@, id, v@, z);
                        }
                    }
                }
                span
            },
            None => 1,
        }
    }

    /// Places some branches of one node, one below the other. Returns the rows
    /// consumed.
    #[verifier::rlimit(60)]
    #[verifier::spinoff_prover]
    fn place_branches<C: Fn(Coord, Coord, Coord) -> Coord>(
        &mut self,
        v: &Vec<u64>,
        dir: i128,
        top: i128,
        depth: usize,
        placed: &mut HashSet<u64>,
        kids: &HashMap<u64, Vec<u64>>,
        carry: &C,
        g: Ghost<GraphModel>,
        p: Ghost<u64>,
    ) -> (r: usize)
        requires
            forall|a: Coord, b: Coord, c: Coord| #[trigger] carry.requires((a, b, c)),
            g@.indexed_by(kids@),
            repositioned(g@, old(self)@),
            forall|i: int| 0 <= i < v@.len() ==> g@.has(#[trigger] v@[i]),
            depth <= MAX_TIDY_DEPTH,
            dir == 1 || dir == -1,
            -TOP_LIMIT <= top <= 2 * old(placed)@.len(),
            old(placed)@.subset_of(g@.nodes.dom().insert(g@.root)),
        ensures
            repositioned(g@, final(self)@),
            old(placed)@.subset_of(final(placed)@),
            final(placed)@.subset_of(g@.nodes.dom().insert(g@.root)),
            old(placed)@.len() + r <= final(placed)@.len(),
            all_ready(
                g@,
                old(self)@,
                old(placed)@,
                p@,
                v@,
                depth as nat,
                top as int,
                dir as int,
            ) ==> r == g@.rows_of(v@, depth as nat) && placed_well(
                g@,
                old(self)@,
                final(self)@,
                old(placed)@,
                final(placed)@,
                under(g@, v@),
                carry,
            ),
        decreases MAX_TIDY_DEPTH - depth, 1nat,
    {
        let ghost before = self@;
        let ghost was = placed@;
        let ghost d = depth as nat;
        let ghost fine = all_ready(g@, before, was, p@, v@, d, top as int, dir as int);
        let ghost room = g@.nodes.dom().insert(g@.root);
        proof {
            assert(g@.nodes.dom() =~= self.nodes@.dom());
            assert(room.finite());
            assert(under(g@, v@.take(0)) =~= Set::<u64>::empty());
        }
        let mut sum: usize = 0;
        let mut i: usize = 0;
        while i < v.len()
            invariant
                forall|a: Coord, b: Coord, c: Coord| #[trigger] carry.requires((a, b, c)),
                g@.indexed_by(kids@),
                repositioned(g@, self@),
                forall|k: int| 0 <= k < v@.len() ==> g@.has(#[trigger] v@[k]),
                depth <= MAX_TIDY_DEPTH,
                dir == 1 || dir == -1,
                -TOP_LIMIT <= top <= 2 * was.len(),
                i <= v@.len(),
                room == g@.nodes.dom().insert(g@.root),
                room.finite(),
                d == depth,
                was.subset_of(placed@),
                placed@.subset_of(room),
                was.len() + sum <= placed@.len(),
                fine == all_ready(g@, before, was, p@, v@, d, top as int, dir as int),
                fine ==> sum == g@.rows_of(v@.take(i as int), d) && placed_well(
                    g@,
                    before,
                    self@,
                    was,
                    placed@,
                    under(g@, v@.take(i as int)),
                    carry,
                ),
            decreases v@.len() - i,
        {
            let id: u64 = v[i];
            let ghost mid = self@;
            let ghost pm = placed@;
            let m: usize = placed.len();
            proof {
                assert(g@.has(v@[i as int]));
                if fine {
                    lemma_rows_step(g@, v@, i as int, d);
                    assert forall|x: u64| #[trigger] g@.subtree(id).contains(x) implies !pm.contains(x)
                        && mid.nodes[x] == g@.nodes[x] by {
                        assert(g@.nodes.dom().contains(x));
                        assert(g@.subtree(v@[i as int]).contains(x));
                        lemma_not_under_earlier(g@, p@, v@, i as int, x);
                    }
                    assert(ready(g@, mid, pm, id, d, (top + 2 * sum), dir as int));
                }
            }
            let one: usize = self.place_subtree(
                id,
                dir,
                top + 2 * (sum as i128),
                depth,
                placed,
                kids,
                carry,
                g,
            );
            let m2: usize = placed.len();
            proof {
                lemma_len_subset(placed@, room);
                if fine {
                    let t = v@.take(i as int);
                    let u = v@.take(i + 1);
                    assert forall|x: u64| #[trigger] g@.nodes.dom().contains(x) implies (under(
                        g@,
                        u,
                    ).contains(x) <==> under(g@, t).contains(x) || g@.subtree(id).contains(x)) by {
                        if under_any(g@, t, x) {
                            let k = choose|k: int|
                                0 <= k < t.len() && g@.subtree(#[trigger] t[k]).contains(x);
                            assert(u[k] == t[k]);
                        }
                        if under_any(g@, u, x) {
                            let k = choose|k: int|
                                0 <= k < u.len() && g@.subtree(#[trigger] u[k]).contains(x);
                            if k < i {
                                assert(t[k] == u[k]);
                            }
                        }
                        assert(u[i as int] == id);
                    }
                    assert forall|x: u64| !(under(g@, t).contains(x) && g@.subtree(id).contains(x)) by {
                        if g@.subtree(id).contains(x) {
                            lemma_not_under_earlier(g@, p@, v@, i as int, x);
                        }
                    }
                    lemma_placed_both(
                        g@,
                        before,
                        mid,
                        self@,
                        was,
                        pm,
                        placed@,
                        under(g@, t),
                        g@.subtree(id),
                        under(g@, u),
                        carry,
                    );
                }
            }
            sum = sum + one;
            i = i + 1;
        }
        assert(v@.take(i as int) =~= v@);
        sum
    }
}

/// What is under a branch is under none of those before it.
proof fn lemma_not_under_earlier(g: GraphModel, p: u64, v: Seq<u64>, i: int, x: u64)
    requires
        !g.on_loop(p),
        v.no_duplicates(),
        forall|k: int| 0 <= k < v.len() ==> g.children(p).contains(#[trigger] v[k]),
        0 <= i < v.len(),
        g.subtree(v[i]).contains(x),
    ensures
        !under(g, v.take(i)).contains(x),
{
    let t = v.take(i);
    if under_any(g, t, x) {
        let k = choose|k: int| 0 <= k < t.len() && g.subtree(#[trigger] t[k]).contains(x);
        assert(v[k] != v[i]);
        assert(g.children(p).contains(v[k]) && g.children(p).contains(v[i]));
        lemma_apart(g, p, v[k], v[i], x);
    }
}

/// The nodes under `id` are `id` and those under its children.
proof fn lemma_under_all(g: GraphModel, id: u64, v: Seq<u64>, x: u64)
    requires
        g.has(id),
        !g.on_loop(id),
        ids::lists(v, g.children(id)),
    ensures
        under(g, v).contains(x) <==> g.subtree(id).contains(x) && x != id,
{
    if under_any(g, v, x) {
        let k = choose|k: int| 0 <= k < v.len() && g.subtree(#[trigger] v[k]).contains(x);
        assert(v.contains(v[k]));
        lemma_child_under(g, id, v[k], x);
        lemma_not_under_child(g, id, v[k]);
    }
    if g.subtree(id).contains(x) && x != id {
        let c = lemma_under_child(g, id, x);
        assert(v.contains(c));
        let k = choose|k: int| 0 <= k < v.len() && v[k] == c;
        assert(g.subtree(v[k]).contains(x));
    }
}

/// The branches of a node that is ready are ready.
proof fn lemma_all_ready(
    g: GraphModel,
    cur: GraphModel,
    was: Set<u64>,
    placed: Set<u64>,
    id: u64,
    v: Seq<u64>,
    d: nat,
    top: int,
    dir: int,
)
    requires
        ready(g, cur, was, id, d, top, dir),
        placed == was.insert(id),
        !g.collapsed(id),
        d < MAX_TIDY_DEPTH,
        ids::lists(v, g.children(id)),
    ensures
        all_ready(g, cur, placed, id, v, d + 1, top, dir),
{
    lemma_under_root(g, id, d);
    ids::lemma_listed(v, g.children(id));
    ids::lemma_lists_len(v, g.children(id));
    assert forall|i: int| 0 <= i < v.len() implies {
        &&& g.children(id).contains(#[trigger] v[i])
        &&& g.laid(v[i], d + 1)
        &&& g.row_top(v[i], d + 1) == top + 2 * g.rows_of(v.take(i), d + 1)
        &&& g.lane(v[i], d + 1) == dir
    } by {
        assert(v.contains(v[i]));
        lemma_child_laid(g, id, v[i], d);
        assert(v.index_of(v[i]) == i);
    }
    assert forall|i: int, x: u64|
        0 <= i < v.len() && #[trigger] g.subtree(#[trigger] v[i]).contains(x) implies !placed.contains(
        x,
    ) && cur.nodes[x] == g.nodes[x] by {
        assert(v.contains(v[i]));
        lemma_child_under(g, id, v[i], x);
        lemma_not_under_child(g, id, v[i]);
        assert(g.subtree(id).contains(x));
    }
}

// ---------------------------------------------------------------------------
// Sides
// ---------------------------------------------------------------------------

/// Arranging by another measure that agrees.
proof fn lemma_same_measure(
    v: Seq<u64>,
    s: Set<u64>,
    a: spec_fn(u64) -> order::Place,
    b: spec_fn(u64) -> order::Place,
)
    requires
        order::arranges(v, s, a),
        forall|x: u64| s.contains(x) ==> #[trigger] a(x) == b(x),
    ensures
        order::arranges(v, s, b),
{
    assert forall|i: int, j: int| 0 <= i < j < v.len() implies order::before(
        b(#[trigger] v[i]),
        b(#[trigger] v[j]),
    ) by {
        assert(v.contains(v[i]) && v.contains(v[j]));
        assert(a(v[i]) == b(v[i]));
        assert(a(v[j]) == b(v[j]));
    }
}

/// What has a place and is not the root is under a branch of the root.
proof fn lemma_seated_under(g: GraphModel, x: u64) -> (c: u64)
    requires
        g.has(x),
        g.seated(x),
        x != g.root,
        !g.collapsed(g.root),
    ensures
        g.children(g.root).contains(c),
        g.subtree(c).contains(x),
{
    let y = if g.shown(x) {
        x
    } else {
        g.carrier_of(x)
    };
    assert(g.ancestor(x, 0) == Some(x));
    let k = choose|k: nat| g.ancestor(x, k) == Some(y);
    let d = g.level(y);
    assert(g.laid(y, d));
    tree::lemma_ancestor_sum(g, x, k, (d - 1) as nat);
    let c = g.ancestor(y, (d - 1) as nat)->0;
    assert(g.parent_of(c) == Some(g.root));
    assert(g.above(c, x));
    c
}

/// Under a folded root, everything that has a place goes along with it.
proof fn lemma_seated_folded(g: GraphModel, x: u64)
    requires
        g.grounded(),
        g.has(x),
        x != g.root,
        g.collapsed(g.root),
    ensures
        g.seated(x) <==> g.subtree(g.root).contains(x),
        g.seated(x) ==> g.carrier_of(x) == g.root && !g.shown(x),
{
    if g.subtree(g.root).contains(x) {
        lemma_under_fold(g, g.root, x);
    }
    if g.seated(x) {
        if g.shown(x) {
            let d = g.level(x);
            assert(g.laid(x, d));
            assert(g.folded_at(x, d));
        } else {
            let y = g.carrier_of(x);
            if y != g.root {
                let d = g.level(y);
                assert(g.laid(y, d));
                assert(g.folded_at(y, d));
            }
        }
    }
}

impl Graph {
    /// The branches of the root in the order in which they are dealt.
    fn by_size(&self, v: &Vec<u64>, kids: &HashMap<u64, Vec<u64>>) -> (r: Vec<u64>)
        requires
            self@.indexed_by(kids@),
            ids::lists(v@, self@.children(self@.root)),
        ensures
            forall|x: u64| #[trigger] r@.contains(x) <==> v@.contains(x),
            r@.no_duplicates(),
            self@.grounded() ==> r@ == order::arranged(
                self@.children(self@.root),
                self@.by_size(),
            ),
    {
        let ghost g = self@;
        let mut items: Vec<order::Key> = Vec::new();
        let mut i: usize = 0;
        proof {
            ids::lemma_lists_len(v@, g.children(g.root));
        }
        while i < v.len()
            invariant
                g == self@,
                g.indexed_by(kids@),
                ids::lists(v@, g.children(g.root)),
                i <= v@.len(),
                items@.len() == i,
                forall|k: int|
                    0 <= k < i ==> (#[trigger] items@[k]).2 == v@[k] && (g.grounded()
                        ==> order::key_place(items@[k]) == (g.by_size())(v@[k])),
            decreases v@.len() - i,
        {
            let id: u64 = v[i];
            assert(v@.contains(id));
            let rows: usize = self.rows_under_root(id, kids);
            items.push((-(rows as i128), 0, id));
            i = i + 1;
        }
        let ghost place = |x: u64| order::key_place(items@[v@.index_of(x)]);
        proof {
            assert forall|k: int| 0 <= k < items@.len() implies place((#[trigger] items@[k]).2)
                == order::key_place(items@[k]) by {
                assert(v@.index_of(v@[k]) == k);
            }
        }
        let r = order::arrange(&items, Ghost(place));
        proof {
            assert(items@.map_values(|k: order::Key| k.2) =~= v@);
            assert(v@.to_set() =~= g.children(g.root));
            order::lemma_arranges_distinct(r@, g.children(g.root), place);
            if g.grounded() {
                assert forall|x: u64| g.children(g.root).contains(x) implies #[trigger] place(x)
                    == (g.by_size())(x) by {
                    assert(v@.contains(x));
                    let k = choose|k: int| 0 <= k < v@.len() && v@[k] == x;
                    assert(v@.index_of(x) == k);
                    assert(items@[k].2 == v@[k]);
                }
                lemma_same_measure(r@, g.children(g.root), place, g.by_size());
                order::lemma_arranged(r@, g.children(g.root), g.by_size());
            }
        }
        r
    }

    /// The rows that a branch of the root takes.
    fn rows_under_root(&self, id: u64, kids: &HashMap<u64, Vec<u64>>) -> (r: usize)
        requires
            self@.indexed_by(kids@),
            self@.children(self@.root).contains(id),
        ensures
            self@.grounded() ==> r == self@.rows(id, 1),
    {
        let mut seen: HashSet<u64> = HashSet::new();
        proof {
            if self@.grounded() {
                lemma_not_under_child(self@, self@.root, id);
            }
        }
        self.subtree_rows(id, 1, &mut seen, kids)
    }

    /// The branches of the root, dealt to the right and to the left: biggest first,
    /// each onto whichever side is the shorter then. That settles the rows of both
    /// sides. Where the same rows can be shared out so that the map reads in its
    /// own order, they are, so that importing what was exported changes nothing.
    fn sides(&self, kids: &HashMap<u64, Vec<u64>>) -> (r: (Vec<u64>, Vec<u64>))
        requires
            self@.indexed_by(kids@),
        ensures
            ids::increasing(r.0@),
            ids::increasing(r.1@),
            branches_dealt(self@, r.0@, r.1@),
            self@.grounded() ==> r.0@ == self@.right_side() && r.1@ == self@.left_side(),
    {
        let ghost g = self@;
        let root: u64 = self.root_id;
        let mut right: Vec<u64> = Vec::new();
        let mut left: Vec<u64> = Vec::new();
        let folded = self.is_collapsed(root);
        let v: Vec<u64> = if folded {
            Vec::new()
        } else {
            self.children_of(root)
        };
        let sized: Vec<u64> = if folded {
            Vec::new()
        } else {
            self.by_size(&v, kids)
        };
        let ghost all = if folded {
            Set::<u64>::empty()
        } else {
            g.children(root)
        };
        assert(forall|x: u64| #[trigger] sized@.contains(x) <==> all.contains(x));
        let mut rw: u128 = 0;
        let mut lw: u128 = 0;
        let mut i: usize = 0;
        while i < sized.len()
            invariant
                g == self@,
                g.indexed_by(kids@),
                i <= sized@.len(),
                sized@.no_duplicates(),
                all.subset_of(g.children(g.root)),
                forall|x: u64| #[trigger] sized@.contains(x) <==> all.contains(x),
                right@.no_duplicates(),
                left@.no_duplicates(),
                forall|x: u64| #[trigger] right@.contains(x) ==> !left@.contains(x),
                forall|x: u64|
                    #![trigger right@.contains(x)]
                    #![trigger left@.contains(x)]
                    #![trigger sized@.take(i as int).contains(x)]
                    sized@.take(i as int).contains(x) <==> right@.contains(x) || left@.contains(x),
                rw <= i * 0xffff_ffff_ffff_ffff,
                lw <= i * 0xffff_ffff_ffff_ffff,
                g.grounded() ==> (right@, left@) == g.dealt(sized@.take(i as int)) && rw
                    == g.rows_of(right@, 1) && lw == g.rows_of(left@, 1),
            decreases sized@.len() - i,
        {
            let id: u64 = sized[i];
            let ghost t = sized@.take(i as int);
            let ghost u = sized@.take(i + 1);
            proof {
                assert(sized@.contains(id));
                ids::lemma_contains_push(sized@, i as int);
                crate::graph::sanitize::lemma_fresh(sized@, i as int);
                assert(u.drop_last() =~= t);
                assert(right@.push(id).drop_last() =~= right@);
                assert(left@.push(id).drop_last() =~= left@);
            }
            let rows: usize = self.rows_under_root(id, kids);
            let ghost r0 = right@;
            let ghost l0 = left@;
            if rw <= lw {
                right.push(id);
                rw = rw + rows as u128;
                proof {
                    lemma_pushed(r0, id);
                }
            } else {
                left.push(id);
                lw = lw + rows as u128;
                proof {
                    lemma_pushed(l0, id);
                }
            }
            i = i + 1;
        }
        let ghost r0 = right@;
        let ghost l0 = left@;
        ids::sort_distinct(&mut right);
        ids::sort_distinct(&mut left);
        proof {
            assert(sized@.take(i as int) =~= sized@);
            ids::lemma_listed(right@, r0.to_set());
            ids::lemma_listed(left@, l0.to_set());
            assert forall|x: u64| #[trigger] right@.contains(x) <==> r0.contains(x) by {
                assert(r0.to_set().contains(x) <==> r0.contains(x));
            }
            assert forall|x: u64| #[trigger] left@.contains(x) <==> l0.contains(x) by {
                assert(l0.to_set().contains(x) <==> l0.contains(x));
            }
            assert forall|x: u64| #[trigger] all.contains(x) <==> right@.contains(x)
                || left@.contains(x) by {
                assert(all.contains(x) <==> sized@.contains(x));
                assert(sized@.take(i as int).contains(x) <==> r0.contains(x) || l0.contains(x));
            }
            assert(branches_dealt(g, right@, left@)) by {
                assert forall|x: u64| right@.contains(x) || left@.contains(x) implies all.contains(
                    x,
                ) by {}
            }
            assert(g.grounded() ==> sized@ == g.sized()) by {
                if folded {
                    assert(sized@ =~= Seq::<u64>::empty());
                }
            }
            if folded {
                assert(v@ =~= Seq::<u64>::empty());
            } else {
                ids::lemma_listed(v@, g.children(root));
            }
            assert(v@ == g.branches(root));
            assert forall|x: u64| #[trigger] v@.contains(x) <==> all.contains(x) by {}
        }
        match self.orderly_sides(&v, kids, rw) {
            Some(p) => {
                let right = take_side(&v, &p, true);
                let left = take_side(&v, &p, false);
                proof {
                    deal::lemma_picked(v@, p@, true);
                    deal::lemma_picked(v@, p@, false);
                    lemma_both_sides(v@, p@);
                    assert(branches_dealt(g, right@, left@)) by {
                        assert forall|x: u64| right@.contains(x) || left@.contains(x) <==> (
                        g.children(g.root).contains(x) && !g.collapsed(g.root)) by {
                            assert(v@.contains(x) <==> all.contains(x));
                        }
                    }
                }
                (right, left)
            },
            None => {
                proof {
                    if g.grounded() {
                        lemma_greedy_sides(g, v@, r0, l0, right@, left@);
                    }
                }
                (right, left)
            },
        }
    }

    /// A deal by which the map reads in its own order, with `rw` rows on the right,
    /// if there is one.
    fn orderly_sides(&self, v: &Vec<u64>, kids: &HashMap<u64, Vec<u64>>, rw: u128) -> (r: Option<
        Vec<bool>,
    >)
        requires
            self@.indexed_by(kids@),
            v@ == self@.branches(self@.root),
            ids::increasing(v@),
            forall|x: u64| #[trigger] v@.contains(x) ==> self@.children(self@.root).contains(x),
        ensures
            r matches Some(p) ==> p@.len() == v@.len(),
            self@.grounded() && rw == self@.right_total() ==> match r {
                Some(p) => self@.reads_in_order() && p@ == self@.on_right(),
                None => !self@.reads_in_order(),
            },
    {
        let ghost g = self@;
        let n: usize = v.len();
        let mut sizes: Vec<usize> = Vec::new();
        let mut total: u128 = 0;
        let mut i: usize = 0;
        while i < n
            invariant
                g == self@,
                g.indexed_by(kids@),
                i <= n,
                n == v@.len(),
                forall|x: u64| #[trigger] v@.contains(x) ==> g.children(g.root).contains(x),
                sizes@.len() == i,
                total <= i * 0xffff_ffff_ffff_ffff,
                total == deal::upto(deal::sizes_of(sizes@), i as int),
                g.grounded() ==> forall|k: int|
                    0 <= k < i ==> #[trigger] sizes@[k] == g.rows(v@[k], 1),
                g.grounded() ==> total == g.rows_of(v@.take(i as int), 1),
            decreases n - i,
        {
            assert(v@.contains(v@[i as int]));
            let rows: usize = self.rows_under_root(v[i], kids);
            proof {
                assert(v@.take(i + 1).drop_last() =~= v@.take(i as int));
            }
            let ghost was = sizes@;
            sizes.push(rows);
            total = total + rows as u128;
            proof {
                lemma_upto_prefix(deal::sizes_of(was), deal::sizes_of(sizes@), i as int);
            }
            i = i + 1;
        }
        proof {
            assert(v@.take(n as int) =~= v@);
            assert forall|k: int| 0 <= k < v@.len() implies g.children(g.root).contains(
                #[trigger] v@[k],
            ) by {
                assert(v@.contains(v@[k]));
            }
        }
        let mut seen: HashSet<u64> = HashSet::new();
        let most: usize = self.branch_rows(v, 1, &mut seen, kids, Ghost(self.root_id));
        proof {
            if g.grounded() {
                assert(all_unseen(g, g.root, v@, Set::empty()));
                assert(most == total);
                assert(deal::sizes_of(sizes@) =~= g.branch_sizes());
                lemma_upto_rows(g, v@, v@.len() as int);
            }
        }
        if total > usize::MAX as u128 || rw > total {
            proof {
                if g.grounded() && rw == g.right_total() && g.reads_in_order() {
                    deal::lemma_within(
                        g.branch_sizes(),
                        0,
                        0,
                        false,
                        g.right_total(),
                        g.left_total(),
                    );
                }
            }
            return None;
        }
        proof {
            assert(deal::upto(deal::sizes_of(sizes@), n as int) == total);
        }
        let rt: usize = rw as usize;
        let lt: usize = (total - rw) as usize;
        let r = deal::find(&sizes, rt, lt);
        proof {
            deal::lemma_picks(deal::sizes_of(sizes@), rt as int, lt as int);
        }
        r
    }

    /// Re-lay the whole tree: children stacked vertically beside their parent,
    /// each parent centered on the span its subtree occupies.
    ///
    /// Two-sided, the way a mind map is drawn: the root's branches split left and
    /// right instead of all stacking to one side. On a damaged map whose root is
    /// under itself, nodes move and nothing else changes.
    pub fn tidy<C: Fn(Coord, Coord, Coord) -> Coord>(&mut self, carry: &C)
        requires
            forall|a: Coord, b: Coord, c: Coord| #[trigger] carry.requires((a, b, c)),
        ensures
            repositioned(old(self)@, final(self)@),
            old(self)@.grounded() ==> tidied(old(self)@, final(self)@, carry),
    {
        let ghost g = self@;
        let root: u64 = self.root_id;
        let kids = self.children_index();
        let (right, left) = self.sides(&kids);
        proof {
            lemma_side_has(g, right@, left@);
        }
        let mut seen: HashSet<u64> = HashSet::new();
        let right_rows: usize = self.branch_rows(&right, 1, &mut seen, &kids, Ghost(root));
        let mut seen_left: HashSet<u64> = HashSet::new();
        let left_rows: usize = self.branch_rows(&left, 1, &mut seen_left, &kids, Ghost(root));
        let mut placed: HashSet<u64> = HashSet::new();
        placed.insert(root);
        let folded = self.is_collapsed(root);
        if folded {
            self.move_hidden_branch(
                root,
                (Coord::whole(0), Coord::whole(0)),
                &mut placed,
                carry,
                Ghost(g),
            );
        }
        let ghost s0 = self@;
        let ghost p0 = placed@;
        proof {
            if g.grounded() {
                assert forall|i: int, x: u64|
                    0 <= i < right@.len() && #[trigger] g.subtree(#[trigger] right@[i]).contains(
                        x,
                    ) implies !p0.contains(x) && s0.nodes[x] == g.nodes[x] by {
                    assert(right@.contains(right@[i]));
                    lemma_not_under_child(g, root, right@[i]);
                }
                lemma_side_ready(g, s0, p0, right@, left@, true);
            }
        }
        self.place_branches(
            &right,
            1,
            -(right_rows as i128),
            1,
            &mut placed,
            &kids,
            carry,
            Ghost(g),
            Ghost(root),
        );
        let ghost s1 = self@;
        let ghost p1 = placed@;
        proof {
            if g.grounded() {
                assert forall|i: int, x: u64|
                    0 <= i < left@.len() && #[trigger] g.subtree(#[trigger] left@[i]).contains(
                        x,
                    ) implies !p1.contains(x) && s1.nodes[x] == g.nodes[x] by {
                    assert(left@.contains(left@[i]));
                    lemma_not_under_child(g, root, left@[i]);
                    lemma_other_side(g, right@, left@, left@[i], x);
                    assert(g.nodes.dom().contains(x));
                }
                lemma_side_ready(g, s1, p1, left@, right@, false);
            }
        }
        self.place_branches(
            &left,
            -1,
            -(left_rows as i128),
            1,
            &mut placed,
            &kids,
            carry,
            Ghost(g),
            Ghost(root),
        );
        let ghost s2 = self@;
        let ghost p2 = placed@;
        self.place(root, Coord::whole(0), Coord::whole(0));
        proof {
            assert(self@.nodes.dom() =~= g.nodes.dom());
            if g.grounded() {
                assert forall|x: u64| #[trigger] g.nodes.dom().contains(x) implies seat(
                    g,
                    self@.nodes[x],
                    x,
                    carry,
                ) && (p2.contains(x) <==> g.seated(x)) by {
                    assert(s0.nodes.dom().contains(x));
                    lemma_seat_found(g, s0, s1, s2, p0, p1, p2, right@, left@, carry, x);
                }
            }
        }
        let most: usize = if right_rows > left_rows {
            right_rows
        } else {
            left_rows
        };
        let base: i128 = (if most > 1 {
            most as i128
        } else {
            1
        }) + 4;
        let strays = self.strays(&placed);
        proof {
            assert forall|i: int| 0 <= i < strays@.len() implies self@.has(#[trigger] strays@[i]) by {
                assert(strays@.contains(strays@[i]));
            }
            if g.grounded() {
                assert(ids::lists(strays@, g.strays()));
                ids::lemma_listed(strays@, g.strays());
            }
        }
        self.line_up(&strays, base, Ghost(g));
        assert(g.grounded() ==> base == g.strays_top());
    }

    /// What is not placed and hangs somewhere, in ascending order. Free nodes are
    /// deliberately parentless and keep the place the user put them.
    fn strays(&self, placed: &HashSet<u64>) -> (r: Vec<u64>)
        ensures
            ids::increasing(r@),
            forall|x: u64| #[trigger]
                r@.contains(x) <==> self@.has(x) && !placed@.contains(x) && self@.parent_of(
                    x,
                ) is Some,
    {
        let all = ids::sorted_keys(&self.nodes);
        let mut out: Vec<u64> = Vec::new();
        let mut i: usize = 0;
        while i < all.len()
            invariant
                i <= all@.len(),
                ids::lists(all@, self.nodes@.dom()),
                ids::increasing(out@),
                forall|x: u64| #[trigger]
                    out@.contains(x) <==> all@.take(i as int).contains(x) && !placed@.contains(x)
                        && self@.parent_of(x) is Some,
            decreases all@.len() - i,
        {
            let id: u64 = all[i];
            let ghost before = out@;
            let kept = !placed.contains(&id) && self.parent_of(id).is_some();
            if kept {
                out.push(id);
            }
            proof {
                ids::lemma_take(all@, i as int, before, out@, kept);
            }
            i = i + 1;
        }
        assert(all@.take(i as int) =~= all@);
        out
    }

    /// Put some nodes into a column of their own, from the half row `base` down.
    fn line_up(&mut self, v: &Vec<u64>, base: i128, g: Ghost<GraphModel>)
        requires
            repositioned(g@, old(self)@),
            ids::increasing(v@),
            forall|i: int| 0 <= i < v@.len() ==> old(self)@.has(#[trigger] v@[i]),
            0 <= base <= 2 * TOP_LIMIT,
        ensures
            repositioned(g@, final(self)@),
            forall|x: u64|
                g@.has(x) && !v@.contains(x) ==> #[trigger] final(self)@.nodes[x] == old(
                    self,
                )@.nodes[x],
            forall|i: int|
                0 <= i < v@.len() ==> {
                    let n = final(self)@.nodes[#[trigger] v@[i]];
                    &&& n.x == coord::spec_whole(0)
                    &&& n.y == coord::spec_whole(HALF_ROW * (base + 2 * i))
                },
    {
        let ghost before = self@;
        let mut i: usize = 0;
        while i < v.len()
            invariant
                repositioned(g@, self@),
                ids::increasing(v@),
                forall|k: int| 0 <= k < v@.len() ==> g@.has(#[trigger] v@[k]),
                0 <= base <= 2 * TOP_LIMIT,
                i <= v@.len(),
                forall|x: u64|
                    g@.has(x) && !v@.contains(x) ==> #[trigger] self@.nodes[x] == before.nodes[x],
                forall|k: int|
                    0 <= k < i ==> {
                        let n = self@.nodes[#[trigger] v@[k]];
                        &&& n.x == coord::spec_whole(0)
                        &&& n.y == coord::spec_whole(HALF_ROW * (base + 2 * k))
                    },
            decreases v@.len() - i,
        {
            let id: u64 = v[i];
            assert(v@.contains(id));
            self.place(id, Coord::whole(0), Coord::whole(HALF_ROW * (base + 2 * (i as i128))));
            assert(self@.nodes.dom() =~= g@.nodes.dom());
            i = i + 1;
        }
    }
}

proof fn lemma_pushed(v: Seq<u64>, id: u64)
    requires
        v.no_duplicates(),
        !v.contains(id),
    ensures
        v.push(id).no_duplicates(),
        forall|x: u64| #[trigger] v.push(id).contains(x) <==> v.contains(x) || x == id,
{
    let w = v.push(id);
    assert forall|x: u64| #[trigger] w.contains(x) <==> v.contains(x) || x == id by {
        if v.contains(x) {
            let k = choose|k: int| 0 <= k < v.len() && v[k] == x;
            assert(w[k] == x);
        }
        if x == id {
            assert(w[v.len() as int] == x);
        }
    }
    assert forall|i: int, j: int| 0 <= i < w.len() && 0 <= j < w.len() && i != j implies w[i]
        != w[j] by {
        if i == v.len() {
            assert(v.contains(v[j]));
        } else if j == v.len() {
            assert(v.contains(v[i]));
        }
    }
}

/// The branches of a list that are on one side.
fn take_side(v: &Vec<u64>, p: &Vec<bool>, side: bool) -> (r: Vec<u64>)
    requires
        v@.len() == p@.len(),
    ensures
        r@ == deal::picked(v@, p@, side),
{
    let mut out: Vec<u64> = Vec::new();
    let mut i: usize = 0;
    while i < v.len()
        invariant
            i <= v@.len(),
            v@.len() == p@.len(),
            out@ == deal::picked(v@.take(i as int), p@, side),
        decreases v@.len() - i,
    {
        assert(v@.take(i + 1).drop_last() =~= v@.take(i as int));
        if p[i] == side {
            out.push(v[i]);
        }
        i = i + 1;
    }
    assert(v@.take(i as int) =~= v@);
    out
}

/// Every one of a list is on one side, and none on both.
pub proof fn lemma_both_sides(v: Seq<u64>, p: Seq<bool>)
    requires
        ids::increasing(v),
    ensures
        forall|x: u64| #[trigger]
            v.contains(x) <==> deal::picked(v, p, true).contains(x) || deal::picked(
                v,
                p,
                false,
            ).contains(x),
        forall|x: u64| #[trigger]
            deal::picked(v, p, true).contains(x) ==> !deal::picked(v, p, false).contains(x),
{
    deal::lemma_picked(v, p, true);
    deal::lemma_picked(v, p, false);
    let r = deal::picked(v, p, true);
    let l = deal::picked(v, p, false);
    assert forall|x: u64| #[trigger] v.contains(x) <==> r.contains(x) || l.contains(x) by {
        if v.contains(x) {
            let i = choose|i: int| 0 <= i < v.len() && v[i] == x;
            if p[i] {
                assert(r.contains(x));
            } else {
                assert(l.contains(x));
            }
        }
        if r.contains(x) {
            let i = choose|i: int| 0 <= i < v.len() && p[i] == true && #[trigger] v[i] == x;
            assert(v[i] == x);
        }
        if l.contains(x) {
            let i = choose|i: int| 0 <= i < v.len() && p[i] == false && #[trigger] v[i] == x;
            assert(v[i] == x);
        }
    }
    assert forall|x: u64| #[trigger] r.contains(x) implies !l.contains(x) by {
        if l.contains(x) {
            let i = choose|i: int| 0 <= i < v.len() && p[i] == true && #[trigger] v[i] == x;
            let j = choose|j: int| 0 <= j < v.len() && p[j] == false && #[trigger] v[j] == x;
            if i < j {
                assert(v[i] < v[j]);
            } else if j < i {
                assert(v[j] < v[i]);
            }
        }
    }
}

/// The rows of the first branches of the root.
pub proof fn lemma_upto_rows(g: GraphModel, v: Seq<u64>, k: int)
    requires
        0 <= k <= v.len(),
        v == g.branches(g.root),
    ensures
        deal::upto(g.branch_sizes(), k) == g.rows_of(v.take(k), 1),
    decreases k,
{
    if k > 0 {
        lemma_upto_rows(g, v, k - 1);
        assert(v.take(k).drop_last() =~= v.take(k - 1));
    }
}

/// What comes later does not count.
proof fn lemma_upto_prefix(s: Seq<nat>, t: Seq<nat>, k: int)
    requires
        0 <= k <= s.len(),
        k <= t.len(),
        forall|i: int| 0 <= i < k ==> #[trigger] s[i] == t[i],
    ensures
        deal::upto(s, k) == deal::upto(t, k),
    decreases k,
{
    if k > 0 {
        lemma_upto_prefix(s, t, k - 1);
        assert(s[k - 1] == t[k - 1]);
    }
}

/// Branches dealt by size are on the sides that they were dealt to.
proof fn lemma_greedy_sides(
    g: GraphModel,
    v: Seq<u64>,
    r0: Seq<u64>,
    l0: Seq<u64>,
    right: Seq<u64>,
    left: Seq<u64>,
)
    requires
        v == g.branches(g.root),
        ids::increasing(v),
        !g.reads_in_order(),
        r0 == g.dealt(g.sized()).0,
        ids::lists(right, r0.to_set()),
        ids::lists(left, l0.to_set()),
        forall|x: u64| #[trigger] right.contains(x) ==> !left.contains(x),
        forall|x: u64| #[trigger] v.contains(x) <==> right.contains(x) || left.contains(x),
    ensures
        right == g.right_side(),
        left == g.left_side(),
{
    let p = g.on_right();
    deal::lemma_picked(v, p, true);
    deal::lemma_picked(v, p, false);
    assert forall|x: u64| #[trigger] g.right_side().contains(x) <==> r0.to_set().contains(x) by {
        assert(r0.to_set().contains(x) <==> r0.contains(x));
        assert(right.contains(x) <==> r0.to_set().contains(x));
        if r0.contains(x) {
            assert(v.contains(x));
            let i = choose|i: int| 0 <= i < v.len() && v[i] == x;
            assert(p[i]);
        }
    }
    assert forall|x: u64| #[trigger] g.left_side().contains(x) <==> l0.to_set().contains(x) by {
        assert(left.contains(x) <==> l0.to_set().contains(x));
        assert(right.contains(x) <==> r0.to_set().contains(x));
        assert(r0.to_set().contains(x) <==> r0.contains(x));
        if l0.to_set().contains(x) {
            assert(v.contains(x));
            let i = choose|i: int| 0 <= i < v.len() && v[i] == x;
            assert(!p[i]);
        }
        if g.left_side().contains(x) {
            let i = choose|i: int| 0 <= i < v.len() && p[i] == false && #[trigger] v[i] == x;
            assert(v.contains(x));
        }
    }
    ids::lemma_lists_unique(right, g.right_side(), r0.to_set());
    ids::lemma_lists_unique(left, g.left_side(), l0.to_set());
}

/// `r` and `l` share the branches of the root out; there are none under a fold.
spec fn branches_dealt(g: GraphModel, r: Seq<u64>, l: Seq<u64>) -> bool {
    &&& forall|x: u64| #[trigger] r.contains(x) ==> !l.contains(x)
    &&& forall|x: u64|
        #![trigger g.children(g.root).contains(x)]
        #![trigger r.contains(x)]
        #![trigger l.contains(x)]
        (r.contains(x) || l.contains(x)) <==> (g.children(g.root).contains(x) && !g.collapsed(
            g.root,
        ))
}

proof fn lemma_side_has(g: GraphModel, r: Seq<u64>, l: Seq<u64>)
    requires
        branches_dealt(g, r, l),
        ids::increasing(r),
        ids::increasing(l),
    ensures
        forall|i: int| 0 <= i < r.len() ==> g.has(#[trigger] r[i]),
        forall|i: int| 0 <= i < l.len() ==> g.has(#[trigger] l[i]),
        g.grounded() ==> all_unseen(g, g.root, r, Set::empty()),
        g.grounded() ==> all_unseen(g, g.root, l, Set::empty()),
{
    assert forall|i: int| 0 <= i < r.len() implies g.children(g.root).contains(#[trigger] r[i]) by {
        assert(r.contains(r[i]));
    }
    assert forall|i: int| 0 <= i < l.len() implies g.children(g.root).contains(#[trigger] l[i]) by {
        assert(l.contains(l[i]));
    }
}

/// A side of the root whose branches are where they were is ready.
proof fn lemma_side_ready(
    g: GraphModel,
    cur: GraphModel,
    placed: Set<u64>,
    v: Seq<u64>,
    other: Seq<u64>,
    on_right: bool,
)
    requires
        g.grounded(),
        ids::increasing(v),
        on_right ==> branches_dealt(g, v, other) && v == g.right_side() && other == g.left_side(),
        !on_right ==> branches_dealt(g, other, v) && other == g.right_side() && v == g.left_side(),
        forall|i: int, x: u64|
            0 <= i < v.len() && #[trigger] g.subtree(#[trigger] v[i]).contains(x)
                ==> !placed.contains(x) && cur.nodes[x] == g.nodes[x],
    ensures
        all_ready(
            g,
            cur,
            placed,
            g.root,
            v,
            1,
            -(g.rows_of(v, 1) as int),
            if on_right {
                1
            } else {
                -1
            },
        ),
{
    assert forall|i: int| 0 <= i < v.len() implies {
        &&& g.children(g.root).contains(#[trigger] v[i])
        &&& g.laid(v[i], 1)
        &&& g.row_top(v[i], 1) == -g.rows_of(v, 1) + 2 * g.rows_of(v.take(i), 1)
        &&& g.lane(v[i], 1) == (if on_right {
            1int
        } else {
            -1
        })
    } by {
        assert(v.contains(v[i]));
        assert(!other.contains(v[i]));
        lemma_child_laid(g, g.root, v[i], 0);
        assert(v.index_of(v[i]) == i);
    }
}

/// What is under a branch on the left is under none on the right.
proof fn lemma_other_side(g: GraphModel, r: Seq<u64>, l: Seq<u64>, c: u64, x: u64)
    requires
        g.grounded(),
        branches_dealt(g, r, l),
        l.contains(c),
        g.subtree(c).contains(x),
    ensures
        !under(g, r).contains(x),
{
    if under_any(g, r, x) {
        let k = choose|k: int| 0 <= k < r.len() && g.subtree(#[trigger] r[k]).contains(x);
        assert(r.contains(r[k]));
        lemma_apart(g, g.root, r[k], c, x);
    }
}

/// Once both sides are placed, every node that gets a place has it.
proof fn lemma_seat_found<C: Fn(Coord, Coord, Coord) -> Coord>(
    g: GraphModel,
    s0: GraphModel,
    s1: GraphModel,
    s2: GraphModel,
    p0: Set<u64>,
    p1: Set<u64>,
    p2: Set<u64>,
    r: Seq<u64>,
    l: Seq<u64>,
    carry: &C,
    x: u64,
)
    requires
        g.grounded(),
        g.nodes.dom().contains(x),
        branches_dealt(g, r, l),
        placed_well(g, s0, s1, p0, p1, under(g, r), carry),
        placed_well(g, s1, s2, p1, p2, under(g, l), carry),
        if g.collapsed(g.root) {
            &&& p0 == set![g.root].union(g.subtree(g.root))
            &&& if g.subtree(g.root).contains(x) {
                goes_along(
                    g.place_of(x),
                    g.place_of(g.root),
                    (coord::spec_whole(0), coord::spec_whole(0)),
                    s0.place_of(x),
                    carry,
                )
            } else {
                s0.nodes[x] == g.nodes[x]
            }
        } else {
            p0 == set![g.root] && s0 == g
        },
    ensures
        x != g.root ==> seat(g, s2.nodes[x], x, carry),
        p2.contains(x) <==> g.seated(x),
{
    if g.collapsed(g.root) {
        assert(!under_any(g, r, x)) by {
            if under_any(g, r, x) {
                let k = choose|k: int| 0 <= k < r.len() && g.subtree(#[trigger] r[k]).contains(x);
                assert(r.contains(r[k]));
            }
        }
        assert(!under_any(g, l, x)) by {
            if under_any(g, l, x) {
                let k = choose|k: int| 0 <= k < l.len() && g.subtree(#[trigger] l[k]).contains(x);
                assert(l.contains(l[k]));
            }
        }
        if x != g.root {
            lemma_seated_folded(g, x);
        }
    } else {
        if under_any(g, l, x) {
            let k = choose|k: int| 0 <= k < l.len() && g.subtree(#[trigger] l[k]).contains(x);
            assert(l.contains(l[k]));
            lemma_other_side(g, r, l, l[k], x);
        } else if !under_any(g, r, x) && x != g.root && g.seated(x) {
            let c = lemma_seated_under(g, x);
            if r.contains(c) {
                let k = choose|k: int| 0 <= k < r.len() && r[k] == c;
                assert(g.subtree(r[k]).contains(x));
            } else {
                assert(l.contains(c));
                let k = choose|k: int| 0 <= k < l.len() && l[k] == c;
                assert(g.subtree(l[k]).contains(x));
            }
        }
        if x == g.root {
            if under_any(g, r, x) {
                let k = choose|k: int| 0 <= k < r.len() && g.subtree(#[trigger] r[k]).contains(x);
                assert(r.contains(r[k]));
                lemma_not_under_child(g, g.root, r[k]);
            }
            if under_any(g, l, x) {
                let k = choose|k: int| 0 <= k < l.len() && g.subtree(#[trigger] l[k]).contains(x);
                assert(l.contains(l[k]));
                lemma_not_under_child(g, g.root, l[k]);
            }
        }
    }
}

} // verus!
