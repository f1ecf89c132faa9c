//! Where nodes are: moving them, finding them under the pointer, and walking
//! between them with the arrows.
//!
//! Sums and distances come from the caller, as functions on coordinates.

use std::collections::BTreeSet;
use std::collections::HashSet;
use vstd::prelude::*;
use crate::coord::Coord;
use crate::graph::model::{GraphModel, ImageModel, NodeModel};
use crate::graph::{Direction, Graph, Node, NodeImage};
use crate::graph::sanitize;
use crate::ids;

verus! {

broadcast use {vstd::std_specs::hash::group_hash_axioms, vstd::std_specs::btree::group_btree_axioms};

/// The bits of the least side of a picture's box: twenty-four.
pub const MIN_IMAGE_BOX: u32 = 0x41c0_0000;

/// The bits of the greatest side of a picture's box: four thousand.
pub const MAX_IMAGE_BOX: u32 = 0x457a_0000;

/// A side of a picture's box, brought between its bounds. What is not a number
/// becomes the least.
pub open spec fn boxed(side: Coord) -> Coord {
    let least = Coord { bits: MIN_IMAGE_BOX };
    let greatest = Coord { bits: MAX_IMAGE_BOX };
    if side.not_a_number() || side.rank() < least.rank() {
        least
    } else if side.rank() > greatest.rank() {
        greatest
    } else {
        side
    }
}

/// A side of a picture's box, brought between its bounds.
pub fn box_side(side: Coord) -> (r: Coord)
    ensures
        r == boxed(side),
{
    let least = Coord { bits: MIN_IMAGE_BOX };
    let greatest = Coord { bits: MAX_IMAGE_BOX };
    if side.is_nan() || side.order() < least.order() {
        least
    } else if side.order() > greatest.order() {
        greatest
    } else {
        side
    }
}

/// A node whose position is made of numbers and whose picture has a sane size.
pub open spec fn placed(n: NodeModel) -> NodeModel {
    NodeModel {
        x: sanitize::settled(n.x),
        y: sanitize::settled(n.y),
        image: match n.image {
            Some(i) => Some(ImageModel { w: boxed(i.w), h: boxed(i.h), ..i }),
            None => None,
        },
        ..n
    }
}

/// `after` is `before` with the nodes of `who` where `shift` puts them.
pub open spec fn shifted<F: Fn(Coord, Coord) -> (Coord, Coord)>(
    before: GraphModel,
    after: GraphModel,
    who: Set<u64>,
    shift: &F,
) -> bool {
    &&& after == (GraphModel { nodes: after.nodes, ..before })
    &&& after.nodes.dom() == before.nodes.dom()
    &&& forall|id: u64| #[trigger]
        before.nodes.dom().contains(id) ==> {
            let n = before.nodes[id];
            let m = after.nodes[id];
            if who.contains(id) {
                m == (NodeModel { x: m.x, y: m.y, ..n }) && shift.ensures((n.x, n.y), (m.x, m.y))
            } else {
                m == n
            }
        }
}

/// `after` is `before` with the nodes of `who` carried along by something that
/// went from one place to another.
pub open spec fn carried_along<C: Fn(Coord, Coord, Coord) -> Coord>(
    before: GraphModel,
    after: GraphModel,
    who: Set<u64>,
    from: (Coord, Coord),
    to: (Coord, Coord),
    carry: &C,
) -> bool {
    &&& after == (GraphModel { nodes: after.nodes, ..before })
    &&& after.nodes.dom() == before.nodes.dom()
    &&& forall|id: u64| #[trigger]
        before.nodes.dom().contains(id) ==> {
            let n = before.nodes[id];
            let m = after.nodes[id];
            if who.contains(id) {
                m == (NodeModel { x: m.x, y: m.y, ..n }) && carry.ensures((n.x, from.0, to.0), m.x)
                    && carry.ensures((n.y, from.1, to.1), m.y)
            } else {
                m == n
            }
        }
}

/// The first of `hits` than which none is nearer.
pub open spec fn best(hits: Seq<(u64, Coord)>) -> Option<(u64, Coord)>
    decreases hits.len(),
{
    if hits.len() == 0 {
        None
    } else {
        match best(hits.drop_last()) {
            None => Some(hits.last()),
            Some(b) => if hits.last().1.below(b.1) {
                Some(hits.last())
            } else {
                Some(b)
            },
        }
    }
}

pub open spec fn nearest(hits: Seq<(u64, Coord)>) -> Option<u64> {
    match best(hits) {
        Some(b) => Some(b.0),
        None => None,
    }
}

/// `hits` holds, in ascending order, the nodes of `who` that `score` answers for,
/// each with its answer.
pub open spec fn scored<S: Fn(u64, &Node) -> Option<Coord>>(
    g: &Graph,
    who: Set<u64>,
    score: &S,
    hits: Seq<(u64, Coord)>,
) -> bool {
    &&& forall|i: int, j: int|
        0 <= i < j < hits.len() ==> (#[trigger] hits[i]).0 < (#[trigger] hits[j]).0
    &&& forall|i: int|
        0 <= i < hits.len() ==> {
            let (id, d) = #[trigger] hits[i];
            who.contains(id) && g.nodes@.dom().contains(id) && score.ensures(
                (id, &g.nodes@[id]),
                Some(d),
            )
        }
    &&& forall|id: u64| #[trigger]
        who.contains(id) && g.nodes@.dom().contains(id) ==> score.ensures(
            (id, &g.nodes@[id]),
            None,
        ) || exists|i: int| 0 <= i < hits.len() && (#[trigger] hits[i]).0 == id
}

/// What of `who` stands nearest by `score`.
pub open spec fn nearest_by<S: Fn(u64, &Node) -> Option<Coord>>(
    g: &Graph,
    who: Set<u64>,
    score: &S,
    r: Option<u64>,
) -> bool {
    exists|hits: Seq<(u64, Coord)>| #[trigger] scored(g, who, score, hits) && r == nearest(hits)
}

/// Both ends of an edge are there, and its far end is in sight.
pub open spec fn drawable(g: &Graph, e: u64) -> bool {
    &&& g@.edges.dom().contains(e)
    &&& g@.has(g@.edges[e].from)
    &&& g@.has(g@.edges[e].to)
    &&& !g@.folded_above(g@.edges[e].to)
}

/// The nodes that an edge joins.
pub open spec fn edge_ends(g: &Graph, e: u64) -> (&Node, &Node) {
    (&g.nodes@[g@.edges[e].from], &g.nodes@[g@.edges[e].to])
}

/// `hits` holds, in ascending order, the edges among `who` that `near` answers
/// for, each with its answer.
pub open spec fn edges_scored_in<S: Fn(&Node, &Node) -> Option<Coord>>(
    g: &Graph,
    who: Seq<u64>,
    near: &S,
    hits: Seq<(u64, Coord)>,
) -> bool {
    &&& forall|i: int, j: int|
        0 <= i < j < hits.len() ==> (#[trigger] hits[i]).0 < (#[trigger] hits[j]).0
    &&& forall|i: int|
        0 <= i < hits.len() ==> {
            let (x, d) = #[trigger] hits[i];
            who.contains(x) && drawable(g, x) && near.ensures(edge_ends(g, x), Some(d))
        }
    &&& forall|x: u64| #[trigger]
        who.contains(x) && drawable(g, x) ==> near.ensures(edge_ends(g, x), None) || exists|i: int|
            0 <= i < hits.len() && (#[trigger] hits[i]).0 == x
}

/// `hits` holds, in ascending order, the edges that `near` answers for, each with
/// its answer.
pub open spec fn edges_scored<S: Fn(&Node, &Node) -> Option<Coord>>(
    g: &Graph,
    near: &S,
    hits: Seq<(u64, Coord)>,
) -> bool {
    &&& forall|i: int, j: int|
        0 <= i < j < hits.len() ==> (#[trigger] hits[i]).0 < (#[trigger] hits[j]).0
    &&& forall|i: int|
        0 <= i < hits.len() ==> {
            let (x, d) = #[trigger] hits[i];
            drawable(g, x) && near.ensures(edge_ends(g, x), Some(d))
        }
    &&& forall|x: u64| #[trigger]
        drawable(g, x) ==> near.ensures(edge_ends(g, x), None) || exists|i: int|
            0 <= i < hits.len() && (#[trigger] hits[i]).0 == x
}

/// The nearest of some hits is one of them.
proof fn lemma_best_is_hit(hits: Seq<(u64, Coord)>)
    ensures
        best(hits) is None <==> hits.len() == 0,
        best(hits) matches Some(b) ==> hits.contains(b),
    decreases hits.len(),
{
    if hits.len() > 0 {
        lemma_best_is_hit(hits.drop_last());
        assert(hits.contains(hits[hits.len() - 1]));
        if let Some(b) = best(hits.drop_last()) {
            let k = choose|k: int| 0 <= k < hits.drop_last().len() && hits.drop_last()[k] == b;
            assert(hits[k] == b);
        }
    }
}

/// The first of `kids` that lies ahead, or else the first.
pub open spec fn step_into<A: Fn(u64, &Node) -> bool>(
    g: &Graph,
    kids: Seq<u64>,
    ahead: &A,
    r: Option<u64>,
) -> bool {
    exists|i: int|
        #![trigger kids[i]]
        {
            &&& 0 <= i < kids.len()
            &&& r == Some(kids[i])
            &&& forall|j: int|
                0 <= j < i ==> ahead.ensures((#[trigger] kids[j], &g.nodes@[kids[j]]), false)
            &&& ahead.ensures((kids[i], &g.nodes@[kids[i]]), true) || (i == 0 && forall|j: int|
                0 <= j < kids.len() ==> ahead.ensures(
                    (#[trigger] kids[j], &g.nodes@[kids[j]]),
                    false,
                ))
        }
}

impl GraphModel {
    /// The children of `id` that can be stepped into: none under a fold.
    pub open spec fn steppable(self, id: u64) -> Set<u64> {
        if self.collapsed(id) {
            Set::empty()
        } else {
            self.children(id).filter(|k: u64| !self.folded_above(k))
        }
    }

    /// Everything in sight but `id`.
    pub open spec fn others_in_sight(self, id: u64) -> Set<u64> {
        self.nodes.dom().filter(|k: u64| k != id && !self.folded_above(k))
    }
}

/// Where an arrow leads: by the tree where it goes that way, or else to the
/// nearest node on that side.
pub open spec fn arrow_target<
    A: Fn(u64, &Node) -> bool,
    B: Fn(u64, &Node) -> Option<Coord>,
    T: Fn(u64, &Node) -> Option<Coord>,
>(g: &Graph, direction: Direction, ahead: &A, beside: &B, toward: &T, r: Option<u64>) -> bool {
    let m = g@;
    let cur = m.focus;
    if !m.has(cur) {
        r is None
    } else {
        match direction {
            Direction::Left => match m.parent_of(cur) {
                Some(p) if !m.folded_above(p) => r == Some(p),
                _ => nearest_by(g, m.others_in_sight(cur), toward, r),
            },
            Direction::Right => if m.steppable(cur) == Set::<u64>::empty() {
                nearest_by(g, m.others_in_sight(cur), toward, r)
            } else {
                step_into(g, ids::listed(m.steppable(cur)), ahead, r)
            },
            _ => match m.parent_of(cur) {
                Some(p) => (r is Some && nearest_by(g, m.children(p).remove(cur), beside, r)) || (
                nearest_by(g, m.children(p).remove(cur), beside, None) && nearest_by(
                    g,
                    m.others_in_sight(cur),
                    toward,
                    r,
                )),
                None => nearest_by(g, m.others_in_sight(cur), toward, r),
            },
        }
    }
}

proof fn lemma_nearest_is_one<S: Fn(u64, &Node) -> Option<Coord>>(
    g: &Graph,
    who: Set<u64>,
    score: &S,
    r: Option<u64>,
)
    requires
        nearest_by(g, who, score, r),
        who.subset_of(g@.nodes.dom()),
    ensures
        r matches Some(id) ==> g@.has(id),
{
    let hits = choose|hits: Seq<(u64, Coord)>| #[trigger]
        scored(g, who, score, hits) && r == nearest(hits);
    lemma_best_is_hit(hits);
    if let Some(b) = best(hits) {
        let k = choose|k: int| 0 <= k < hits.len() && hits[k] == b;
        assert(hits[k] == b);
        assert(who.contains(b.0));
    }
}

/// An arrow leads to a node that is there.
pub proof fn an_arrow_leads_to_a_node<
    A: Fn(u64, &Node) -> bool,
    B: Fn(u64, &Node) -> Option<Coord>,
    T: Fn(u64, &Node) -> Option<Coord>,
>(g: &Graph, direction: Direction, ahead: &A, beside: &B, toward: &T, r: Option<u64>)
    requires
        g@.nodes.dom().finite(),
        forall|id: u64| #[trigger] g@.parent_of(id) matches Some(p) ==> g@.has(p),
        arrow_target(g, direction, ahead, beside, toward, r),
    ensures
        r matches Some(id) ==> g@.has(id),
{
    let m = g@;
    let cur = m.focus;
    let rest = m.others_in_sight(cur);
    if nearest_by(g, rest, toward, r) {
        lemma_nearest_is_one(g, rest, toward, r);
    }
    if let Some(p) = m.parent_of(cur) {
        let near = m.children(p).remove(cur);
        if nearest_by(g, near, beside, r) {
            lemma_nearest_is_one(g, near, beside, r);
        }
    }
    let steps = m.steppable(cur);
    if direction is Right && !(steps == Set::<u64>::empty()) && m.has(cur) {
        assert(steps.subset_of(m.nodes.dom()));
        vstd::set_lib::lemma_len_subset(steps, m.nodes.dom());
        ids::lemma_has_list(steps);
        let kids = ids::listed(steps);
        assert(step_into(g, kids, ahead, r));
        let id = r->0;
        assert(kids.contains(id));
        assert(steps.contains(id));
    }
}

impl Graph {
    /// Put a node somewhere.
    pub fn place(&mut self, id: u64, x: Coord, y: Coord) -> (r: bool)
        ensures
            r == old(self)@.has(id),
            final(self)@ == (if r {
                GraphModel {
                    nodes: old(self)@.nodes.insert(id, NodeModel { x, y, ..old(self)@.nodes[id] }),
                    ..old(self)@
                }
            } else {
                old(self)@
            }),
    {
        match self.nodes.remove(&id) {
            Some(node) => {
                let mut node = node;
                node.x = x;
                node.y = y;
                self.nodes.insert(id, node);
                assert(self@.nodes =~= old(self)@.nodes.insert(
                    id,
                    NodeModel { x, y, ..old(self)@.nodes[id] },
                ));
                true
            },
            None => false,
        }
    }

    /// Everything that a move of `picked` carries, in ascending order. A folded
    /// node stands for its whole branch, and only the folded node itself can be
    /// clicked or swept, so moving it carries what it is hiding.
    pub fn carried_by(&self, picked: &Vec<u64>) -> (r: Vec<u64>)
        ensures
            ids::lists(r@, self@.carried(picked@.to_set())),
    {
        let ghost g = self@;
        let mut all: BTreeSet<u64> = BTreeSet::new();
        let mut i: usize = 0;
        while i < picked.len()
            invariant
                g == self@,
                i <= picked@.len(),
                forall|x: u64| #[trigger]
                    all@.contains(x) <==> g.carried(picked@.take(i as int).to_set()).contains(x),
            decreases picked@.len() - i,
        {
            let id: u64 = picked[i];
            let ghost was = all@;
            let ghost t = picked@.take(i as int).to_set();
            let ghost u = picked@.take(i + 1).to_set();
            proof {
                ids::lemma_contains_push(picked@, i as int);
                assert(forall|x: u64| #[trigger] u.contains(x) <==> t.contains(x) || x == id);
            }
            if self.nodes.contains_key(&id) {
                all.insert(id);
            }
            if self.is_collapsed(id) {
                let under = self.subtree_ids(id);
                ids::add_all(&mut all, &under);
                assert(under@.to_set() =~= g.subtree(id));
            }
            proof {
                assert forall|x: u64| #[trigger] all@.contains(x) <==> g.carried(u).contains(x) by {
                    if was.contains(x) {
                        assert(g.carried(t).contains(x));
                        if !t.contains(x) {
                            let top = choose|top: u64|
                                t.contains(top) && g.collapsed(top) && #[trigger] g.subtree(
                                    top,
                                ).contains(x);
                            assert(u.contains(top));
                        }
                    }
                    if g.collapsed(id) && g.subtree(id).contains(x) {
                        assert(u.contains(id));
                    }
                    if g.carried(u).contains(x) && !u.contains(x) {
                        let top = choose|top: u64|
                            u.contains(top) && g.collapsed(top) && #[trigger] g.subtree(
                                top,
                            ).contains(x);
                        if top != id {
                            assert(t.contains(top));
                            assert(g.carried(t).contains(x));
                        }
                    }
                    if g.carried(u).contains(x) && t.contains(x) {
                        assert(g.carried(t).contains(x));
                    }
                }
            }
            i = i + 1;
        }
        assert(picked@.take(i as int) =~= picked@);
        assert(all@ =~= g.carried(picked@.to_set()));
        ids::members(&all)
    }

    /// Move everything in the selection the same way.
    pub fn move_selection_by<F: Fn(Coord, Coord) -> (Coord, Coord)>(&mut self, shift: &F) -> (moved:
        bool)
        requires
            forall|x: Coord, y: Coord| #[trigger] shift.requires((x, y)),
        ensures
            shifted(old(self)@, final(self)@, old(self)@.carried(old(self)@.selected), shift),
            moved == (old(self)@.carried(old(self)@.selected) != Set::<u64>::empty()),
    {
        let picked = self.acting_on();
        assert(picked@.to_set() =~= self@.selected);
        self.move_nodes_by(&picked, shift)
    }

    /// Move exactly these nodes, and what a fold among them hides. A drag captures
    /// its set at press time and passes it here every event.
    pub fn move_nodes_by<F: Fn(Coord, Coord) -> (Coord, Coord)>(
        &mut self,
        picked: &Vec<u64>,
        shift: &F,
    ) -> (moved: bool)
        requires
            forall|x: Coord, y: Coord| #[trigger] shift.requires((x, y)),
        ensures
            shifted(old(self)@, final(self)@, old(self)@.carried(picked@.to_set()), shift),
            moved == (old(self)@.carried(picked@.to_set()) != Set::<u64>::empty()),
    {
        let ghost g = self@;
        let ghost who = g.carried(picked@.to_set());
        let all = self.carried_by(picked);
        let mut i: usize = 0;
        while i < all.len()
            invariant
                forall|x: Coord, y: Coord| #[trigger] shift.requires((x, y)),
                i <= all@.len(),
                ids::lists(all@, who),
                who.subset_of(g.nodes.dom()),
                shifted(g, self@, all@.take(i as int).to_set(), shift),
            decreases all@.len() - i,
        {
            let id: u64 = all[i];
            proof {
                ids::lemma_contains_push(all@, i as int);
                assert(all@.contains(id));
                assert(!all@.take(i as int).contains(id)) by {
                    if all@.take(i as int).contains(id) {
                        let k = choose|k: int| 0 <= k < i && all@.take(i as int)[k] == id;
                        assert(all@[k] < all@[i as int]);
                    }
                }
            }
            let at: Option<(Coord, Coord)> = match self.nodes.get(&id) {
                Some(n) => Some((n.x, n.y)),
                None => None,
            };
            match at {
                Some((x, y)) => {
                    assert(g.nodes.dom().contains(id));
                    let (nx, ny) = shift(x, y);
                    self.place(id, nx, ny);
                },
                None => {},
            }
            proof {
                assert(self@.nodes.dom() =~= g.nodes.dom());
                let t = all@.take(i as int);
                let u = all@.take(i + 1);
                assert forall|x: u64| #[trigger] u.to_set().contains(x) <==> t.to_set().contains(x)
                    || x == id by {}
            }
            i = i + 1;
        }
        proof {
            assert(all@.take(i as int) =~= all@);
            assert(all@.to_set() =~= who);
            if all@.len() > 0 {
                assert(all@.contains(all@[0]));
                assert(who.contains(all@[0]));
            } else {
                assert(who =~= Set::<u64>::empty());
            }
        }
        all.len() > 0
    }

    /// Carry some nodes along with something that went from one place to another.
    pub(crate) fn carry_all<C: Fn(Coord, Coord, Coord) -> Coord>(
        &mut self,
        all: &Vec<u64>,
        from: (Coord, Coord),
        to: (Coord, Coord),
        carry: &C,
    )
        requires
            forall|a: Coord, b: Coord, c: Coord| #[trigger] carry.requires((a, b, c)),
            ids::increasing(all@),
        ensures
            carried_along(old(self)@, final(self)@, all@.to_set(), from, to, carry),
    {
        let ghost g = self@;
        let mut i: usize = 0;
        while i < all.len()
            invariant
                forall|a: Coord, b: Coord, c: Coord| #[trigger] carry.requires((a, b, c)),
                i <= all@.len(),
                ids::increasing(all@),
                carried_along(g, self@, all@.take(i as int).to_set(), from, to, carry),
            decreases all@.len() - i,
        {
            let id: u64 = all[i];
            proof {
                ids::lemma_contains_push(all@, i as int);
                assert(!all@.take(i as int).contains(id)) by {
                    if all@.take(i as int).contains(id) {
                        let k = choose|k: int| 0 <= k < i && all@.take(i as int)[k] == id;
                        assert(all@[k] < all@[i as int]);
                    }
                }
            }
            let at: Option<(Coord, Coord)> = match self.nodes.get(&id) {
                Some(n) => Some((n.x, n.y)),
                None => None,
            };
            match at {
                Some((x, y)) => {
                    assert(g.nodes.dom().contains(id));
                    let nx = carry(x, from.0, to.0);
                    let ny = carry(y, from.1, to.1);
                    self.place(id, nx, ny);
                },
                None => {},
            }
            proof {
                assert(self@.nodes.dom() =~= g.nodes.dom());
                let t = all@.take(i as int);
                let u = all@.take(i + 1);
                assert forall|x: u64| #[trigger] u.to_set().contains(x) <==> t.to_set().contains(x)
                    || x == id by {}
            }
            i = i + 1;
        }
        assert(all@.take(i as int) =~= all@);
    }

    /// Carry the subtree of `id` along, from one place to another.
    pub fn carry_subtree<C: Fn(Coord, Coord, Coord) -> Coord>(
        &mut self,
        id: u64,
        from: (Coord, Coord),
        to: (Coord, Coord),
        carry: &C,
    )
        requires
            forall|a: Coord, b: Coord, c: Coord| #[trigger] carry.requires((a, b, c)),
        ensures
            carried_along(old(self)@, final(self)@, old(self)@.subtree(id), from, to, carry),
    {
        let all = self.subtree_ids(id);
        assert(all@.to_set() =~= self@.subtree(id));
        self.carry_all(&all, from, to, carry);
    }

    pub(crate) fn position(&self, id: u64) -> (r: (Coord, Coord))
        requires
            self@.has(id),
        ensures
            r == (self@.nodes[id].x, self@.nodes[id].y),
    {
        match self.nodes.get(&id) {
            Some(n) => (n.x, n.y),
            None => (Coord::zero(), Coord::zero()),
        }
    }

    /// Bring a just-dropped branch to `(x, y)`, carrying its descendants along. A
    /// branch that is there already stays as it is.
    pub fn settle_after_drop<C: Fn(Coord, Coord, Coord) -> Coord>(
        &mut self,
        id: u64,
        x: Coord,
        y: Coord,
        carry: &C,
    )
        requires
            forall|a: Coord, b: Coord, c: Coord| #[trigger] carry.requires((a, b, c)),
        ensures
            ({
                let g = old(self)@;
                let n = g.nodes[id];
                if g.has(id) && !(x.same(n.x) && y.same(n.y)) {
                    carried_along(g, final(self)@, g.subtree(id), (n.x, n.y), (x, y), carry)
                } else {
                    final(self)@ == g
                }
            }),
    {
        if !self.nodes.contains_key(&id) {
            return;
        }
        let from: (Coord, Coord) = self.position(id);
        if x.equals(from.0) && y.equals(from.1) {
            return;
        }
        self.carry_subtree(id, from, (x, y), carry);
    }

    /// Every node in sight that meets a rectangle — the marquee's answer.
    pub fn nodes_in_rect<M: Fn(u64, &Node) -> bool>(&self, meets: &M) -> (r: Vec<u64>)
        requires
            forall|id: u64, n: &Node| #[trigger] meets.requires((id, n)),
        ensures
            ids::increasing(r@),
            forall|id: u64| #[trigger]
                r@.contains(id) ==> self@.has(id) && !self@.hidden().contains(id) && meets.ensures(
                    (id, &self.nodes@[id]),
                    true,
                ),
            forall|id: u64| #[trigger]
                self@.has(id) && !self@.hidden().contains(id) && !r@.contains(id) ==> meets.ensures(
                    (id, &self.nodes@[id]),
                    false,
                ),
    {
        let hidden = self.hidden_set();
        self.nodes_in_rect_masked(&hidden, meets)
    }

    /// The same, with the hidden set supplied — the marquee reuses the frame's.
    pub fn nodes_in_rect_masked<M: Fn(u64, &Node) -> bool>(
        &self,
        hidden: &HashSet<u64>,
        meets: &M,
    ) -> (r: Vec<u64>)
        requires
            forall|id: u64, n: &Node| #[trigger] meets.requires((id, n)),
        ensures
            ids::increasing(r@),
            forall|id: u64| #[trigger]
                r@.contains(id) ==> self@.has(id) && !hidden@.contains(id) && meets.ensures(
                    (id, &self.nodes@[id]),
                    true,
                ),
            forall|id: u64| #[trigger]
                self@.has(id) && !hidden@.contains(id) && !r@.contains(id) ==> meets.ensures(
                    (id, &self.nodes@[id]),
                    false,
                ),
    {
        let all = ids::sorted_keys(&self.nodes);
        let mut out: Vec<u64> = Vec::new();
        let mut i: usize = 0;
        while i < all.len()
            invariant
                forall|id: u64, n: &Node| #[trigger] meets.requires((id, n)),
                i <= all@.len(),
                ids::lists(all@, self.nodes@.dom()),
                ids::increasing(out@),
                forall|id: u64| #[trigger]
                    out@.contains(id) ==> all@.take(i as int).contains(id) && !hidden@.contains(id)
                        && meets.ensures((id, &self.nodes@[id]), true),
                forall|id: u64| #[trigger]
                    all@.take(i as int).contains(id) && !hidden@.contains(id) && !out@.contains(id)
                        ==> meets.ensures((id, &self.nodes@[id]), false),
            decreases all@.len() - i,
        {
            let id: u64 = all[i];
            let ghost before = out@;
            assert(all@.contains(id));
            let kept = if hidden.contains(&id) {
                false
            } else {
                match self.nodes.get(&id) {
                    Some(n) => meets(id, n),
                    None => false,
                }
            };
            if kept {
                out.push(id);
            }
            proof {
                ids::lemma_take(all@, i as int, before, out@, kept);
            }
            i = i + 1;
        }
        proof {
            assert(all@.take(i as int) =~= all@);
            assert forall|id: u64| #[trigger] self@.has(id) implies all@.take(i as int).contains(
                id,
            ) by {
                assert(all@.contains(id));
            }
            assert forall|id: u64| #[trigger] out@.contains(id) implies self@.has(id) by {
                assert(all@.contains(id));
            }
        }
        out
    }

    /// What of some nodes stands nearest by `score`; the first where two are.
    fn nearest_of<S: Fn(u64, &Node) -> Option<Coord>>(
        &self,
        v: &Vec<u64>,
        score: &S,
        who: Ghost<Set<u64>>,
    ) -> (r: Option<u64>)
        requires
            forall|id: u64, n: &Node| #[trigger] score.requires((id, n)),
            ids::lists(v@, who@),
        ensures
            nearest_by(self, who@, score, r),
            r matches Some(id) ==> who@.contains(id) && self@.has(id),
    {
        let ghost mut hits: Seq<(u64, Coord)> = Seq::empty();
        let mut found: Option<(u64, Coord)> = None;
        let mut i: usize = 0;
        assert(v@.take(0).to_set() =~= Set::<u64>::empty());
        while i < v.len()
            invariant
                forall|id: u64, n: &Node| #[trigger] score.requires((id, n)),
                i <= v@.len(),
                ids::lists(v@, who@),
                scored(self, v@.take(i as int).to_set(), score, hits),
                found == best(hits),
            decreases v@.len() - i,
        {
            let id: u64 = v[i];
            let ghost was = hits;
            let ghost t = v@.take(i as int).to_set();
            let ghost u = v@.take(i + 1).to_set();
            proof {
                ids::lemma_contains_push(v@, i as int);
                assert(forall|x: u64| #[trigger] u.contains(x) <==> t.contains(x) || x == id);
                assert forall|k: int| 0 <= k < was.len() implies (#[trigger] was[k]).0 < id by {
                    assert(t.contains(was[k].0));
                    let m = choose|m: int| 0 <= m < i && v@.take(i as int)[m] == was[k].0;
                    assert(v@[m] < v@[i as int]);
                }
            }
            match self.nodes.get(&id) {
                Some(n) => match score(id, n) {
                    Some(d) => {
                        proof {
                            hits = was.push((id, d));
                            assert(hits.drop_last() =~= was);
                        }
                        found = match found {
                            None => Some((id, d)),
                            Some(b) => if d.is_below(b.1) {
                                Some((id, d))
                            } else {
                                Some(b)
                            },
                        };
                        assert(hits[was.len() as int].0 == id);
                    },
                    None => {},
                },
                None => {},
            }
            proof {
                assert forall|x: u64| #[trigger] u.contains(x) && self.nodes@.dom().contains(
                    x,
                ) implies score.ensures((x, &self.nodes@[x]), None) || exists|k: int|
                    0 <= k < hits.len() && (#[trigger] hits[k]).0 == x by {
                    if x != id {
                        assert(t.contains(x));
                        if !score.ensures((x, &self.nodes@[x]), None) {
                            let k = choose|k: int| 0 <= k < was.len() && (#[trigger] was[k]).0 == x;
                            assert(hits[k] == was[k]);
                        }
                    }
                }
                assert forall|k: int| 0 <= k < hits.len() implies ({
                    let (x, d) = #[trigger] hits[k];
                    u.contains(x) && self.nodes@.dom().contains(x) && score.ensures(
                        (x, &self.nodes@[x]),
                        Some(d),
                    )
                }) by {
                    if k < was.len() {
                        assert(hits[k] == was[k]);
                    }
                }
            }
            i = i + 1;
        }
        proof {
            assert(v@.take(i as int) =~= v@);
            assert(v@.to_set() =~= who@);
            assert(scored(self, who@, score, hits));
            lemma_best_is_hit(hits);
            if let Some(b) = best(hits) {
                let k = choose|k: int| 0 <= k < hits.len() && hits[k] == b;
                assert(who@.contains(hits[k].0));
            }
        }
        match found {
            Some(b) => Some(b.0),
            None => None,
        }
    }

    /// Hit-test using the caller's measure — how far the pointer is from a node
    /// whose box it is in.
    pub fn hit_test_with<S: Fn(u64, &Node) -> Option<Coord>>(&self, score: &S) -> (r: Option<u64>)
        requires
            forall|id: u64, n: &Node| #[trigger] score.requires((id, n)),
        ensures
            nearest_by(self, self@.nodes.dom().difference(self@.hidden()), score, r),
    {
        let none: HashSet<u64> = HashSet::new();
        let r = self.hit_test_excluding(&none, score);
        assert(self@.nodes.dom().difference(none@).difference(self@.hidden())
            =~= self@.nodes.dom().difference(self@.hidden()));
        r
    }

    /// The same, ignoring a set of nodes. A drag needs this: the node it is
    /// carrying sits under the pointer the whole time.
    pub fn hit_test_excluding<S: Fn(u64, &Node) -> Option<Coord>>(
        &self,
        skip: &HashSet<u64>,
        score: &S,
    ) -> (r: Option<u64>)
        requires
            forall|id: u64, n: &Node| #[trigger] score.requires((id, n)),
        ensures
            nearest_by(
                self,
                self@.nodes.dom().difference(skip@).difference(self@.hidden()),
                score,
                r,
            ),
    {
        let hidden = self.hidden_set();
        self.hit_test_masked(skip, &hidden, score)
    }

    /// The same, but with the hidden set supplied.
    pub fn hit_test_masked<S: Fn(u64, &Node) -> Option<Coord>>(
        &self,
        skip: &HashSet<u64>,
        hidden: &HashSet<u64>,
        score: &S,
    ) -> (r: Option<u64>)
        requires
            forall|id: u64, n: &Node| #[trigger] score.requires((id, n)),
        ensures
            nearest_by(self, self@.nodes.dom().difference(skip@).difference(hidden@), score, r),
    {
        let ghost who = self@.nodes.dom().difference(skip@).difference(hidden@);
        let all = ids::sorted_keys(&self.nodes);
        let mut open: Vec<u64> = Vec::new();
        let mut i: usize = 0;
        while i < all.len()
            invariant
                i <= all@.len(),
                ids::lists(all@, self.nodes@.dom()),
                who == self@.nodes.dom().difference(skip@).difference(hidden@),
                ids::increasing(open@),
                forall|x: u64| #[trigger]
                    open@.contains(x) <==> all@.take(i as int).contains(x) && who.contains(x),
            decreases all@.len() - i,
        {
            let id: u64 = all[i];
            let ghost before = open@;
            assert(all@.contains(id));
            let kept = !skip.contains(&id) && !hidden.contains(&id);
            if kept {
                open.push(id);
            }
            proof {
                ids::lemma_take(all@, i as int, before, open@, kept);
            }
            i = i + 1;
        }
        assert(all@.take(i as int) =~= all@);
        self.nearest_of(&open, score, Ghost(who))
    }

    /// Hit-test edges: the nearest in sight that `near` answers for, by the nodes
    /// it joins.
    pub fn hit_test_edge_r<S: Fn(&Node, &Node) -> Option<Coord>>(&self, near: &S) -> (r: Option<u64>)
        requires
            forall|a: &Node, b: &Node| #[trigger] near.requires((a, b)),
        ensures
            exists|hits: Seq<(u64, Coord)>| #[trigger]
                edges_scored(self, near, hits) && r == nearest(hits),
    {
        let all = ids::sorted_keys(&self.edges);
        let ghost mut hits: Seq<(u64, Coord)> = Seq::empty();
        let mut found: Option<(u64, Coord)> = None;
        let mut i: usize = 0;
        while i < all.len()
            invariant
                forall|a: &Node, b: &Node| #[trigger] near.requires((a, b)),
                i <= all@.len(),
                ids::lists(all@, self.edges@.dom()),
                edges_scored_in(self, all@.take(i as int), near, hits),
                found == best(hits),
            decreases all@.len() - i,
        {
            let id: u64 = all[i];
            let ghost was = hits;
            let ghost t = all@.take(i as int);
            let ghost u = all@.take(i + 1);
            proof {
                ids::lemma_contains_push(all@, i as int);
                assert(all@.contains(id));
                assert forall|k: int| 0 <= k < was.len() implies (#[trigger] was[k]).0 < id by {
                    assert(t.contains(was[k].0));
                    let m = choose|m: int| 0 <= m < t.len() && t[m] == was[k].0;
                    assert(all@[m] < all@[i as int]);
                }
            }
            match self.edges.get(&id) {
                Some(e) => {
                    let to: u64 = e.to;
                    let from: u64 = e.from;
                    if !self.is_hidden(to) {
                        match (self.nodes.get(&from), self.nodes.get(&to)) {
                            (Some(a), Some(b)) => match near(a, b) {
                                Some(d) => {
                                    proof {
                                        hits = was.push((id, d));
                                        assert(hits.drop_last() =~= was);
                                    }
                                    found = match found {
                                        None => Some((id, d)),
                                        Some(f) => if d.is_below(f.1) {
                                            Some((id, d))
                                        } else {
                                            Some(f)
                                        },
                                    };
                                    assert(hits[was.len() as int].0 == id);
                                },
                                None => {},
                            },
                            _ => {},
                        }
                    }
                },
                None => {},
            }
            proof {
                assert forall|x: u64| #[trigger] u.contains(x) && drawable(self, x) implies
                    near.ensures(edge_ends(self, x), None) || exists|k: int|
                    0 <= k < hits.len() && (#[trigger] hits[k]).0 == x by {
                    if x != id {
                        assert(t.contains(x));
                        if !near.ensures(edge_ends(self, x), None) {
                            let k = choose|k: int| 0 <= k < was.len() && (#[trigger] was[k]).0 == x;
                            assert(hits[k] == was[k]);
                        }
                    }
                }
                assert forall|k: int| 0 <= k < hits.len() implies ({
                    let (x, d) = #[trigger] hits[k];
                    u.contains(x) && drawable(self, x) && near.ensures(edge_ends(self, x), Some(d))
                }) by {
                    if k < was.len() {
                        assert(hits[k] == was[k]);
                    }
                }
            }
            i = i + 1;
        }
        proof {
            assert(all@.take(i as int) =~= all@);
            assert(edges_scored(self, near, hits)) by {
                assert forall|x: u64| #[trigger] drawable(self, x) implies near.ensures(
                    edge_ends(self, x),
                    None,
                ) || exists|k: int| 0 <= k < hits.len() && (#[trigger] hits[k]).0 == x by {
                    assert(self.edges@.dom().contains(x));
                    assert(all@.contains(x));
                }
            }
        }
        match found {
            Some(b) => Some(b.0),
            None => None,
        }
    }

    /// The other nodes in sight, in ascending order.
    fn others_shown(&self, id: u64) -> (r: Vec<u64>)
        ensures
            ids::lists(r@, self@.others_in_sight(id)),
    {
        let all = ids::sorted_keys(&self.nodes);
        let mut out: Vec<u64> = Vec::new();
        let mut i: usize = 0;
        while i < all.len()
            invariant
                i <= all@.len(),
                ids::lists(all@, self.nodes@.dom()),
                ids::increasing(out@),
                forall|x: u64| #[trigger]
                    out@.contains(x) <==> all@.take(i as int).contains(x) && self@.others_in_sight(
                        id,
                    ).contains(x),
            decreases all@.len() - i,
        {
            let k: u64 = all[i];
            let ghost before = out@;
            assert(all@.contains(k));
            let kept = k != id && !self.is_hidden(k);
            if kept {
                out.push(k);
            }
            proof {
                ids::lemma_take(all@, i as int, before, out@, kept);
            }
            i = i + 1;
        }
        assert(all@.take(i as int) =~= all@);
        out
    }

    /// The children that can be stepped into, in ascending order.
    fn steppable_children(&self, id: u64) -> (r: Vec<u64>)
        ensures
            ids::lists(r@, self@.steppable(id)),
    {
        let mut out: Vec<u64> = Vec::new();
        if self.is_collapsed(id) {
            return out;
        }
        let all = self.children_of(id);
        let mut i: usize = 0;
        while i < all.len()
            invariant
                i <= all@.len(),
                !self@.collapsed(id),
                ids::lists(all@, self@.children(id)),
                ids::increasing(out@),
                forall|x: u64| #[trigger]
                    out@.contains(x) <==> all@.take(i as int).contains(x) && self@.steppable(
                        id,
                    ).contains(x),
            decreases all@.len() - i,
        {
            let k: u64 = all[i];
            let ghost before = out@;
            assert(all@.contains(k));
            let kept = !self.is_hidden(k);
            if kept {
                out.push(k);
            }
            proof {
                ids::lemma_take(all@, i as int, before, out@, kept);
            }
            i = i + 1;
        }
        assert(all@.take(i as int) =~= all@);
        out
    }

    /// The first of `kids` that lies ahead, or else the first.
    fn step<A: Fn(u64, &Node) -> bool>(&self, kids: &Vec<u64>, ahead: &A) -> (r: Option<u64>)
        requires
            forall|id: u64, n: &Node| #[trigger] ahead.requires((id, n)),
            kids@.len() > 0,
            forall|i: int| 0 <= i < kids@.len() ==> self@.has(#[trigger] kids@[i]),
        ensures
            step_into(self, kids@, ahead, r),
    {
        let mut i: usize = 0;
        while i < kids.len()
            invariant
                forall|id: u64, n: &Node| #[trigger] ahead.requires((id, n)),
                i <= kids@.len(),
                forall|k: int| 0 <= k < kids@.len() ==> self@.has(#[trigger] kids@[k]),
                forall|j: int|
                    0 <= j < i ==> ahead.ensures(
                        (#[trigger] kids@[j], &self.nodes@[kids@[j]]),
                        false,
                    ),
            decreases kids@.len() - i,
        {
            let id: u64 = kids[i];
            assert(self@.has(kids@[i as int]));
            match self.nodes.get(&id) {
                Some(n) => {
                    if ahead(id, n) {
                        return Some(id);
                    }
                },
                None => {},
            }
            i = i + 1;
        }
        assert(Some(kids@[0]) == Some(kids[0]));
        Some(kids[0])
    }

    /// Where an arrow leads from the cursor.
    pub fn arrow<
        A: Fn(u64, &Node) -> bool,
        B: Fn(u64, &Node) -> Option<Coord>,
        T: Fn(u64, &Node) -> Option<Coord>,
    >(&self, direction: Direction, ahead: &A, beside: &B, toward: &T) -> (r: Option<u64>)
        requires
            forall|id: u64, n: &Node| #[trigger] ahead.requires((id, n)),
            forall|id: u64, n: &Node| #[trigger] beside.requires((id, n)),
            forall|id: u64, n: &Node| #[trigger] toward.requires((id, n)),
        ensures
            arrow_target(self, direction, ahead, beside, toward, r),
    {
        let cur: u64 = self.focused_id;
        if !self.nodes.contains_key(&cur) {
            return None;
        }
        match direction {
            Direction::Left => {
                match self.parent_of(cur) {
                    Some(p) => {
                        if !self.is_hidden(p) {
                            return Some(p);
                        }
                    },
                    None => {},
                }
            },
            Direction::Right => {
                let kids = self.steppable_children(cur);
                if kids.len() > 0 {
                    proof {
                        ids::lemma_listed(kids@, self@.steppable(cur));
                        assert(kids@.contains(kids@[0]));
                        assert(self@.steppable(cur).contains(kids@[0]));
                        assert forall|i: int| 0 <= i < kids@.len() implies self@.has(
                            #[trigger] kids@[i],
                        ) by {
                            assert(kids@.contains(kids@[i]));
                        }
                    }
                    return self.step(&kids, ahead);
                }
                assert(self@.steppable(cur) =~= Set::<u64>::empty()) by {
                    assert forall|x: u64| !self@.steppable(cur).contains(x) by {
                        assert(kids@.contains(x) <==> self@.steppable(cur).contains(x));
                    }
                }
            },
            _ => {
                match self.parent_of(cur) {
                    Some(p) => {
                        let sibs = self.children_without(p, cur);
                        let r = self.nearest_of(&sibs, beside, Ghost(self@.children(p).remove(cur)));
                        if r.is_some() {
                            return r;
                        }
                    },
                    None => {},
                }
            },
        }
        let others = self.others_shown(cur);
        self.nearest_of(&others, toward, Ghost(self@.others_in_sight(cur)))
    }

    fn children_without(&self, p: u64, id: u64) -> (r: Vec<u64>)
        ensures
            ids::lists(r@, self@.children(p).remove(id)),
    {
        let all = self.children_of(p);
        let mut out: Vec<u64> = Vec::new();
        let mut i: usize = 0;
        while i < all.len()
            invariant
                i <= all@.len(),
                ids::lists(all@, self@.children(p)),
                ids::increasing(out@),
                forall|x: u64| #[trigger]
                    out@.contains(x) <==> all@.take(i as int).contains(x) && self@.children(
                        p,
                    ).remove(id).contains(x),
            decreases all@.len() - i,
        {
            let k: u64 = all[i];
            let ghost before = out@;
            assert(all@.contains(k));
            let kept = k != id;
            if kept {
                out.push(k);
            }
            proof {
                ids::lemma_take(all@, i as int, before, out@, kept);
            }
            i = i + 1;
        }
        assert(all@.take(i as int) =~= all@);
        out
    }

    /// Spatial navigation: move focus to the best neighbour in `direction`.
    /// Prefer the tree where it goes that way (left to the parent, right to the
    /// first child, up and down to a sibling), otherwise the nearest node on that
    /// side.
    pub fn navigate<
        A: Fn(u64, &Node) -> bool,
        B: Fn(u64, &Node) -> Option<Coord>,
        T: Fn(u64, &Node) -> Option<Coord>,
    >(&mut self, direction: Direction, ahead: &A, beside: &B, toward: &T) -> (moved: bool)
        requires
            forall|id: u64, n: &Node| #[trigger] ahead.requires((id, n)),
            forall|id: u64, n: &Node| #[trigger] beside.requires((id, n)),
            forall|id: u64, n: &Node| #[trigger] toward.requires((id, n)),
        ensures
            exists|r: Option<u64>| #[trigger]
                arrow_target(&*old(self), direction, ahead, beside, toward, r) && moved
                    == (r is Some) && final(self)@ == (match r {
                    Some(id) => (GraphModel { edge_focus: None, ..old(self)@ }).focused_on(id),
                    None => (GraphModel { edge_focus: None, ..old(self)@ }).caret_at_end(),
                }),
    {
        let r = self.arrow(direction, ahead, beside, toward);
        assert(arrow_target(&*old(self), direction, ahead, beside, toward, r));
        self.focused_edge = None;
        match r {
            Some(id) => {
                self.focus(id);
                true
            },
            None => {
                self.caret_to_end();
                false
            },
        }
    }

    /// Cycle focus among siblings (and self) under the same parent. `delta` is
    /// how many to go on, or back where it is negative. The root has no siblings.
    pub fn focus_sibling(&mut self, delta: i32) -> (moved: bool)
        ensures
            ({
                let g = GraphModel { edge_focus: None, ..old(self)@ };
                match g.parent_of(g.focus) {
                    Some(p) => {
                        let v = ids::listed(g.children(p));
                        let n = v.len() as int;
                        &&& moved == (n >= 2)
                        &&& final(self)@ == (if moved {
                            g.focused_on(v[(v.index_of(g.focus) + delta) % n])
                        } else {
                            g.caret_at_end()
                        })
                    },
                    None => !moved && final(self)@ == g.caret_at_end(),
                }
            }),
    {
        let ghost g = GraphModel { edge_focus: None, ..self@ };
        let cur: u64 = self.focused_id;
        let parent: Option<u64> = self.parent_of(cur);
        self.focused_edge = None;
        let p: u64 = match parent {
            Some(p) => p,
            None => {
                self.caret_to_end();
                return false;
            },
        };
        let sibs = self.children_of(p);
        proof {
            ids::lemma_listed(sibs@, g.children(p));
            ids::lemma_lists_len(sibs@, g.children(p));
            assert(g.children(p).contains(cur));
            assert(sibs@.contains(cur));
        }
        if sibs.len() < 2 {
            self.caret_to_end();
            return false;
        }
        let mut k: usize = 0;
        while k < sibs.len() && sibs[k] != cur
            invariant
                k <= sibs@.len(),
                sibs@.contains(cur),
                sibs@.no_duplicates(),
                forall|m: int| 0 <= m < k ==> #[trigger] sibs@[m] != cur,
            decreases sibs@.len() - k,
        {
            k = k + 1;
        }
        proof {
            let m = choose|m: int| 0 <= m < sibs@.len() && sibs@[m] == cur;
            assert(k < sibs@.len());
            assert(sibs@.index_of(cur) == k);
        }
        let next: usize = turn(k, delta, sibs.len());
        self.focus(sibs[next]);
        true
    }

    /// Whether every node sits where it sits in `other`.
    pub fn positions_match(&self, other: &Graph) -> (r: bool)
        ensures
            r == (self@.nodes.dom().len() == other@.nodes.dom().len() && forall|id: u64| #[trigger]
                self@.has(id) ==> other@.has(id) && other@.nodes[id].x.same(self@.nodes[id].x)
                    && other@.nodes[id].y.same(self@.nodes[id].y)),
    {
        proof {
            assert(self@.nodes.dom() =~= self.nodes@.dom());
            assert(other@.nodes.dom() =~= other.nodes@.dom());
        }
        if self.nodes.len() != other.nodes.len() {
            return false;
        }
        let all = ids::keys(&self.nodes);
        let mut i: usize = 0;
        while i < all.len()
            invariant
                i <= all@.len(),
                all@.to_set() == self@.nodes.dom(),
                self@.nodes.dom().len() == other@.nodes.dom().len(),
                forall|id: u64| #[trigger]
                    all@.take(i as int).contains(id) ==> other@.has(id)
                        && other@.nodes[id].x.same(self@.nodes[id].x) && other@.nodes[id].y.same(
                        self@.nodes[id].y,
                    ),
            decreases all@.len() - i,
        {
            let id: u64 = all[i];
            proof {
                ids::lemma_contains_push(all@, i as int);
                assert(all@.contains(id));
                assert(all@.to_set().contains(id));
                assert(self@.has(id));
            }
            let same = match (self.nodes.get(&id), other.nodes.get(&id)) {
                (Some(n), Some(o)) => o.x.equals(n.x) && o.y.equals(n.y),
                _ => false,
            };
            if !same {
                return false;
            }
            i = i + 1;
        }
        assert(all@.take(i as int) =~= all@);
        assert forall|id: u64| #[trigger] self@.has(id) implies all@.contains(id) by {
            assert(all@.to_set().contains(id));
        }
        true
    }

    /// Replace any position that is not a number with the origin, so that a bad
    /// coordinate cannot make the document unloadable, and bring every picture's
    /// box between its bounds.
    pub fn drop_non_finite_positions(&mut self)
        ensures
            final(self)@ == (GraphModel {
                nodes: old(self)@.nodes.map_values(|n: NodeModel| placed(n)),
                ..old(self)@
            }),
    {
        let ghost g = self@;
        let all = ids::keys(&self.nodes);
        let mut i: usize = 0;
        assert(g.nodes.dom() =~= self.nodes@.dom());
        while i < all.len()
            invariant
                i <= all@.len(),
                all@.no_duplicates(),
                all@.to_set() == g.nodes.dom(),
                self@ == (GraphModel { nodes: self@.nodes, ..g }),
                self@.nodes.dom() == g.nodes.dom(),
                forall|id: u64| #[trigger]
                    g.nodes.dom().contains(id) ==> self@.nodes[id] == (if all@.take(
                        i as int,
                    ).contains(id) {
                        placed(g.nodes[id])
                    } else {
                        g.nodes[id]
                    }),
            decreases all@.len() - i,
        {
            let id: u64 = all[i];
            proof {
                sanitize::lemma_fresh(all@, i as int);
                assert(all@.contains(id));
                assert(all@.to_set().contains(id));
                assert(g.nodes.dom().contains(id));
            }
            match self.nodes.remove(&id) {
                Some(node) => {
                    let mut node = node;
                    assert(node@ == g.nodes[id]);
                    if !node.x.is_finite() {
                        node.x = Coord::zero();
                    }
                    if !node.y.is_finite() {
                        node.y = Coord::zero();
                    }
                    node.image = match node.image {
                        Some(image) => Some(
                            NodeImage {
                                name: image.name,
                                w: box_side(image.w),
                                h: box_side(image.h),
                            },
                        ),
                        None => None,
                    };
                    assert(node@ =~= placed(g.nodes[id]));
                    self.nodes.insert(id, node);
                },
                None => {},
            }
            assert(self@.nodes.dom() =~= g.nodes.dom());
            i = i + 1;
        }
        assert(all@.take(i as int) =~= all@);
        assert(self@.nodes =~= g.nodes.map_values(|n: NodeModel| placed(n))) by {
            assert forall|id: u64| #[trigger] g.nodes.dom().contains(id) implies all@.contains(id) by {
                assert(all@.to_set().contains(id));
            }
        }
    }
}

/// `k` moved on by `delta` round a ring of `n`.
fn turn(k: usize, delta: i32, n: usize) -> (r: usize)
    requires
        k < n,
    ensures
        r == (k + delta) % (n as int),
        r < n,
{
    let m: u128 = n as u128;
    if delta >= 0 {
        let d: u128 = delta as u128;
        proof {
            vstd::arithmetic::div_mod::lemma_add_mod_noop_right(k as int, d as int, m as int);
        }
        ((k as u128 + d % m) % m) as usize
    } else {
        let d: u128 = (-(delta as i64)) as u128;
        proof {
            let x = k + m;
            vstd::arithmetic::div_mod::lemma_sub_mod_noop_right(x, d as int, m as int);
            vstd::arithmetic::div_mod::lemma_mod_add_multiples_vanish(k - d, m as int);
            assert(x - d == m + (k - d));
        }
        ((k as u128 + m - d % m) % m) as usize
    }
}

impl Graph {
    /// Whether two nodes stand on top of each other. `clash` says of two places
    /// whether they are too near.
    pub fn has_overlapping_nodes<F: Fn((Coord, Coord), (Coord, Coord)) -> bool>(
        &self,
        clash: &F,
    ) -> (r: bool)
        requires
            forall|a: (Coord, Coord), b: (Coord, Coord)| #[trigger] clash.requires((a, b)),
        ensures
            r ==> exists|a: u64, b: u64|
                a < b && #[trigger] self@.has(a) && #[trigger] self@.has(b) && clash.ensures(
                    (self@.place_of(a), self@.place_of(b)),
                    true,
                ),
            !r ==> forall|a: u64, b: u64|
                a < b && #[trigger] self@.has(a) && #[trigger] self@.has(b) ==> clash.ensures(
                    (self@.place_of(a), self@.place_of(b)),
                    false,
                ),
    {
        let all = ids::sorted_keys(&self.nodes);
        let ghost g = self@;
        assert(g.nodes.dom() =~= self.nodes@.dom());
        let n: usize = all.len();
        let mut i: usize = 0;
        while i < n
            invariant
                i <= n,
                n == all@.len(),
                g == self@,
                ids::lists(all@, g.nodes.dom()),
                forall|a: (Coord, Coord), b: (Coord, Coord)| #[trigger] clash.requires((a, b)),
                forall|x: int, y: int|
                    0 <= x < i && x < y < n ==> clash.ensures(
                        (g.place_of(#[trigger] all@[x]), g.place_of(#[trigger] all@[y])),
                        false,
                    ),
            decreases n - i,
        {
            assert(all@.contains(all@[i as int]));
            let p = self.whereabouts(all[i]);
            let mut j: usize = i + 1;
            while j < n
                invariant
                    i < j <= n,
                    n == all@.len(),
                    g == self@,
                    ids::lists(all@, g.nodes.dom()),
                    g.has(all@[i as int]),
                    p == g.place_of(all@[i as int]),
                    forall|a: (Coord, Coord), b: (Coord, Coord)| #[trigger] clash.requires((a, b)),
                    forall|y: int|
                        i < y < j ==> clash.ensures(
                            (g.place_of(all@[i as int]), g.place_of(#[trigger] all@[y])),
                            false,
                        ),
                decreases n - j,
            {
                assert(all@.contains(all@[j as int]));
                let q = self.whereabouts(all[j]);
                if clash(p, q) {
                    assert(all@[i as int] < all@[j as int]);
                    assert(g.has(all@[i as int]) && g.has(all@[j as int]));
                    return true;
                }
                j = j + 1;
            }
            i = i + 1;
        }
        assert forall|a: u64, b: u64|
            a < b && #[trigger] g.has(a) && #[trigger] g.has(b) implies clash.ensures(
            (g.place_of(a), g.place_of(b)),
            false,
        ) by {
            assert(all@.contains(a) && all@.contains(b));
            let x = choose|x: int| 0 <= x < n && all@[x] == a;
            let y = choose|y: int| 0 <= y < n && all@[y] == b;
            if y <= x {
                if y < x {
                    assert(all@[y] < all@[x]);
                }
            }
        }
        false
    }

    fn whereabouts(&self, id: u64) -> (r: (Coord, Coord))
        requires
            self@.has(id),
        ensures
            r == self@.place_of(id),
    {
        match self.nodes.get(&id) {
            Some(n) => {
                assert(n@ == self@.nodes[id]);
                (n.x, n.y)
            },
            None => {
                assert(false);
                (Coord::zero(), Coord::zero())
            },
        }
    }
}

impl GraphModel {
    /// Where a node is.
    pub open spec fn place_of(self, id: u64) -> (Coord, Coord) {
        (self.nodes[id].x, self.nodes[id].y)
    }
}

} // verus!
