//! The clipboard: branches lifted out of a map, ready to be dropped back into one.

use std::collections::HashMap;
use std::collections::HashSet;
use vstd::prelude::*;
use crate::coord::Coord;
use crate::graph::model::{GraphModel, ImageModel, NodeModel};
use crate::graph::{Edge, Graph, Mode, Node, NodeImage};
use crate::ids;

verus! {

broadcast use {vstd::std_specs::hash::group_hash_axioms, vstd::std_specs::btree::group_btree_axioms};

/// Nodes lifted out of a map. Carries no ids: parents are indices into `nodes`
/// and positions are relative to the clip's own top-left, so the same clip pastes
/// anywhere, any number of times.
#[derive(Debug)]
pub struct Clip {
    pub nodes: Vec<ClipNode>,
}

#[derive(Debug)]
pub struct ClipNode {
    pub text: String,
    pub dx: Coord,
    pub dy: Coord,
    /// Index into `Clip::nodes`, or `None` for a node the clip does not own the
    /// parent of — those attach wherever the clip is pasted.
    pub parent: Option<usize>,
    /// Label on the edge coming in from `parent`.
    pub label: String,
    /// Folded state travels with the clip; a branch copied folded should
    /// arrive folded, not explode into the map.
    pub collapsed: bool,
    /// A colour tag travels with the clip too.
    pub color: Option<u8>,
    /// So does a picture. The clip carries the reference, never the pixels.
    pub image: Option<NodeImage>,
}

#[verifier::ext_equal]
pub struct ClipModel {
    pub text: Seq<char>,
    pub dx: Coord,
    pub dy: Coord,
    pub parent: Option<usize>,
    pub label: Seq<char>,
    pub collapsed: bool,
    pub color: Option<u8>,
    pub image: Option<ImageModel>,
}

impl View for ClipNode {
    type V = ClipModel;

    open spec fn view(&self) -> ClipModel {
        ClipModel {
            text: self.text@,
            dx: self.dx,
            dy: self.dy,
            parent: self.parent,
            label: self.label@,
            collapsed: self.collapsed,
            color: self.color,
            image: match self.image {
                Some(i) => Some(i@),
                None => None,
            },
        }
    }
}

impl View for Clip {
    type V = Seq<ClipModel>;

    open spec fn view(&self) -> Seq<ClipModel> {
        self.nodes@.map_values(|n: ClipNode| n@)
    }
}

impl Clip {
    pub fn len(&self) -> (r: usize)
        ensures
            r == self@.len(),
    {
        self.nodes.len()
    }
}

/// The greatest finite coordinate, as bits.
pub const FARTHEST: u32 = 0x7f7f_ffff;

/// `t` with those of `v` that it does not have yet.
pub open spec fn added(t: Seq<u64>, v: Seq<u64>) -> Seq<u64>
    decreases v.len(),
{
    if v.len() == 0 {
        t
    } else {
        let u = added(t, v.drop_last());
        if u.contains(v.last()) {
            u
        } else {
            u.push(v.last())
        }
    }
}

impl GraphModel {
    /// The nodes of `picked`, each with its whole subtree, none twice.
    pub open spec fn gathered(self, picked: Seq<u64>) -> Seq<u64>
        decreases picked.len(),
    {
        if picked.len() == 0 {
            Seq::empty()
        } else {
            added(self.gathered(picked.drop_last()), ids::listed(self.subtree(picked.last())))
        }
    }

    /// The least coordinate of some nodes.
    pub open spec fn leftmost(self, v: Seq<u64>) -> Coord
        decreases v.len(),
    {
        if v.len() == 0 {
            Coord { bits: FARTHEST }
        } else {
            let least = self.leftmost(v.drop_last());
            if self.nodes[v.last()].x.below(least) {
                self.nodes[v.last()].x
            } else {
                least
            }
        }
    }

    pub open spec fn topmost(self, v: Seq<u64>) -> Coord
        decreases v.len(),
    {
        if v.len() == 0 {
            Coord { bits: FARTHEST }
        } else {
            let least = self.topmost(v.drop_last());
            if self.nodes[v.last()].y.below(least) {
                self.nodes[v.last()].y
            } else {
                least
            }
        }
    }

    /// The edges from `p` to `id`.
    pub open spec fn edges_between(self, p: u64, id: u64) -> Set<u64> {
        self.edges.dom().filter(|e: u64| self.edges[e].from == p && self.edges[e].to == id)
    }

    /// The label of the first edge from `p` to `id`.
    pub open spec fn label_between(self, p: u64, id: u64) -> Seq<char> {
        match ids::least(self.edges_between(p, id)) {
            Some(e) => self.edges[e].label,
            None => seq![],
        }
    }

    /// What a clip keeps of `id`, with the place it gets. A parent outside the
    /// clip is not carried.
    pub open spec fn clipped(self, taken: Seq<u64>, id: u64, dx: Coord, dy: Coord) -> ClipModel {
        let n = self.nodes[id];
        let inside = n.parent is Some && taken.contains(n.parent->0);
        ClipModel {
            text: n.text,
            dx,
            dy,
            parent: if inside {
                Some(taken.index_of(n.parent->0) as usize)
            } else {
                None
            },
            label: if inside {
                self.label_between(n.parent->0, id)
            } else {
                seq![]
            },
            collapsed: n.collapsed,
            color: n.color,
            image: n.image,
        }
    }

    /// How many ids, counted on from `from`, are free: at most `n`.
    pub open spec fn room(self, from: u64, n: nat) -> nat
        decreases n,
    {
        if n == 0 {
            0
        } else {
            let k = self.room(from, (n - 1) as nat);
            if k == n - 1 && from + k < u64::MAX && self.free((from + k) as u64) {
                n
            } else {
                k
            }
        }
    }

    /// `v` put into the map, under the ids from the counter on.
    pub open spec fn with_nodes(self, v: Seq<NodeModel>) -> GraphModel {
        GraphModel {
            next_id: (self.next_id + v.len()) as u64,
            nodes: self.nodes.union_prefer_right(
                Map::new(
                    |id: u64| self.next_id <= id < self.next_id + v.len(),
                    |id: u64| v[id - self.next_id],
                ),
            ),
            ..self
        }
    }

    /// The first `n` of the nodes that `clip` became, the first of which is
    /// `first`, each hung where it belongs: under another of the `count` nodes,
    /// or under `parent`. One edge draws each link, as long as there are ids.
    pub open spec fn clip_linked(
        self,
        clip: Seq<ClipModel>,
        first: u64,
        count: nat,
        parent: Option<u64>,
        n: nat,
    ) -> GraphModel
        decreases n,
    {
        if n == 0 {
            self
        } else {
            let g = self.clip_linked(clip, first, count, parent, (n - 1) as nat);
            let id = (first + (n - 1)) as u64;
            match link_of(clip[n - 1], first, count, parent) {
                Some(p) => {
                    let h = g.hung(id, Some(p));
                    if h.free(h.next_id) {
                        GraphModel {
                            next_id: (h.next_id + 1) as u64,
                            ..h.linked(h.next_id, p, id, clip[n - 1].label)
                        }
                    } else {
                        h
                    }
                },
                None => g,
            }
        }
    }

    /// The map after a paste of the first `at.len()` nodes of `clip`, at the given
    /// places.
    pub open spec fn pasted(
        self,
        clip: Seq<ClipModel>,
        at: Seq<(Coord, Coord)>,
        parent: Option<u64>,
    ) -> GraphModel {
        let up = match parent {
            Some(p) if self.has(p) => Some(p),
            _ => None,
        };
        let g = match up {
            Some(p) => self.opened(p),
            None => self,
        };
        let h = g.with_nodes(fresh_nodes(clip, at)).clip_linked(clip, g.next_id, at.len(), up, at.len());
        if at.len() == 0 {
            h
        } else {
            (GraphModel {
                edge_focus: None,
                focus: g.next_id,
                selected: span(g.next_id, at.len()),
                mode: Mode::Browse,
                ..h
            }).caret_at_end()
        }
    }
}

/// The first nodes of a clip at their places, hanging nowhere yet.
pub open spec fn fresh_nodes(clip: Seq<ClipModel>, at: Seq<(Coord, Coord)>) -> Seq<NodeModel> {
    Seq::new(at.len(), |i: int| loose(clip[i], at[i]))
}

/// The `n` ids from `first` on.
pub open spec fn span(first: u64, n: nat) -> Set<u64> {
    Set::new(|id: u64| first <= id < first + n)
}

/// What a node of a clip hangs under: another node of the clip by its index, or
/// else what the clip is pasted under.
pub open spec fn link_of(n: ClipModel, first: u64, count: nat, parent: Option<u64>) -> Option<u64> {
    match n.parent {
        Some(i) => if i < count {
            Some((first + i) as u64)
        } else {
            None
        },
        None => parent,
    }
}

/// A node of a clip at a place, hanging nowhere yet.
pub open spec fn loose(n: ClipModel, at: (Coord, Coord)) -> NodeModel {
    NodeModel {
        text: n.text,
        x: at.0,
        y: at.1,
        parent: None,
        collapsed: n.collapsed,
        color: n.color,
        image: n.image,
    }
}

proof fn lemma_added_has(t: Seq<u64>, v: Seq<u64>, x: u64)
    ensures
        added(t, v).contains(x) <==> t.contains(x) || v.contains(x),
    decreases v.len(),
{
    if v.len() > 0 {
        let u = added(t, v.drop_last());
        let w = u.push(v.last());
        lemma_added_has(t, v.drop_last(), x);
        if u.contains(x) {
            let k = choose|k: int| 0 <= k < u.len() && u[k] == x;
            assert(w[k] == x);
        }
        assert(w[u.len() as int] == v.last());
        assert(v[v.len() - 1] == v.last());
        if w.contains(x) && x != v.last() {
            let k = choose|k: int| 0 <= k < w.len() && w[k] == x;
            assert(u[k] == x);
        }
        if v.contains(x) && x != v.last() {
            let k = choose|k: int| 0 <= k < v.len() && v[k] == x;
            assert(v.drop_last()[k] == x);
        }
        if v.drop_last().contains(x) {
            let k = choose|k: int| 0 <= k < v.drop_last().len() && v.drop_last()[k] == x;
            assert(v[k] == x);
        }
    }
}

proof fn lemma_added_distinct(t: Seq<u64>, v: Seq<u64>)
    requires
        t.no_duplicates(),
    ensures
        added(t, v).no_duplicates(),
    decreases v.len(),
{
    if v.len() > 0 {
        lemma_added_distinct(t, v.drop_last());
    }
}

/// What is gathered is there, and nothing is gathered twice.
pub proof fn lemma_gathered(g: GraphModel, picked: Seq<u64>)
    requires
        g.nodes.dom().finite(),
    ensures
        g.gathered(picked).no_duplicates(),
        forall|x: u64| #[trigger]
            g.gathered(picked).contains(x) <==> exists|i: int|
                0 <= i < picked.len() && g.subtree(#[trigger] picked[i]).contains(x),
        forall|i: int| 0 <= i < g.gathered(picked).len() ==> g.has(#[trigger] g.gathered(picked)[i]),
    decreases picked.len(),
{
    let all = g.gathered(picked);
    if picked.len() > 0 {
        let rest = picked.drop_last();
        lemma_gathered(g, rest);
        let s = g.subtree(picked.last());
        assert(s.finite()) by {
            vstd::set_lib::lemma_len_subset(s, g.nodes.dom());
        }
        ids::lemma_has_list(s);
        lemma_added_distinct(g.gathered(rest), ids::listed(s));
        assert forall|x: u64| #[trigger] all.contains(x) <==> exists|i: int|
            0 <= i < picked.len() && g.subtree(#[trigger] picked[i]).contains(x) by {
            lemma_added_has(g.gathered(rest), ids::listed(s), x);
            if g.gathered(rest).contains(x) {
                let i = choose|i: int|
                    0 <= i < rest.len() && g.subtree(#[trigger] rest[i]).contains(x);
                assert(picked[i] == rest[i]);
            }
            if s.contains(x) {
                assert(picked[picked.len() - 1] == picked.last());
                assert(ids::listed(s).contains(x));
            }
            if exists|i: int| 0 <= i < picked.len() && g.subtree(#[trigger] picked[i]).contains(x) {
                let i = choose|i: int|
                    0 <= i < picked.len() && g.subtree(#[trigger] picked[i]).contains(x);
                if i < rest.len() {
                    assert(rest[i] == picked[i]);
                    assert(g.gathered(rest).contains(x));
                } else {
                    assert(ids::listed(s).contains(x));
                }
            }
        }
    }
    assert forall|i: int| 0 <= i < all.len() implies g.has(#[trigger] all[i]) by {
        assert(all.contains(all[i]));
        let k = choose|k: int| 0 <= k < picked.len() && g.subtree(#[trigger] picked[k]).contains(all[i]);
    }
}

impl Graph {
    /// The nodes of `picked`, each with its whole subtree, none twice.
    fn gather(&self, picked: &Vec<u64>) -> (r: Vec<u64>)
        ensures
            r@ == self@.gathered(picked@),
    {
        let ghost g = self@;
        let mut taken: Vec<u64> = Vec::new();
        let mut seen: HashSet<u64> = HashSet::new();
        let mut i: usize = 0;
        assert(taken@ =~= g.gathered(picked@.take(0)));
        while i < picked.len()
            invariant
                g == self@,
                i <= picked@.len(),
                taken@ == g.gathered(picked@.take(i as int)),
                forall|x: u64| #[trigger] seen@.contains(x) <==> taken@.contains(x),
            decreases picked@.len() - i,
        {
            let id: u64 = picked[i];
            let under = self.subtree_ids(id);
            let ghost t = taken@;
            let mut k: usize = 0;
            assert(added(t, under@.take(0)) =~= t);
            while k < under.len()
                invariant
                    k <= under@.len(),
                    taken@ == added(t, under@.take(k as int)),
                    forall|x: u64| #[trigger] seen@.contains(x) <==> taken@.contains(x),
                decreases under@.len() - k,
            {
                let x: u64 = under[k];
                let ghost was = taken@;
                assert(under@.take(k + 1).drop_last() =~= under@.take(k as int));
                if seen.insert(x) {
                    taken.push(x);
                    proof {
                        assert forall|z: u64| #[trigger] taken@.contains(z) <==> was.contains(z) || z
                            == x by {
                            if was.contains(z) {
                                let m = choose|m: int| 0 <= m < was.len() && was[m] == z;
                                assert(taken@[m] == z);
                            }
                            assert(taken@[was.len() as int] == x);
                        }
                    }
                }
                k = k + 1;
            }
            proof {
                assert(under@.take(k as int) =~= under@);
                ids::lemma_listed(under@, g.subtree(id));
                assert(picked@.take(i + 1).drop_last() =~= picked@.take(i as int));
            }
            i = i + 1;
        }
        assert(picked@.take(i as int) =~= picked@);
        taken
    }

    /// The label of the first edge from `p` to `id`.
    fn label_from(&self, p: u64, id: u64, all: &Vec<u64>) -> (r: String)
        requires
            ids::lists(all@, self@.edges.dom()),
        ensures
            r@ == self@.label_between(p, id),
    {
        let ghost g = self@;
        let ghost s = g.edges_between(p, id);
        assert(g.edges.dom() =~= self.edges@.dom());
        let mut i: usize = 0;
        while i < all.len()
            invariant
                g == self@,
                s == g.edges_between(p, id),
                i <= all@.len(),
                ids::lists(all@, g.edges.dom()),
                forall|k: int| 0 <= k < i ==> !s.contains(#[trigger] all@[k]),
            decreases all@.len() - i,
        {
            let e: u64 = all[i];
            assert(all@.contains(e));
            match self.edges.get(&e) {
                Some(edge) => {
                    if edge.from == p && edge.to == id {
                        proof {
                            assert(s.contains(e));
                            assert(ids::least_of(s, e)) by {
                                assert forall|x: u64| #[trigger] s.contains(x) implies e <= x by {
                                    assert(all@.contains(x));
                                    let k = choose|k: int| 0 <= k < all@.len() && all@[k] == x;
                                    if k < i {
                                        assert(!s.contains(all@[k]));
                                    } else if k > i {
                                        assert(all@[i as int] < all@[k]);
                                    }
                                }
                            }
                            lemma_least_found(s, e);
                        }
                        return edge.label.clone();
                    }
                },
                None => {},
            }
            i = i + 1;
        }
        proof {
            assert forall|x: u64| !s.contains(x) by {
                if s.contains(x) {
                    assert(all@.contains(x));
                    let k = choose|k: int| 0 <= k < all@.len() && all@[k] == x;
                    assert(!s.contains(all@[k]));
                }
            }
            assert(ids::least(s) is None);
        }
        String::new()
    }

    /// Lift some nodes, each with its whole subtree, into a portable clip. Ids are
    /// dropped: positions are stored relative to the clip's own top-left — as
    /// `offset` says — and parent links as indices, so a paste can mint fresh ids
    /// and land anywhere, including in a different map.
    pub fn copy_subtrees<F: Fn(Coord, Coord) -> Coord>(&self, picked: &Vec<u64>, offset: &F) -> (r:
        Option<Clip>)
        requires
            forall|a: Coord, b: Coord| #[trigger] offset.requires((a, b)),
        ensures
            r is None <==> self@.gathered(picked@).len() == 0,
            r matches Some(c) ==> {
                let taken = self@.gathered(picked@);
                &&& c@.len() == taken.len()
                &&& forall|i: int|
                    0 <= i < taken.len() ==> {
                        let n = self@.nodes[taken[i]];
                        &&& (#[trigger] c@[i]) == self@.clipped(taken, taken[i], c@[i].dx, c@[i].dy)
                        &&& offset.ensures((n.x, self@.leftmost(taken)), c@[i].dx)
                        &&& offset.ensures((n.y, self@.topmost(taken)), c@[i].dy)
                    }
            },
    {
        let ghost g = self@;
        let taken = self.gather(picked);
        if taken.len() == 0 {
            return None;
        }
        proof {
            assert(g.nodes.dom() =~= self.nodes@.dom());
            assert(g.edges.dom() =~= self.edges@.dom());
            lemma_gathered(g, picked@);
        }
        let mut index: HashMap<u64, usize> = HashMap::new();
        let mut ox: Coord = Coord { bits: FARTHEST };
        let mut oy: Coord = Coord { bits: FARTHEST };
        let mut i: usize = 0;
        while i < taken.len()
            invariant
                g == self@,
                i <= taken@.len(),
                taken@.no_duplicates(),
                forall|k: int| 0 <= k < taken@.len() ==> g.has(#[trigger] taken@[k]),
                forall|x: u64| #[trigger]
                    index@.dom().contains(x) <==> taken@.take(i as int).contains(x),
                forall|k: int| 0 <= k < i ==> index@[#[trigger] taken@[k]] == k,
                ox == g.leftmost(taken@.take(i as int)),
                oy == g.topmost(taken@.take(i as int)),
            decreases taken@.len() - i,
        {
            let id: u64 = taken[i];
            proof {
                crate::graph::sanitize::lemma_fresh(taken@, i as int);
                assert(taken@.take(i + 1).drop_last() =~= taken@.take(i as int));
                assert(g.has(taken@[i as int]));
            }
            index.insert(id, i);
            match self.nodes.get(&id) {
                Some(n) => {
                    if n.x.is_below(ox) {
                        ox = n.x;
                    }
                    if n.y.is_below(oy) {
                        oy = n.y;
                    }
                },
                None => {},
            }
            i = i + 1;
        }
        let edges = ids::sorted_keys(&self.edges);
        let mut nodes: Vec<ClipNode> = Vec::new();
        assert(taken@.take(i as int) =~= taken@);
        let mut j: usize = 0;
        while j < taken.len()
            invariant
                forall|a: Coord, b: Coord| #[trigger] offset.requires((a, b)),
                g == self@,
                j <= taken@.len(),
                taken@.no_duplicates(),
                forall|k: int| 0 <= k < taken@.len() ==> g.has(#[trigger] taken@[k]),
                forall|x: u64| #[trigger] index@.dom().contains(x) <==> taken@.contains(x),
                forall|k: int| 0 <= k < taken@.len() ==> index@[#[trigger] taken@[k]] == k,
                ox == g.leftmost(taken@),
                oy == g.topmost(taken@),
                ids::lists(edges@, g.edges.dom()),
                nodes@.len() == j,
                forall|k: int|
                    0 <= k < j ==> {
                        let n = g.nodes[taken@[k]];
                        let c = (#[trigger] nodes@[k])@;
                        &&& c == g.clipped(taken@, taken@[k], c.dx, c.dy)
                        &&& offset.ensures((n.x, ox), c.dx)
                        &&& offset.ensures((n.y, oy), c.dy)
                    },
            decreases taken@.len() - j,
        {
            let id: u64 = taken[j];
            assert(g.has(taken@[j as int]));
            match self.nodes.get(&id) {
                Some(n) => {
                    // A parent outside the clip is not carried: that node becomes a
                    // root of the clip and attaches wherever it is pasted.
                    let inside: Option<(u64, usize)> = match n.parent {
                        Some(p) => match index.get(&p) {
                            Some(at) => Some((p, *at)),
                            None => None,
                        },
                        None => None,
                    };
                    let label = match inside {
                        Some((p, _)) => self.label_from(p, id, &edges),
                        None => String::new(),
                    };
                    let made = ClipNode {
                        text: n.text.clone(),
                        dx: offset(n.x, ox),
                        dy: offset(n.y, oy),
                        parent: match inside {
                            Some((_, at)) => Some(at),
                            None => None,
                        },
                        label,
                        collapsed: n.collapsed,
                        color: n.color,
                        image: copy_image(&n.image),
                    };
                    proof {
                        if let Some((p, at)) = inside {
                            let k = choose|k: int| 0 <= k < taken@.len() && taken@[k] == p;
                            assert(index@[taken@[k]] == k);
                            assert(taken@.index_of(p) == k);
                        }
                        assert(made@ =~= g.clipped(taken@, id, made.dx, made.dy));
                    }
                    nodes.push(made);
                },
                None => {},
            }
            j = j + 1;
        }
        let clip = Clip { nodes };
        proof {
            assert forall|k: int| 0 <= k < taken@.len() implies {
                let n = g.nodes[taken@[k]];
                &&& (#[trigger] clip@[k]) == g.clipped(taken@, taken@[k], clip@[k].dx, clip@[k].dy)
                &&& offset.ensures((n.x, ox), clip@[k].dx)
                &&& offset.ensures((n.y, oy), clip@[k].dy)
            } by {
                assert(clip@[k] == nodes@[k]@);
            }
        }
        Some(clip)
    }
}

fn copy_image(image: &Option<NodeImage>) -> (r: Option<NodeImage>)
    ensures
        r == *image,
{
    match image {
        Some(i) => Some(i.clone()),
        None => None,
    }
}

proof fn lemma_least_found(s: Set<u64>, e: u64)
    requires
        ids::least_of(s, e),
    ensures
        ids::least(s) == Some(e),
{
    let m = ids::least(s);
    assert(s.contains(e));
}

/// `at` holds the places of the first nodes of a clip that is pasted at `(x, y)`.
pub open spec fn places_of<F: Fn(Coord, Coord) -> Coord>(
    clip: Seq<ClipModel>,
    at: Seq<(Coord, Coord)>,
    x: Coord,
    y: Coord,
    sum: &F,
) -> bool {
    &&& at.len() <= clip.len()
    &&& forall|i: int|
        0 <= i < at.len() ==> sum.ensures((x, clip[i].dx), (#[trigger] at[i]).0) && sum.ensures(
            (y, clip[i].dy),
            at[i].1,
        )
}

/// Once an id is not free, counting on finds no more.
proof fn lemma_room_stuck(g: GraphModel, from: u64, k: nat, n: nat)
    requires
        k <= n,
        g.room(from, k) == k,
        !(from + k < u64::MAX && g.free((from + k) as u64)),
    ensures
        g.room(from, n) == k,
    decreases n,
{
    if k < n {
        lemma_room_stuck(g, from, k, (n - 1) as nat);
    }
}

/// Only which ids are taken counts.
proof fn lemma_room_same(g: GraphModel, h: GraphModel, from: u64, n: nat)
    requires
        g.nodes.dom() == h.nodes.dom(),
        g.edges.dom() == h.edges.dom(),
    ensures
        g.room(from, n) == h.room(from, n),
    decreases n,
{
    if n > 0 {
        lemma_room_same(g, h, from, (n - 1) as nat);
    }
}

impl Graph {
    /// Drop a clip into the map at `(x, y)`, hanging its roots off `parent`.
    /// Returns the new ids, and leaves them selected — you almost always want
    /// to move or rename what you just pasted.
    pub fn paste<F: Fn(Coord, Coord) -> Coord>(
        &mut self,
        clip: &Clip,
        x: Coord,
        y: Coord,
        parent: Option<u64>,
        sum: &F,
    ) -> (fresh: Vec<u64>)
        requires
            forall|a: Coord, b: Coord| #[trigger] sum.requires((a, b)),
        ensures
            fresh@.len() == old(self)@.room(old(self)@.next_id, clip@.len()),
            forall|i: int| 0 <= i < fresh@.len() ==> #[trigger] fresh@[i] == old(self)@.next_id + i,
            exists|at: Seq<(Coord, Coord)>| #[trigger]
                places_of(clip@, at, x, y, sum) && at.len() == fresh@.len() && final(self)@ == old(
                    self,
                )@.pasted(clip@, at, parent),
    {
        let ghost first = self@.next_id;
        let up: Option<u64> = match parent {
            Some(p) => if self.nodes.contains_key(&p) {
                Some(p)
            } else {
                None
            },
            None => None,
        };
        match up {
            Some(p) => self.open_for_content(p),
            None => {},
        }
        let ghost g = self@;
        proof {
            assert(g.nodes.dom() =~= old(self)@.nodes.dom());
            lemma_room_same(g, old(self)@, first, clip@.len());
        }
        let ghost mut at: Seq<(Coord, Coord)> = Seq::empty();
        let mut fresh: Vec<u64> = Vec::new();
        let mut i: usize = 0;
        let mut out = false;
        assert(self@ =~= g.with_nodes(fresh_nodes(clip@, at))) by {
            assert(self@.nodes =~= g.with_nodes(fresh_nodes(clip@, at)).nodes);
        }
        while i < clip.nodes.len() && !out
            invariant
                forall|a: Coord, b: Coord| #[trigger] sum.requires((a, b)),
                i <= clip@.len(),
                g.next_id == first,
                fresh@.len() == at.len(),
                at.len() <= i,
                out || at.len() == i,
                first + at.len() <= u64::MAX,
                places_of(clip@, at, x, y, sum),
                g.room(first, at.len()) == at.len(),
                out ==> g.room(first, clip@.len()) == at.len(),
                forall|k: int| 0 <= k < fresh@.len() ==> #[trigger] fresh@[k] == first + k,
                self@ == g.with_nodes(fresh_nodes(clip@, at)),
            decreases clip@.len() - i,
        {
            let cn = &clip.nodes[i];
            let ghost was = self@;
            let ghost before = at;
            assert(was.free(was.next_id) <==> first + at.len() < u64::MAX && g.free(
                (first + at.len()) as u64,
            ));
            match self.take_id() {
                Some(id) => {
                    let px = sum(x, cn.dx);
                    let py = sum(y, cn.dy);
                    let made = Node {
                        text: cn.text.clone(),
                        x: px,
                        y: py,
                        parent: None,
                        collapsed: cn.collapsed,
                        color: cn.color,
                        image: copy_image(&cn.image),
                    };
                    assert(made@ =~= loose(clip@[i as int], (px, py)));
                    self.nodes.insert(id, made);
                    fresh.push(id);
                    proof {
                        at = before.push((px, py));
                        let v = fresh_nodes(clip@, before);
                        let w = fresh_nodes(clip@, at);
                        assert forall|k: int| 0 <= k < v.len() implies v[k] == w[k] by {}
                        assert(self@.nodes =~= was.nodes.insert(id, made@));
                        assert(w[before.len() as int] == made@);
                        assert(self@.nodes =~= g.with_nodes(w).nodes) by {
                            assert forall|z: u64| #[trigger]
                                self@.nodes.dom().contains(z) implies self@.nodes[z] == g.with_nodes(
                                w,
                            ).nodes[z] by {
                                if first <= z < first + before.len() {
                                    assert(v[z - first] == w[z - first]);
                                    assert(was.nodes[z] == v[z - first]);
                                }
                            }
                        }
                        assert(self@ =~= g.with_nodes(w));
                    }
                },
                None => {
                    out = true;
                    proof {
                        lemma_room_stuck(g, first, at.len(), clip@.len());
                    }
                },
            }
            i = i + 1;
        }
        // Second pass: links, now that every id in the clip exists.
        let count: usize = fresh.len();
        let ghost h = self@;
        let mut j: usize = 0;
        while j < count
            invariant
                count == fresh@.len(),
                count <= clip@.len(),
                first + count <= u64::MAX,
                j <= count,
                forall|k: int| 0 <= k < fresh@.len() ==> #[trigger] fresh@[k] == first + k,
                self@ == h.clip_linked(clip@, first, count as nat, up, j as nat),
            decreases count - j,
        {
            let cn = &clip.nodes[j];
            let id: u64 = fresh[j];
            assert(clip@[j as int] == cn@);
            let link: Option<u64> = match cn.parent {
                Some(pi) => if pi < count {
                    Some(fresh[pi])
                } else {
                    None
                },
                None => up,
            };
            match link {
                Some(p) => {
                    self.hang(id, Some(p));
                    let ghost was = self@;
                    match self.take_id() {
                        Some(eid) => {
                            let edge = Edge { from: p, to: id, label: cn.label.clone() };
                            self.edges.insert(eid, edge);
                            assert(self@.edges =~= was.linked(eid, p, id, cn.label@).edges);
                        },
                        None => {},
                    }
                },
                None => {},
            }
            j = j + 1;
        }
        if count > 0 {
            self.focused_edge = None;
            self.focused_id = fresh[0];
            self.selected = ids::set_of(&fresh);
            self.mode = Mode::Browse;
            proof {
                assert forall|z: u64| #[trigger] self.selected@.contains(z) <==> span(
                    first,
                    count as nat,
                ).contains(z) by {
                    if fresh@.contains(z) {
                        let k = choose|k: int| 0 <= k < fresh@.len() && fresh@[k] == z;
                    }
                    if first <= z < first + count {
                        assert(fresh@[z - first] == z);
                    }
                }
                assert(self.selected@ =~= span(first, count as nat));
            }
            self.caret_to_end();
        }
        assert(places_of(clip@, at, x, y, sum));
        fresh
    }
}

} // verus!
