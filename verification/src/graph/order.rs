//! The order of nodes on the canvas: top to bottom, left to right, and by id
//! where they stand in one place.

use vstd::prelude::*;
use crate::graph::model::GraphModel;
use crate::graph::Graph;
use crate::ids;

verus! {

broadcast use {vstd::std_specs::hash::group_hash_axioms, vstd::std_specs::btree::group_btree_axioms};

/// A place in reading order.
pub type Place = (int, int, int);

/// `a` comes before `b`.
pub open spec fn before(a: Place, b: Place) -> bool {
    a.0 < b.0 || (a.0 == b.0 && (a.1 < b.1 || (a.1 == b.1 && a.2 < b.2)))
}

/// `v` holds the members of `s`, each after those that come before it.
pub open spec fn arranges(v: Seq<u64>, s: Set<u64>, place: spec_fn(u64) -> Place) -> bool {
    &&& forall|x: u64| #[trigger] v.contains(x) <==> s.contains(x)
    &&& forall|i: int, j: int|
        0 <= i < j < v.len() ==> before(place(#[trigger] v[i]), place(#[trigger] v[j]))
}

/// The members of a finite set in order.
pub open spec fn arranged(s: Set<u64>, place: spec_fn(u64) -> Place) -> Seq<u64> {
    choose|v: Seq<u64>| arranges(v, s, place)
}

impl GraphModel {
    /// Where `id` stands from top to bottom.
    pub open spec fn down(self) -> spec_fn(u64) -> Place {
        |id: u64| (self.nodes[id].y.rank(), 0, id as int)
    }

    /// Where `id` stands from top to bottom, then from left to right.
    pub open spec fn reading(self) -> spec_fn(u64) -> Place {
        |id: u64| (self.nodes[id].y.rank(), self.nodes[id].x.rank(), id as int)
    }

    /// The siblings of `id`, itself included, from top to bottom.
    pub open spec fn siblings_down(self, id: u64) -> Seq<u64> {
        arranged(self.siblings(id), self.down())
    }

    /// The children of `id` in reading order.
    pub open spec fn reading_children(self, id: u64) -> Seq<u64> {
        arranged(self.children(id), self.reading())
    }

    /// The sibling next to `id`, above it or below it.
    pub open spec fn neighbour(self, id: u64, up: bool) -> Option<u64> {
        let v = self.siblings_down(id);
        if !v.contains(id) {
            None
        } else {
            let k = v.index_of(id);
            if up {
                if k > 0 {
                    Some(v[k - 1])
                } else {
                    None
                }
            } else if k + 1 < v.len() {
                Some(v[k + 1])
            } else {
                None
            }
        }
    }
}

/// A neighbour is a node, and so is what it is the neighbour of.
pub proof fn lemma_neighbour(g: GraphModel, id: u64, up: bool)
    requires
        exists|v: Seq<u64>| #[trigger] arranges(v, g.siblings(id), g.down()),
    ensures
        g.neighbour(id, up) matches Some(o) ==> g.has(id) && g.has(o),
{
    let v = g.siblings_down(id);
    assert(arranges(v, g.siblings(id), g.down()));
    if let Some(o) = g.neighbour(id, up) {
        assert(v.contains(o));
    }
}

proof fn lemma_before_total(a: Place, b: Place)
    ensures
        before(a, b) || before(b, a) || a == b,
        !(before(a, b) && before(b, a)),
{
}

pub proof fn lemma_arranges_distinct(v: Seq<u64>, s: Set<u64>, place: spec_fn(u64) -> Place)
    requires
        arranges(v, s, place),
    ensures
        v.no_duplicates(),
        s.finite(),
        v.len() == s.len(),
{
    assert(v.no_duplicates()) by {
        assert forall|i: int, j: int| 0 <= i < v.len() && 0 <= j < v.len() && i != j implies v[i]
            != v[j] by {
            if i < j {
                assert(before(place(v[i]), place(v[j])));
            } else {
                assert(before(place(v[j]), place(v[i])));
            }
        }
    }
    v.unique_seq_to_set();
    assert(v.to_set() =~= s);
}

/// A set has one arrangement.
pub proof fn lemma_arranged(v: Seq<u64>, s: Set<u64>, place: spec_fn(u64) -> Place)
    requires
        arranges(v, s, place),
    ensures
        arranged(s, place) == v,
        arranges(arranged(s, place), s, place),
{
    lemma_arranges_unique(v, arranged(s, place), s, place);
}

proof fn lemma_arranges_unique(
    v: Seq<u64>,
    w: Seq<u64>,
    s: Set<u64>,
    place: spec_fn(u64) -> Place,
)
    requires
        arranges(v, s, place),
        arranges(w, s, place),
    ensures
        v == w,
    decreases v.len(),
{
    lemma_arranges_distinct(v, s, place);
    lemma_arranges_distinct(w, s, place);
    if v.len() > 0 {
        let a = v.last();
        let b = w.last();
        assert(v.contains(a) && w.contains(b));
        assert(w.contains(a) && v.contains(b));
        let i = choose|i: int| 0 <= i < w.len() && w[i] == a;
        let j = choose|j: int| 0 <= j < v.len() && v[j] == b;
        if a != b {
            assert(before(place(w[i]), place(w[w.len() - 1])));
            assert(before(place(v[j]), place(v[v.len() - 1])));
            lemma_before_total(place(a), place(b));
        }
        lemma_arranges_drop(v, s, place);
        lemma_arranges_drop(w, s, place);
        lemma_arranges_unique(v.drop_last(), w.drop_last(), s.remove(a), place);
        assert(v =~= v.drop_last().push(a));
        assert(w =~= w.drop_last().push(a));
    } else {
        assert(v =~= w);
    }
}

proof fn lemma_arranges_drop(v: Seq<u64>, s: Set<u64>, place: spec_fn(u64) -> Place)
    requires
        arranges(v, s, place),
        v.len() > 0,
    ensures
        arranges(v.drop_last(), s.remove(v.last()), place),
{
    lemma_arranges_distinct(v, s, place);
    let d = v.drop_last();
    assert forall|x: u64| #[trigger] d.contains(x) <==> s.remove(v.last()).contains(x) by {
        if d.contains(x) {
            let k = choose|k: int| 0 <= k < d.len() && d[k] == x;
            assert(v[k] == x);
            assert(v.contains(x));
        }
        if s.contains(x) && x != v.last() {
            assert(v.contains(x));
            let k = choose|k: int| 0 <= k < v.len() && v[k] == x;
            assert(d[k] == x);
        }
    }
}

/// A finite set that is not empty has a last member.
proof fn lemma_last(s: Set<u64>, place: spec_fn(u64) -> Place) -> (m: u64)
    requires
        s.finite(),
        s.len() > 0,
        forall|x: u64| (#[trigger] place(x)).2 == x,
    ensures
        s.contains(m),
        forall|x: u64| #[trigger] s.contains(x) && x != m ==> before(place(x), place(m)),
    decreases s.len(),
{
    let a = s.choose();
    let rest = s.remove(a);
    if rest.len() == 0 {
        assert forall|x: u64| #[trigger] s.contains(x) && x != a implies false by {
            assert(rest.contains(x));
        }
        a
    } else {
        let b = lemma_last(rest, place);
        assert(place(a).2 == a && place(b).2 == b);
        let m = if before(place(a), place(b)) {
            b
        } else {
            a
        };
        assert forall|x: u64| #[trigger] s.contains(x) && x != m implies before(
            place(x),
            place(m),
        ) by {
            if x != a {
                assert(rest.contains(x));
            }
        }
        m
    }
}

/// A finite set can be arranged.
pub proof fn lemma_has_arrangement(s: Set<u64>, place: spec_fn(u64) -> Place)
    requires
        s.finite(),
        forall|x: u64| (#[trigger] place(x)).2 == x,
    ensures
        arranges(arranged(s, place), s, place),
    decreases s.len(),
{
    if s.len() == 0 {
        assert(arranges(Seq::<u64>::empty(), s, place));
    } else {
        let m = lemma_last(s, place);
        let rest = s.remove(m);
        lemma_has_arrangement(rest, place);
        let v = arranged(rest, place);
        let w = v.push(m);
        assert forall|x: u64| #[trigger] w.contains(x) <==> s.contains(x) by {
            if w.contains(x) {
                let k = choose|k: int| 0 <= k < w.len() && w[k] == x;
                if k < v.len() {
                    assert(v.contains(v[k]));
                }
            }
            if s.contains(x) {
                if x == m {
                    assert(w[v.len() as int] == x);
                } else {
                    assert(rest.contains(x));
                    assert(v.contains(x));
                    let k = choose|k: int| 0 <= k < v.len() && v[k] == x;
                    assert(w[k] == x);
                }
            }
        }
        assert forall|i: int, j: int| 0 <= i < j < w.len() implies before(
            place(#[trigger] w[i]),
            place(#[trigger] w[j]),
        ) by {
            if j == v.len() {
                assert(v.contains(v[i]));
                assert(rest.contains(v[i]));
            }
        }
        assert(arranges(w, s, place));
    }
}

pub type Key = (i128, i64, u64);

pub open spec fn key_place(k: Key) -> Place {
    (k.0 as int, k.1 as int, k.2 as int)
}

fn key_before(a: Key, b: Key) -> (r: bool)
    ensures
        r == before(key_place(a), key_place(b)),
{
    a.0 < b.0 || (a.0 == b.0 && (a.1 < b.1 || (a.1 == b.1 && a.2 < b.2)))
}

/// Put `item` into the ascending `out`, where its place is.
fn insert_key(out: &mut Vec<Key>, item: Key)
    requires
        forall|i: int, j: int|
            0 <= i < j < old(out)@.len() ==> before(
                key_place(#[trigger] old(out)@[i]),
                key_place(#[trigger] old(out)@[j]),
            ),
        forall|i: int| 0 <= i < old(out)@.len() ==> (#[trigger] old(out)@[i]).2 != item.2,
    ensures
        forall|i: int, j: int|
            0 <= i < j < final(out)@.len() ==> before(
                key_place(#[trigger] final(out)@[i]),
                key_place(#[trigger] final(out)@[j]),
            ),
        exists|k: int| 0 <= k <= old(out)@.len() && final(out)@ == old(out)@.insert(k, item),
{
    let mut k: usize = out.len();
    while k > 0 && key_before(item, out[k - 1])
        invariant
            k <= out@.len(),
            forall|m: int|
                k <= m < out@.len() ==> before(key_place(item), key_place(#[trigger] out@[m])),
        decreases k,
    {
        k = k - 1;
    }
    let ghost was = out@;
    out.insert(k, item);
    proof {
        assert forall|i: int, j: int| 0 <= i < j < out@.len() implies before(
            key_place(#[trigger] out@[i]),
            key_place(#[trigger] out@[j]),
        ) by {
            if k > 0 {
                lemma_before_total(key_place(item), key_place(was[k - 1]));
                assert(before(key_place(was[k - 1]), key_place(item)));
            }
            if i < k && j < k {
                assert(out@[i] == was[i] && out@[j] == was[j]);
            } else if i < k && j == k {
                if i < k - 1 {
                    assert(before(key_place(was[i]), key_place(was[k - 1])));
                }
            } else if i < k && j > k {
                assert(out@[j] == was[j - 1]);
            } else if i == k {
                assert(out@[j] == was[j - 1]);
            } else {
                assert(out@[i] == was[i - 1] && out@[j] == was[j - 1]);
            }
        }
    }
}

/// The ids of some keys, in the order of the keys.
pub(crate) fn arrange(items: &Vec<Key>, place: Ghost<spec_fn(u64) -> Place>) -> (r: Vec<u64>)
    requires
        forall|i: int, j: int|
            0 <= i < j < items@.len() ==> (#[trigger] items@[i]).2 != (#[trigger] items@[j]).2,
        forall|i: int| 0 <= i < items@.len() ==> (place@)((#[trigger] items@[i]).2) == key_place(
            items@[i],
        ),
    ensures
        arranges(r@, items@.map_values(|k: Key| k.2).to_set(), place@),
{
    let mut sorted: Vec<Key> = Vec::new();
    let mut i: usize = 0;
    while i < items.len()
        invariant
            i <= items@.len(),
            forall|a: int, b: int|
                0 <= a < b < items@.len() ==> (#[trigger] items@[a]).2 != (#[trigger] items@[b]).2,
            forall|a: int, b: int|
                0 <= a < b < sorted@.len() ==> before(
                    key_place(#[trigger] sorted@[a]),
                    key_place(#[trigger] sorted@[b]),
                ),
            forall|k: Key| #[trigger] sorted@.contains(k) <==> items@.take(i as int).contains(k),
        decreases items@.len() - i,
    {
        let item: Key = items[i];
        let ghost was = sorted@;
        proof {
            assert forall|m: int| 0 <= m < was.len() implies (#[trigger] was[m]).2 != item.2 by {
                assert(was.contains(was[m]));
                let q = choose|q: int| 0 <= q < i && items@.take(i as int)[q] == was[m];
                assert(items@[q].2 != items@[i as int].2);
            }
        }
        insert_key(&mut sorted, item);
        proof {
            let at = choose|at: int| 0 <= at <= was.len() && sorted@ == was.insert(at, item);
            assert forall|k: Key| #[trigger] sorted@.contains(k) <==> items@.take(i + 1).contains(
                k,
            ) by {
                let t = items@.take(i as int);
                let u = items@.take(i + 1);
                if sorted@.contains(k) {
                    let m = choose|m: int| 0 <= m < sorted@.len() && sorted@[m] == k;
                    if m == at {
                        assert(u[i as int] == k);
                    } else {
                        let o = if m < at {
                            m
                        } else {
                            m - 1
                        };
                        assert(was[o] == k);
                        assert(was.contains(k));
                        let q = choose|q: int| 0 <= q < t.len() && t[q] == k;
                        assert(u[q] == k);
                    }
                }
                if u.contains(k) {
                    let q = choose|q: int| 0 <= q < u.len() && u[q] == k;
                    if q == i {
                        assert(sorted@[at] == k);
                    } else {
                        assert(t[q] == k);
                        assert(was.contains(k));
                        let o = choose|o: int| 0 <= o < was.len() && was[o] == k;
                        if o < at {
                            assert(sorted@[o] == k);
                        } else {
                            assert(sorted@[o + 1] == k);
                        }
                    }
                }
            }
        }
        i = i + 1;
    }
    assert(items@.take(i as int) =~= items@);
    let mut r: Vec<u64> = Vec::new();
    let mut j: usize = 0;
    while j < sorted.len()
        invariant
            j <= sorted@.len(),
            r@.len() == j,
            forall|m: int| 0 <= m < j ==> #[trigger] r@[m] == sorted@[m].2,
        decreases sorted@.len() - j,
    {
        let k: Key = sorted[j];
        r.push(k.2);
        j = j + 1;
    }
    proof {
        let all = items@.map_values(|k: Key| k.2);
        assert forall|x: u64| #[trigger] r@.contains(x) <==> all.to_set().contains(x) by {
            if r@.contains(x) {
                let m = choose|m: int| 0 <= m < r@.len() && r@[m] == x;
                assert(sorted@.contains(sorted@[m]));
                let q = choose|q: int| 0 <= q < items@.len() && items@[q] == sorted@[m];
                assert(all[q] == x);
                assert(all.contains(x));
            }
            if all.to_set().contains(x) {
                let q = choose|q: int| 0 <= q < all.len() && all[q] == x;
                assert(items@.contains(items@[q]));
                assert(sorted@.contains(items@[q]));
                let m = choose|m: int| 0 <= m < sorted@.len() && sorted@[m] == items@[q];
                assert(r@[m] == x);
            }
        }
        assert forall|a: int, b: int| 0 <= a < b < r@.len() implies before(
            (place@)(#[trigger] r@[a]),
            (place@)(#[trigger] r@[b]),
        ) by {
            assert(sorted@.contains(sorted@[a]) && sorted@.contains(sorted@[b]));
            let qa = choose|q: int| 0 <= q < items@.len() && items@[q] == sorted@[a];
            let qb = choose|q: int| 0 <= q < items@.len() && items@[q] == sorted@[b];
            assert((place@)(items@[qa].2) == key_place(items@[qa]));
            assert((place@)(items@[qb].2) == key_place(items@[qb]));
        }
    }
    r
}

impl Graph {
    /// Where `id` stands: its row, its column if that counts, and itself.
    fn key_of(&self, id: u64, across: bool) -> (r: Key)
        requires
            self@.has(id),
        ensures
            key_place(r) == (if across {
                (self@.reading())(id)
            } else {
                (self@.down())(id)
            }),
            r.2 == id,
    {
        match self.nodes.get(&id) {
            Some(n) => {
                let y: i128 = n.y.order() as i128;
                let x: i64 = if across {
                    n.x.order()
                } else {
                    0
                };
                (y, x, id)
            },
            None => (0, 0, id),
        }
    }

    /// Some nodes in order.
    fn in_order(&self, v: &Vec<u64>, across: bool, s: Ghost<Set<u64>>) -> (r: Vec<u64>)
        requires
            ids::lists(v@, s@),
            s@.subset_of(self@.nodes.dom()),
        ensures
            arranges(
                r@,
                s@,
                if across {
                    self@.reading()
                } else {
                    self@.down()
                },
            ),
    {
        let ghost place = if across {
            self@.reading()
        } else {
            self@.down()
        };
        let mut items: Vec<Key> = Vec::new();
        let mut i: usize = 0;
        while i < v.len()
            invariant
                i <= v@.len(),
                ids::lists(v@, s@),
                s@.subset_of(self@.nodes.dom()),
                place == (if across {
                    self@.reading()
                } else {
                    self@.down()
                }),
                items@.len() == i,
                forall|m: int|
                    0 <= m < i ==> (#[trigger] items@[m]).2 == v@[m] && key_place(items@[m])
                        == place(v@[m]),
            decreases v@.len() - i,
        {
            let id: u64 = v[i];
            proof {
                assert(v@.contains(id));
                assert(s@.contains(id));
            }
            items.push(self.key_of(id, across));
            i = i + 1;
        }
        let r = arrange(&items, Ghost(place));
        assert(items@.map_values(|k: Key| k.2) =~= v@);
        assert(v@.to_set() =~= s@);
        r
    }

    /// `id`'s siblings top-to-bottom by position, `id` included. The order the
    /// arrows and reorder walk.
    pub fn siblings_ordered(&self, id: u64) -> (r: Vec<u64>)
        ensures
            arranges(r@, self@.siblings(id), self@.down()),
            r@ == self@.siblings_down(id),
    {
        let sibs = self.siblings_of(id);
        let r = self.in_order(&sibs, false, Ghost(self@.siblings(id)));
        proof {
            lemma_arranged(r@, self@.siblings(id), self@.down());
        }
        r
    }

    /// Children of `parent` in a stable order: by row, then by column, then by id.
    pub fn ordered_children(&self, parent: u64) -> (r: Vec<u64>)
        ensures
            arranges(r@, self@.children(parent), self@.reading()),
            r@ == self@.reading_children(parent),
    {
        let kids = self.children_of(parent);
        let r = self.in_order(&kids, true, Ghost(self@.children(parent)));
        proof {
            lemma_arranged(r@, self@.children(parent), self@.reading());
        }
        r
    }

    /// The sibling next to `id`, above it or below it.
    pub(crate) fn next_sibling(&self, id: u64, up: bool) -> (r: Option<u64>)
        ensures
            r == self@.neighbour(id, up),
            r matches Some(o) ==> self@.has(id) && self@.has(o),
    {
        let v = self.siblings_ordered(id);
        let mut k: usize = 0;
        proof {
            lemma_neighbour(self@, id, up);
            lemma_arranges_distinct(v@, self@.siblings(id), self@.down());
        }
        while k < v.len()
            invariant
                k <= v@.len(),
                v@ == self@.siblings_down(id),
                v@.no_duplicates(),
                self@.neighbour(id, up) matches Some(o) ==> self@.has(id) && self@.has(o),
                forall|m: int| 0 <= m < k ==> #[trigger] v@[m] != id,
            decreases v@.len() - k,
        {
            if v[k] == id {
                assert(v@[k as int] == id);
                assert(v@.contains(id));
                assert(v@.index_of(id) == k);
                return if up {
                    if k > 0 {
                        Some(v[k - 1])
                    } else {
                        None
                    }
                } else if k + 1 < v.len() {
                    Some(v[k + 1])
                } else {
                    None
                };
            }
            k = k + 1;
        }
        None
    }

    /// Whether `id` has a sibling on the given side to trade places with.
    pub fn can_move_sibling(&self, id: u64, up: bool) -> (r: bool)
        ensures
            r == (self@.neighbour(id, up) is Some),
    {
        self.next_sibling(id, up).is_some()
    }

    /// Whether `id` has a preceding sibling to become a child of. The root is
    /// never re-parentable, so it can never indent even when detached branches
    /// give it top-level siblings.
    pub fn can_indent(&self, id: u64) -> (r: bool)
        ensures
            r == (id != self@.root && self@.siblings_down(id).len() > 1 && self@.siblings_down(
                id,
            )[0] != id),
    {
        if id == self.root_id {
            return false;
        }
        let v = self.siblings_ordered(id);
        v.len() > 1 && v[0] != id
    }

    /// Demote `id` under the sibling just above it.
    pub fn indent(&mut self, id: u64) -> (r: bool)
        ensures
            ({
                let g = old(self)@;
                match g.neighbour(id, true) {
                    Some(p) => r == g.may_hang(id, p) && final(self)@ == (if r {
                        g.reparented(id, p)
                    } else {
                        g
                    }),
                    None => !r && final(self)@ == g,
                }
            }),
    {
        match self.next_sibling(id, true) {
            Some(p) => self.reparent(id, p),
            None => false,
        }
    }
}

} // verus!
