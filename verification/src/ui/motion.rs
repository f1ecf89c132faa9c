//! Nodes on their way: where each is drawn while it eases towards where the map
//! says it is.

use std::collections::HashMap;
use vstd::prelude::*;
use crate::coord::Coord;
use crate::graph::model::GraphModel;
use crate::graph::Graph;
use crate::ids;

verus! {

broadcast use {vstd::std_specs::hash::group_hash_axioms, vstd::std_specs::btree::group_btree_axioms};

/// Where the nodes that are on their way are drawn.
pub struct Motion {
    pub at: HashMap<u64, (Coord, Coord)>,
}

impl View for Motion {
    type V = Map<u64, (Coord, Coord)>;

    open spec fn view(&self) -> Map<u64, (Coord, Coord)> {
        self.at@
    }
}

/// Every node noted where it is, unless it is on its way: a second move goes on
/// from where the node is drawn.
pub open spec fn captured(
    at: Map<u64, (Coord, Coord)>,
    g: GraphModel,
) -> Map<u64, (Coord, Coord)> {
    Map::new(
        |id: u64| at.dom().contains(id) || g.has(id),
        |id: u64|
            if at.dom().contains(id) {
                at[id]
            } else {
                (g.nodes[id].x, g.nodes[id].y)
            },
    )
}

/// `after` is `before` one step on: a node that is gone or `near` its place has
/// arrived, and each other is where `ease` takes it.
pub open spec fn stepped<
    N: Fn(Coord, Coord, Coord, Coord) -> bool,
    E: Fn(Coord, Coord) -> Coord,
>(
    before: Map<u64, (Coord, Coord)>,
    after: Map<u64, (Coord, Coord)>,
    g: GraphModel,
    near: &N,
    ease: &E,
) -> bool {
    &&& after.dom().subset_of(before.dom())
    &&& forall|id: u64|
        before.dom().contains(id) ==> {
            let (x, y) = before[id];
            let n = g.nodes[id];
            if #[trigger] after.dom().contains(id) {
                &&& g.has(id)
                &&& near.ensures((x, y, n.x, n.y), false)
                &&& ease.ensures((x, n.x), after[id].0)
                &&& ease.ensures((y, n.y), after[id].1)
            } else {
                g.has(id) ==> near.ensures((x, y, n.x, n.y), true)
            }
        }
}

impl Motion {
    /// Nothing is on its way.
    pub fn new() -> (r: Motion)
        ensures
            r@ == Map::<u64, (Coord, Coord)>::empty(),
    {
        Motion { at: HashMap::new() }
    }

    /// Notes where everything is, so that the next change of the layout has
    /// somewhere to ease from.
    pub fn capture(&mut self, g: &Graph)
        ensures
            final(self)@ == captured(old(self)@, g@),
    {
        let ghost was = self@;
        let all = ids::keys(&g.nodes);
        let n: usize = all.len();
        let mut i: usize = 0;
        assert(g@.nodes.dom() =~= g.nodes@.dom());
        while i < n
            invariant
                i <= n,
                n == all@.len(),
                g@.nodes.dom() == g.nodes@.dom(),
                forall|x: u64| #[trigger] all@.contains(x) <==> g.nodes@.dom().contains(x),
                forall|x: u64| #[trigger]
                    self@.dom().contains(x) <==> was.dom().contains(x) || all@.take(
                        i as int,
                    ).contains(x),
                forall|x: u64| #[trigger]
                    self@.dom().contains(x) ==> self@[x] == (if was.dom().contains(x) {
                        was[x]
                    } else {
                        (g@.nodes[x].x, g@.nodes[x].y)
                    }),
            decreases n - i,
        {
            let id: u64 = all[i];
            assert(all@.contains(all@[i as int]));
            let ghost before = self@;
            if !self.at.contains_key(&id) {
                match g.nodes.get(&id) {
                    Some(node) => {
                        assert(node@ == g@.nodes[id]);
                        self.at.insert(id, (node.x, node.y));
                    },
                    None => {},
                }
            }
            proof {
                let now = all@.take(i + 1);
                assert(now =~= all@.take(i as int).push(id));
                assert forall|x: u64| now.contains(x) <==> all@.take(i as int).contains(x) || x
                    == id by {
                    ids::lemma_contains_push(all@, i as int);
                    if all@.take(i as int).contains(x) {
                        let k = choose|k: int| 0 <= k < i && all@.take(i as int)[k] == x;
                        assert(now[k] == x);
                    }
                    if now.contains(x) && x != id {
                        let k = choose|k: int| 0 <= k < now.len() && now[k] == x;
                        assert(all@.take(i as int)[k] == x);
                    }
                    assert(now[i as int] == id);
                }
                assert(self@.dom() =~= before.dom().insert(id));
            }
            i = i + 1;
        }
        assert(all@.take(n as int) =~= all@);
        assert(self@ =~= captured(was, g@));
    }

    /// Eases every node that is on its way. Says whether anything still is.
    pub fn step<N: Fn(Coord, Coord, Coord, Coord) -> bool, E: Fn(Coord, Coord) -> Coord>(
        &mut self,
        g: &Graph,
        near: &N,
        ease: &E,
    ) -> (r: bool)
        requires
            forall|a: Coord, b: Coord, c: Coord, d: Coord| #[trigger] near.requires((a, b, c, d)),
            forall|a: Coord, b: Coord| #[trigger] ease.requires((a, b)),
        ensures
            stepped(old(self)@, final(self)@, g@, near, ease),
            r == (exists|id: u64| final(self)@.dom().contains(id)),
    {
        let ghost was = self@;
        let all = ids::keys(&self.at);
        let n: usize = all.len();
        let mut next: HashMap<u64, (Coord, Coord)> = HashMap::new();
        let mut any = false;
        let mut i: usize = 0;
        assert(g@.nodes.dom() =~= g.nodes@.dom());
        while i < n
            invariant
                i <= n,
                n == all@.len(),
                self@ == was,
                g@.nodes.dom() == g.nodes@.dom(),
                all@.no_duplicates(),
                forall|a: Coord, b: Coord, c: Coord, d: Coord| #[trigger]
                    near.requires((a, b, c, d)),
                forall|a: Coord, b: Coord| #[trigger] ease.requires((a, b)),
                forall|x: u64| #[trigger] all@.contains(x) <==> was.dom().contains(x),
                forall|x: u64| #[trigger]
                    next@.dom().contains(x) ==> exists|k: int| 0 <= k < i && #[trigger] all@[k] == x,
                forall|k: int|
                    0 <= k < i ==> arrived(was, next@, g@, near, ease, #[trigger] all@[k]),
                any == (exists|x: u64| next@.dom().contains(x)),
            decreases n - i,
        {
            let id: u64 = all[i];
            let ghost before = next@;
            assert(all@.contains(all@[i as int]));
            assert(!before.dom().contains(id)) by {
                if before.dom().contains(id) {
                    let k = choose|k: int| 0 <= k < i && #[trigger] all@[k] == id;
                    assert(all@[k] == all@[i as int]);
                }
            }
            match (self.at.get(&id), g.nodes.get(&id)) {
                (Some(at), Some(node)) => {
                    assert(node@ == g@.nodes[id]);
                    let (x, y) = *at;
                    if !near(x, y, node.x, node.y) {
                        let nx = ease(x, node.x);
                        let ny = ease(y, node.y);
                        next.insert(id, (nx, ny));
                        any = true;
                        assert(next@.dom().contains(id));
                    }
                },
                _ => {},
            }
            proof {
                assert(arrived(was, next@, g@, near, ease, all@[i as int]));
                assert forall|k: int| 0 <= k < i implies arrived(
                    was,
                    next@,
                    g@,
                    near,
                    ease,
                    #[trigger] all@[k],
                ) by {
                    assert(arrived(was, before, g@, near, ease, all@[k]));
                    assert(all@[k] != all@[i as int]);
                }
                assert forall|x: u64| #[trigger] next@.dom().contains(x) implies exists|k: int|
                    0 <= k < i + 1 && #[trigger] all@[k] == x by {
                    if x != id {
                        assert(before.dom().contains(x));
                        let k = choose|k: int| 0 <= k < i && #[trigger] all@[k] == x;
                        assert(all@[k] == x);
                    } else {
                        assert(all@[i as int] == x);
                    }
                }
                if exists|x: u64| before.dom().contains(x) {
                    let x = choose|x: u64| before.dom().contains(x);
                    assert(next@.dom().contains(x));
                }
            }
            i = i + 1;
        }
        self.at = next;
        proof {
            assert forall|id: u64| was.dom().contains(id) implies arrived(
                was,
                self@,
                g@,
                near,
                ease,
                id,
            ) by {
                assert(all@.contains(id));
                let k = choose|k: int| 0 <= k < all@.len() && all@[k] == id;
                assert(arrived(was, self@, g@, near, ease, all@[k]));
            }
            assert(self@.dom().subset_of(was.dom())) by {
                assert forall|x: u64| self@.dom().contains(x) implies was.dom().contains(x) by {
                    let k = choose|k: int| 0 <= k < n && #[trigger] all@[k] == x;
                    assert(all@.contains(all@[k]));
                }
            }
        }
        any
    }

    /// Where a node at `(x, y)` is drawn.
    pub fn draw_at(&self, id: u64, x: Coord, y: Coord) -> (r: (Coord, Coord))
        ensures
            r == (if self@.dom().contains(id) {
                self@[id]
            } else {
                (x, y)
            }),
    {
        match self.at.get(&id) {
            Some(at) => *at,
            None => (x, y),
        }
    }
}

/// What one step makes of one node.
spec fn arrived<N: Fn(Coord, Coord, Coord, Coord) -> bool, E: Fn(Coord, Coord) -> Coord>(
    before: Map<u64, (Coord, Coord)>,
    after: Map<u64, (Coord, Coord)>,
    g: GraphModel,
    near: &N,
    ease: &E,
    id: u64,
) -> bool {
    let (x, y) = before[id];
    let n = g.nodes[id];
    if after.dom().contains(id) {
        &&& g.has(id)
        &&& near.ensures((x, y, n.x, n.y), false)
        &&& ease.ensures((x, n.x), after[id].0)
        &&& ease.ensures((y, n.y), after[id].1)
    } else {
        g.has(id) ==> near.ensures((x, y, n.x, n.y), true)
    }
}

/// Noting twice is noting once, and what is on its way is not called back.
pub proof fn capturing_twice_is_capturing_once(at: Map<u64, (Coord, Coord)>, g: GraphModel)
    ensures
        captured(captured(at, g), g) == captured(at, g),
        forall|id: u64| #[trigger] at.dom().contains(id) ==> captured(at, g)[id] == at[id],
{
    assert(captured(captured(at, g), g) =~= captured(at, g));
}

} // verus!
