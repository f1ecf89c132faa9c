//! A small but branchy map to begin with.

use vstd::prelude::*;
use crate::coord::Coord;
use crate::graph::model::{GraphModel, NodeModel};
use crate::graph::fold;
use crate::graph::tidy;
use crate::graph::{Direction, Graph, Mode};

verus! {

broadcast use {vstd::std_specs::hash::group_hash_axioms, vstd::std_specs::btree::group_btree_axioms};

/// A node of the demonstration: what it hangs under — the root, or else the
/// number of an earlier one, counted from one — and on which side, and its label.
pub open spec fn rows() -> Seq<(int, Direction, Seq<char>)> {
    seq![
        (0, Direction::Right, "scope"@),
        (1, Direction::Right, "multi-line labels"@),
        (1, Direction::Right, "edge editing"@),
        (1, Direction::Right, "cross-links"@),
        (2, Direction::Right, "wrap at node width"@),
        (2, Direction::Right, "grow, don't clip"@),
        (0, Direction::Up, "risk"@),
        (7, Direction::Right, "tidy is whole-map"@),
        (7, Direction::Right, "ui.rs has no tests"@),
        (9, Direction::Right, "extract find.rs"@),
        (9, Direction::Right, "extract frame.rs"@),
        (7, Direction::Right, "exports drop images"@),
        (0, Direction::Down, "ship"@),
        (13, Direction::Right, "notarize"@),
        (13, Direction::Right, "write the notes"@),
        (13, Direction::Right, "later"@),
        (16, Direction::Right, "sparkle updates"@),
        (16, Direction::Right, "iCloud"@),
        (0, Direction::Left, "cut"@),
        (19, Direction::Left, "themes"@),
        (19, Direction::Left, "shape picker"@),
        (19, Direction::Left, "auto-layout"@),
    ]
}

/// The id of node `n` of the demonstration; the root comes before the first.
pub open spec fn row_id(n: int) -> u64 {
    if n == 0 {
        1
    } else {
        (2 * n) as u64
    }
}

/// The branch that the demonstration shows folded.
pub const FOLDED: u64 = 32;

/// The colour of a branch of the demonstration: risk reads hot, shipped reads
/// cool.
pub open spec fn row_color(id: u64) -> Option<u8> {
    if id == 14 {
        Some(1u8)
    } else if id == 26 {
        Some(4u8)
    } else if id == 38 {
        Some(6u8)
    } else {
        None
    }
}

/// Node `k` of the demonstration, counted from none, is there.
pub open spec fn row_ok(g: GraphModel, k: int) -> bool {
    &&& g.has(row_id(k + 1))
    &&& g.nodes[row_id(k + 1)].text == rows()[k].2
    &&& g.parent_of(row_id(k + 1)) == Some(row_id(rows()[k].0))
}

/// `g` has the root and the first `n` nodes of the demonstration, and nothing else.
pub open spec fn has_rows(g: GraphModel, n: int) -> bool {
    &&& g.root == 1
    &&& g.has(1)
    &&& g.nodes[1].text == "release 0.3"@
    &&& g.parent_of(1) is None
    &&& forall|k: int| 0 <= k < n ==> #[trigger] row_ok(g, k)
    &&& forall|x: u64| #[trigger]
        g.has(x) ==> x == 1 || (x % 2 == 0 && 1 <= x / 2 <= n)
}

/// The map before it is laid out.
pub open spec fn is_demo(g: GraphModel) -> bool {
    &&& has_rows(g, 22)
    &&& forall|x: u64| #[trigger]
        g.has(x) ==> g.nodes[x].collapsed == (x == FOLDED) && g.nodes[x].color == row_color(x)
            && g.nodes[x].image is None
}

/// Nothing is folded, coloured or a picture.
spec fn all_plain(g: GraphModel) -> bool {
    forall|x: u64| #[trigger]
        g.has(x) ==> !g.nodes[x].collapsed && g.nodes[x].color is None && g.nodes[x].image is None
}

fn row(n: usize) -> (r: (usize, Direction, &'static str))
    requires
        n < 22,
    ensures
        r.0 == rows()[n as int].0,
        r.1 == rows()[n as int].1,
        r.2@ == rows()[n as int].2,
        r.0 <= n,
{
    if n == 0 {
        (0, Direction::Right, "scope")
    } else if n == 1 {
        (1, Direction::Right, "multi-line labels")
    } else if n == 2 {
        (1, Direction::Right, "edge editing")
    } else if n == 3 {
        (1, Direction::Right, "cross-links")
    } else if n == 4 {
        (2, Direction::Right, "wrap at node width")
    } else if n == 5 {
        (2, Direction::Right, "grow, don't clip")
    } else if n == 6 {
        (0, Direction::Up, "risk")
    } else if n == 7 {
        (7, Direction::Right, "tidy is whole-map")
    } else if n == 8 {
        (7, Direction::Right, "ui.rs has no tests")
    } else if n == 9 {
        (9, Direction::Right, "extract find.rs")
    } else if n == 10 {
        (9, Direction::Right, "extract frame.rs")
    } else if n == 11 {
        (7, Direction::Right, "exports drop images")
    } else if n == 12 {
        (0, Direction::Down, "ship")
    } else if n == 13 {
        (13, Direction::Right, "notarize")
    } else if n == 14 {
        (13, Direction::Right, "write the notes")
    } else if n == 15 {
        (13, Direction::Right, "later")
    } else if n == 16 {
        (16, Direction::Right, "sparkle updates")
    } else if n == 17 {
        (16, Direction::Right, "iCloud")
    } else if n == 18 {
        (0, Direction::Left, "cut")
    } else if n == 19 {
        (19, Direction::Left, "themes")
    } else if n == 20 {
        (19, Direction::Left, "shape picker")
    } else {
        (19, Direction::Left, "auto-layout")
    }
}

/// One more node of the demonstration.
proof fn lemma_row(g: GraphModel, n: int, x: Coord, y: Coord)
    requires
        0 <= n < 22,
        has_rows(g, n),
        all_plain(g),
        g.next_id == 2 * n + 2,
        forall|e: u64| #[trigger] g.edges.dom().contains(e) ==> e < g.next_id,
        0 <= rows()[n].0 <= n,
    ensures
        g.has(row_id(rows()[n].0)),
        ({
            let (r, h) = g.child_created(row_id(rows()[n].0), rows()[n].2, x, y);
            &&& r is Some
            &&& has_rows(h, n + 1)
            &&& all_plain(h)
            &&& h.next_id == 2 * (n + 1) + 2
            &&& forall|e: u64| #[trigger] h.edges.dom().contains(e) ==> e < h.next_id
        }),
{
    let p = row_id(rows()[n].0);
    if rows()[n].0 > 0 {
        assert(row_ok(g, rows()[n].0 - 1));
    }
    assert(g.has(p));
    fold::lemma_opened_same(g, p);
    let id = g.next_id;
    assert(!g.has(id)) by {
        if g.has(id) {
            assert(id / 2 <= n);
        }
    }
    assert(!g.has((id + 1) as u64)) by {
        if g.has((id + 1) as u64) {
            assert((id + 1) % 2 == 1);
        }
    }
    assert(!g.edges.dom().contains(id) && !g.edges.dom().contains((id + 1) as u64));
    assert(g.free(id) && g.free((id + 1) as u64));
    let (r, h) = g.child_created(p, rows()[n].2, x, y);
    assert(id == row_id(n + 1));
    assert(h.next_id == id + 2);
    assert forall|e: u64| #[trigger] h.edges.dom().contains(e) implies e < h.next_id by {
        if e != id + 1 {
            assert(g.edges.dom().contains(e));
        }
    }
    assert forall|z: u64| #[trigger] h.has(z) implies !h.nodes[z].collapsed && h.nodes[z].color is None
        && h.nodes[z].image is None by {
        if z != id {
            assert(g.has(z));
        }
    }
    assert forall|k: int| 0 <= k < n + 1 implies #[trigger] row_ok(h, k) by {
        if k < n {
            assert(row_ok(g, k));
            assert(row_id(k + 1) != id);
        }
    }
    assert forall|z: u64| #[trigger] h.has(z) implies z == 1 || (z % 2 == 0 && 1 <= z / 2 <= n + 1) by {
        if z != id {
            assert(g.has(z));
        }
    }
}

impl Graph {
    /// A map with branches on every side, one of them folded, three of them
    /// coloured, laid out and ready to navigate.
    pub fn demo<
        P: Fn(&Graph, u64, Direction) -> (Coord, Coord),
        C: Fn(Coord, Coord, Coord) -> Coord,
    >(place: &P, carry: &C) -> (r: Graph)
        requires
            forall|g: &Graph, p: u64, d: Direction| #[trigger] place.requires((g, p, d)),
            forall|a: Coord, b: Coord, c: Coord| #[trigger] carry.requires((a, b, c)),
        ensures
            is_demo(r@),
            exists|g: GraphModel, h: GraphModel|
                is_demo(g) && #[trigger] tidy::tidied(g, h, carry) && r@.nodes == h.nodes,
            r@.focus == 1,
            r@.selected == set![1u64],
            r@.edge_focus is None,
            r@.mode == Mode::Browse,
    {
        let mut g = Graph::new("release 0.3");
        let mut n: usize = 0;
        assert(has_rows(g@, 0));
        while n < 22
            invariant
                forall|g: &Graph, p: u64, d: Direction| #[trigger] place.requires((g, p, d)),
                n <= 22,
                has_rows(g@, n as int),
                all_plain(g@),
                g@.next_id == 2 * n + 2,
                forall|e: u64| #[trigger] g@.edges.dom().contains(e) ==> e < g@.next_id,
            decreases 22 - n,
        {
            let (up, direction, label) = row(n);
            let parent: u64 = if up == 0 {
                1
            } else {
                2 * (up as u64)
            };
            let ghost was = g@;
            let ghost before = g;
            proof {
                let at = Coord { bits: 0 };
                lemma_row(was, n as int, at, at);
            }
            let made: Option<u64> = g.create_child(parent, direction, label, place);
            proof {
                let (x, y) = choose|x: Coord, y: Coord| #[trigger]
                    place.ensures((&before, parent, direction), (x, y)) && (made, g@)
                        == was.child_created(parent, label@, x, y);
                lemma_row(was, n as int, x, y);
            }
            n = n + 1;
        }
        g.fold_and_colour();
        let ghost ready = g@;
        proof {
            assert(ready.grounded()) by {
                if ready.on_loop(1) {
                    let k = choose|k: nat| 1 <= k && #[trigger] ready.ancestor(1, k) == Some(1u64);
                    crate::graph::tree::lemma_ancestor_shift(ready, 1, (k - 1) as nat);
                }
            }
        }
        g.tidy(carry);
        let ghost laid = g@;
        proof {
            lemma_demo_stays(ready, laid);
            assert(tidy::tidied(ready, laid, carry));
        }
        g.focus(1);
        g.leave_edit();
        proof {
            assert(g@.nodes == laid.nodes);
            assert forall|x: u64| #[trigger] g@.has(x) implies laid.has(x) by {}
            assert(is_demo(g@)) by {
                assert(has_rows(g@, 22)) by {
                    assert forall|k: int| 0 <= k < 22 implies #[trigger] row_ok(g@, k) by {
                        assert(row_ok(laid, k));
                    }
                }
            }
        }
        g
    }

    /// One folded branch, because folding is the thing that makes a big map
    /// readable, and three coloured ones.
    fn fold_and_colour(&mut self)
        requires
            has_rows(old(self)@, 22),
            all_plain(old(self)@),
        ensures
            is_demo(final(self)@),
            final(self)@.root == old(self)@.root,
    {
        let ghost g = self@;
        self.repaint(FOLDED, true, None);
        let ghost a = self@;
        self.repaint(14, false, Some(1));
        let ghost b = self@;
        self.repaint(26, false, Some(4));
        let ghost c = self@;
        self.repaint(38, false, Some(6));
        proof {
            assert(row_ok(g, 15) && row_ok(g, 6) && row_ok(g, 12) && row_ok(g, 18));
            assert(self@.nodes.dom() =~= g.nodes.dom());
            assert forall|x: u64| #[trigger] g.has(x) implies self@.nodes[x].text == g.nodes[x].text
                && self@.nodes[x].parent == g.nodes[x].parent && self@.nodes[x].collapsed == (x
                == FOLDED) && self@.nodes[x].color == row_color(x) && self@.nodes[x].image is None by {}
            assert forall|x: u64| #[trigger] self@.has(x) implies g.has(x) by {}
            assert(has_rows(self@, 22)) by {
                assert forall|k: int| 0 <= k < 22 implies #[trigger] row_ok(self@, k) by {
                    assert(row_ok(g, k));
                    assert(g.has(row_id(k + 1)));
                }
                assert(g.has(1));
            }
        }
    }

    fn repaint(&mut self, id: u64, collapsed: bool, color: Option<u8>)
        ensures
            final(self)@ == (if old(self)@.has(id) {
                GraphModel {
                    nodes: old(self)@.nodes.insert(
                        id,
                        NodeModel { collapsed, color, ..old(self)@.nodes[id] },
                    ),
                    ..old(self)@
                }
            } else {
                old(self)@
            }),
    {
        match self.nodes.remove(&id) {
            Some(node) => {
                let mut node = node;
                node.collapsed = collapsed;
                node.color = color;
                self.nodes.insert(id, node);
                assert(self@.nodes =~= old(self)@.nodes.insert(
                    id,
                    NodeModel { collapsed, color, ..old(self)@.nodes[id] },
                ));
            },
            None => {},
        }
    }
}

/// Laying the demonstration out moves it and no more.
proof fn lemma_demo_stays(g: GraphModel, h: GraphModel)
    requires
        is_demo(g),
        tidy::repositioned(g, h),
    ensures
        is_demo(h),
{
    assert forall|x: u64| #[trigger] h.has(x) implies g.has(x) by {}
    assert(g.nodes.dom().contains(1));
    assert forall|k: int| 0 <= k < 22 implies #[trigger] row_ok(h, k) by {
        assert(row_ok(g, k));
        assert(g.nodes.dom().contains(row_id(k + 1)));
    }
    assert forall|x: u64| #[trigger] h.has(x) implies h.nodes[x].collapsed == (x == FOLDED)
        && h.nodes[x].color == row_color(x) && h.nodes[x].image is None by {
        assert(g.nodes.dom().contains(x));
        assert(g.has(x));
    }
}

} // verus!
