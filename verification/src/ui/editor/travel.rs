//! Verbs that move the cursor and the selection, and those that go through the
//! whole map: search and replace, and pictures that arrive together.

use vstd::prelude::*;
use crate::coord::Coord;
use crate::graph::model::{GraphModel, ImageModel};
use crate::graph::spatial;
use crate::graph::{Direction, Mode, Node};
use crate::history::Tag;
use crate::ids;
use crate::ui::editor;
use crate::ui::editor::{Editor, EditorModel};

verus! {

broadcast use {vstd::std_specs::hash::group_hash_axioms, vstd::std_specs::btree::group_btree_axioms};

impl GraphModel {
    /// A node that no fold hides.
    pub open spec fn in_view(self, id: u64) -> bool {
        self.has(id) && !self.hidden().contains(id)
    }

    /// Every node that is shown has a height that is a number.
    pub open spec fn heights_ok(self) -> bool {
        forall|id: u64| #[trigger] self.in_view(id) ==> !self.nodes[id].y.not_a_number()
    }

    /// `id` is the lowest node that is shown; of several, the youngest.
    pub open spec fn lowest(self, id: u64) -> bool {
        &&& self.in_view(id)
        &&& forall|o: u64| #[trigger]
            self.in_view(o) ==> !self.nodes[id].y.below(self.nodes[o].y) && (self.nodes[o].y.same(
                self.nodes[id].y,
            ) ==> o <= id)
    }
}

/// A picture to be placed: its name, its centre and its box.
pub struct Placed {
    pub name: String,
    pub x: Coord,
    pub y: Coord,
    pub w: Coord,
    pub h: Coord,
}

/// A map with a node for each picture, as long as there are ids for them; and
/// those nodes.
pub open spec fn pictured(g: GraphModel, list: Seq<Placed>) -> (GraphModel, Seq<u64>)
    decreases list.len(),
{
    if list.len() == 0 {
        (g, seq![])
    } else {
        let (h, made) = pictured(g, list.drop_last());
        let p = list.last();
        if made.len() < list.len() - 1 {
            (h, made)
        } else {
            match h.free_created(p.x, p.y) {
                (Some(id), k) => (
                    editor::with_picture(
                        k,
                        id,
                        ImageModel { name: p.name@, w: p.w, h: p.h },
                    ).browsing(),
                    made.push(id),
                ),
                (None, k) => (k, made),
            }
        }
    }
}

/// What placing pictures comes to: one step for all of them, the cursor on the
/// first.
pub open spec fn placed(e: EditorModel, list: Seq<Placed>) -> EditorModel {
    let (g, made) = pictured(e.graph, list);
    let noted = e.recorded(Tag::Structure);
    if list.len() == 0 {
        e
    } else if made.len() == 0 {
        noted.with(g)
    } else {
        noted.with(
            if g.has(made[0]) {
                (GraphModel { focus: made[0], ..g }).caret_at_end()
            } else {
                g
            },
        ).sealed()
    }
}

impl Editor {
    /// To the root.
    pub fn focus_root(&mut self)
        ensures
            final(self)@ == old(self)@.with(
                old(self)@.graph.browsing().focused_on(old(self)@.graph.root),
            ),
    {
        self.graph.leave_edit();
        let root: u64 = self.graph.root_id;
        self.graph.focus(root);
    }

    /// To the lowest node that is shown.
    pub fn focus_last(&mut self) -> (r: Option<u64>)
        ensures
            ({
                let g = old(self)@.graph.browsing();
                match r {
                    Some(id) => g.in_view(id) && (g.heights_ok() ==> g.lowest(id)) && final(self)@
                        == old(self)@.with(g.focused_on(id)),
                    None => (forall|id: u64| !#[trigger] g.in_view(id)) && final(self)@
                        == old(self)@.with(g),
                }
            }),
    {
        self.graph.leave_edit();
        let ghost g = self@.graph;
        let hidden = self.graph.hidden_set();
        let all = ids::sorted_keys(&self.graph.nodes);
        let n: usize = all.len();
        let mut best: Option<u64> = None;
        let mut at: Coord = Coord::zero();
        let mut i: usize = 0;
        assert(g.nodes.dom() =~= self.graph.nodes@.dom());
        while i < n
            invariant
                i <= n,
                n == all@.len(),
                self@.graph == g,
                self@.history == old(self)@.history,
                hidden@ == g.hidden(),
                g.nodes.dom() == self.graph.nodes@.dom(),
                ids::lists(all@, g.nodes.dom()),
                match best {
                    Some(b) => g.in_view(b) && at == g.nodes[b].y && exists|k: int|
                        0 <= k < i && #[trigger] all@[k] == b,
                    None => forall|k: int| 0 <= k < i ==> !g.in_view(#[trigger] all@[k]),
                },
                best is Some && g.heights_ok() ==> forall|k: int|
                    0 <= k < i && g.in_view(#[trigger] all@[k]) ==> !at.below(g.nodes[all@[k]].y) && (
                    g.nodes[all@[k]].y.same(at) ==> all@[k] <= best->0),
            decreases n - i,
        {
            let id: u64 = all[i];
            assert(all@.contains(all@[i as int]));
            assert(g.has(id));
            let shown = !hidden.contains(&id);
            assert(shown == g.in_view(id));
            if shown {
                match self.graph.nodes.get(&id) {
                    Some(node) => {
                        assert(node@ == g.nodes[id]);
                        let y: Coord = node.y;
                        if best.is_none() || !y.is_below(at) {
                            proof {
                                if g.heights_ok() && best is Some {
                                    assert(g.in_view(best->0));
                                    assert forall|k: int| 0 <= k < i + 1 && g.in_view(
                                        #[trigger] all@[k],
                                    ) implies !y.below(g.nodes[all@[k]].y) && all@[k] <= id by {
                                        if k < i {
                                            assert(all@[k] < all@[i as int]);
                                        }
                                    }
                                }
                            }
                            best = Some(id);
                            at = y;
                        }
                    },
                    None => {},
                }
            }
            i = i + 1;
        }
        proof {
            assert forall|id: u64| g.in_view(id) implies exists|k: int|
                0 <= k < n && #[trigger] all@[k] == id by {
                assert(all@.contains(id));
            }
        }
        match best {
            Some(id) => {
                proof {
                    if g.heights_ok() {
                        assert forall|o: u64| #[trigger] g.in_view(o) implies !g.nodes[id].y.below(
                            g.nodes[o].y,
                        ) && (g.nodes[o].y.same(g.nodes[id].y) ==> o <= id) by {
                            let k = choose|k: int| 0 <= k < n && #[trigger] all@[k] == o;
                            assert(g.in_view(all@[k]));
                        }
                        assert(g.lowest(id));
                    }
                }
                self.graph.focus(id);
                Some(id)
            },
            None => {
                assert forall|id: u64| !#[trigger] g.in_view(id) by {
                    if g.in_view(id) {
                        let k = choose|k: int| 0 <= k < n && #[trigger] all@[k] == id;
                        assert(!g.in_view(all@[k]));
                    }
                }
                None
            },
        }
    }

    /// An arrow key: to the node that lies that way. A move ends the step.
    pub fn navigate<
        A: Fn(u64, &Node) -> bool,
        B: Fn(u64, &Node) -> Option<Coord>,
        T: Fn(u64, &Node) -> Option<Coord>,
    >(&mut self, direction: Direction, ahead: &A, beside: &B, toward: &T) -> (moved: bool)
        requires
            forall|id: u64, n: &Node| #[trigger] ahead.requires((id, n)),
            forall|id: u64, n: &Node| #[trigger] beside.requires((id, n)),
            forall|id: u64, n: &Node| #[trigger] toward.requires((id, n)),
        ensures
            exists|r: Option<u64>| #[trigger]
                spatial::arrow_target(
                    &old(self).graph,
                    direction,
                    ahead,
                    beside,
                    toward,
                    r,
                ) && moved == (r is Some) && final(self)@ == ({
                    let g = GraphModel { edge_focus: None, ..old(self)@.graph };
                    match r {
                        Some(id) => old(self)@.with(g.focused_on(id)).sealed(),
                        None => old(self)@.with(g.caret_at_end()),
                    }
                }),
    {
        let moved = self.graph.navigate(direction, ahead, beside, toward);
        if moved {
            self.history.seal();
        }
        moved
    }

    /// To the next sibling, or to the one before. Not while typing.
    pub fn focus_sibling(&mut self, forward: bool) -> (moved: bool)
        ensures
            ({
                let g = GraphModel { edge_focus: None, ..old(self)@.graph };
                let v = match g.parent_of(g.focus) {
                    Some(p) => ids::listed(g.children(p)),
                    None => seq![],
                };
                let delta = if forward {
                    1int
                } else {
                    -1
                };
                if g.mode == Mode::Edit {
                    !moved && final(self)@ == old(self)@
                } else {
                    &&& moved == (v.len() >= 2)
                    &&& final(self)@ == (if moved {
                        old(self)@.with(
                            g.focused_on(v[(v.index_of(g.focus) + delta) % (v.len() as int)]),
                        ).sealed()
                    } else {
                        old(self)@.with(g.caret_at_end())
                    })
                }
            }),
    {
        if self.graph.is_editing() {
            return false;
        }
        let moved = self.graph.focus_sibling(
            if forward {
                1
            } else {
                -1
            },
        );
        if moved {
            self.history.seal();
        }
        moved
    }

    /// Everything: the whole label while typing, and every node otherwise.
    pub fn select_all(&mut self)
        ensures
            ({
                let g = old(self)@.graph;
                let n = g.active_bytes().len();
                let all = GraphModel { anchor: Some(0), caret: n as usize, ..g };
                final(self)@ == (if g.mode == Mode::Browse {
                    old(self)@.with(g.selection_set(g.nodes.dom()))
                } else if n == 0 || all == g {
                    old(self)@
                } else {
                    old(self)@.with(all).sealed()
                })
            }),
    {
        if self.graph.is_editing() {
            if self.graph.select_all() {
                self.history.seal();
            }
            return;
        }
        let all = ids::sorted_keys(&self.graph.nodes);
        proof {
            let g = self@.graph;
            assert(g.nodes.dom() =~= self.graph.nodes@.dom());
            assert(all@.to_set() =~= g.nodes.dom()) by {
                assert forall|x: u64| all@.to_set().contains(x) <==> g.nodes.dom().contains(x) by {
                    assert(all@.contains(x) <==> g.nodes.dom().contains(x));
                }
            }
        }
        self.graph.set_node_selection(&all);
    }

    /// From a node to the label of the edge into it, or back. Says whether there
    /// is one.
    pub fn toggle_edge_label(&mut self) -> (r: bool)
        ensures
            ({
                let g = old(self)@.graph;
                match (g.edge_focus, ids::least(g.edges_into(g.focus))) {
                    (Some(e), _) => r && final(self)@ == old(self)@.with(g.edge_left()).sealed(),
                    (None, Some(e)) => r && final(self)@ == old(self)@.with(
                        (GraphModel { mode: Mode::Edit, ..g.edge_focused(e) }).caret_at_end(),
                    ).sealed(),
                    (None, None) => !r && final(self)@ == old(self)@,
                }
            }),
    {
        if self.graph.toggle_edge_edit_on_focused() {
            self.history.seal();
            true
        } else {
            false
        }
    }

    /// To a match of the search, unfolding whatever hides it. Says whether
    /// anything was unfolded.
    pub fn go_to(&mut self, id: u64) -> (r: bool)
        ensures
            r == old(self)@.graph.folded_above(id),
            final(self)@ == old(self)@.with(old(self)@.graph.revealed(id).focused_on(id)),
    {
        let r = self.graph.reveal_node(id);
        self.graph.focus(id);
        r
    }

    /// The query swapped for the replacement in every label, as one step. Nothing
    /// is noted where no label changes. Says in how many it did.
    pub fn replace_all(&mut self, query: &str, with: &str) -> (r: usize)
        ensures
            r == old(self)@.graph.changed_by(query@, with@).len(),
            final(self)@ == (if r > 0 {
                old(self)@.recorded(Tag::Structure).with(
                    old(self)@.graph.all_relabelled(query@, with@),
                )
            } else {
                old(self)@
            }),
    {
        let mut next = self.graph.clone();
        let n: usize = next.replace_all(query, with);
        if n > 0 {
            self.edit(Tag::Structure);
            self.graph = next;
        }
        n
    }

    /// A node for each picture, in the order they are given, until there are no
    /// ids left. Says how many were made.
    pub fn place_images(&mut self, list: &Vec<Placed>) -> (r: usize)
        ensures
            final(self)@ == placed(old(self)@, list@),
            r == pictured(old(self)@.graph, list@).1.len(),
    {
        let ghost g = self@.graph;
        let n: usize = list.len();
        if n == 0 {
            return 0;
        }
        self.edit(Tag::Structure);
        let ghost h = self@.history;
        let mut made: Vec<u64> = Vec::new();
        let mut i: usize = 0;
        let mut full = false;
        assert(list@.take(0) =~= seq![]);
        while i < n
            invariant
                i <= n,
                n == list@.len(),
                self@.history == h,
                made@.len() <= i,
                full == (made@.len() < i),
                (self@.graph, made@) == pictured(g, list@.take(i as int)),
            decreases n - i,
        {
            assert(list@.take(i + 1).drop_last() =~= list@.take(i as int));
            if !full {
                let p = &list[i];
                match self.graph.create_free_node(p.x, p.y) {
                    Some(id) => {
                        self.set_picture(id, p.name.as_str(), p.w, p.h);
                        // A picture has no label to type.
                        self.graph.leave_edit();
                        made.push(id);
                    },
                    None => {
                        full = true;
                    },
                }
            }
            i = i + 1;
        }
        assert(list@.take(n as int) =~= list@);
        if made.len() > 0 {
            self.history.seal();
            self.graph.set_cursor(made[0]);
        }
        made.len()
    }
}

/// A search that finds its match shows it: the cursor is on it, and nothing on
/// its way up is folded any more.
pub proof fn a_match_is_in_view(g: GraphModel, id: u64)
    requires
        g.has(id),
    ensures
        g.revealed(id).focused_on(id).focus == id,
        !g.revealed(id).folded_above(id),
{
    crate::graph::keeps::revealed_is_not_hidden(g, id);
}

} // verus!
