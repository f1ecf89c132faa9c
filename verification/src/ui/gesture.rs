//! What the pointer and Escape do to the map: which gesture a press begins, and
//! what letting go of one, or giving it up, comes to.

use vstd::prelude::*;
use crate::coord::Coord;
use crate::cursor;
use crate::graph::model::{GraphModel, ImageModel};
use crate::graph::spatial;
use crate::graph::{Graph, Mode};
use crate::history::{HistoryModel, Tag};
use crate::ids;
use crate::ui::editor;
use crate::ui::editor::{Editor, EditorModel};

verus! {

broadcast use {vstd::std_specs::hash::group_hash_axioms, vstd::std_specs::btree::group_btree_axioms};

// ---------------------------------------------------------------------------
// Pressing
// ---------------------------------------------------------------------------

#[derive(Clone, Copy, Debug, PartialEq, Eq, Structural)]
pub enum Button {
    Left,
    Middle,
    Right,
}

/// What a press landed on, the first of these that applies.
#[derive(Clone, Copy, Debug, PartialEq, Eq, Structural)]
pub enum Hit {
    /// The corner of a picture.
    Grip(u64),
    /// The fold control of a node.
    Bubble(u64),
    Node(u64),
    Edge(u64),
    Ground,
}

/// A press of the pointer.
#[derive(Clone, Copy, Debug, PartialEq, Eq, Structural)]
pub struct Press {
    pub button: Button,
    pub shift: bool,
    pub platform: bool,
    pub control: bool,
    /// How many presses in a row this is.
    pub clicks: usize,
    pub hit: Hit,
    /// A context menu is open.
    pub menu: bool,
}

/// What a press begins.
pub enum Begun {
    /// A context menu is to be opened.
    Menu,
    /// The context menu is closed, and that is all.
    Closed,
    Pan,
    Resize(u64),
    Grow(u64),
    /// The selection has changed, and nothing is dragged.
    Picked,
    /// A sweep through the text, from a caret that is to be placed.
    Text,
    /// A move of these nodes by the one that was grabbed.
    Node(u64, Vec<u64>),
    /// The edge is looked at, and nothing is dragged.
    Edge,
    /// A node is to be made where the press landed.
    NewNode,
    /// A rubber band that adds to these nodes; where the cursor was.
    Marquee(Vec<u64>, u64),
}

pub enum BegunModel {
    Menu,
    Closed,
    Pan,
    Resize(u64),
    Grow(u64),
    Picked,
    Text,
    Node(u64, Set<u64>),
    Edge,
    NewNode,
    Marquee(Set<u64>, u64),
}

/// What a press begins, with lists as the sets they are of.
pub open spec fn begins(b: Begun, m: BegunModel) -> bool {
    match b {
        Begun::Menu => m is Menu,
        Begun::Closed => m is Closed,
        Begun::Pan => m is Pan,
        Begun::Resize(id) => m == BegunModel::Resize(id),
        Begun::Grow(id) => m == BegunModel::Grow(id),
        Begun::Picked => m is Picked,
        Begun::Text => m is Text,
        Begun::Node(id, list) => m matches BegunModel::Node(n, s) && n == id && ids::lists(list@, s),
        Begun::Edge => m is Edge,
        Begun::NewNode => m is NewNode,
        Begun::Marquee(list, f) => m matches BegunModel::Marquee(s, n) && n == f && ids::lists(
            list@,
            s,
        ),
    }
}

/// The press is on the one node that the cursor is on and that is the whole
/// selection, and it has a label.
pub open spec fn on_it(g: GraphModel, id: u64) -> bool {
    !(g.has(id) && g.nodes[id].image is Some) && id == g.focus && g.edge_focus is None && g.selected
        == set![id]
}

/// What a press does to the map, and what it begins.
pub open spec fn pressed(e: EditorModel, p: Press) -> (EditorModel, BegunModel) {
    let g = e.graph;
    let b = g.browsing();
    if p.button == Button::Right || (p.button == Button::Left && p.control) {
        (e, BegunModel::Menu)
    } else if p.menu {
        (e, BegunModel::Closed)
    } else if p.button == Button::Middle {
        (e, BegunModel::Pan)
    } else {
        match p.hit {
            Hit::Grip(id) => (e.with(b), BegunModel::Resize(id)),
            Hit::Bubble(id) => (e.with(b), BegunModel::Grow(id)),
            Hit::Node(id) => if p.shift {
                (e.with(b.node_toggled(id)).sealed(), BegunModel::Picked)
            } else if p.platform {
                (e.with(branch_picked(b, id)).sealed(), BegunModel::Picked)
            } else if on_it(g, id) {
                (e.with(g.writing()).sealed(), BegunModel::Text)
            } else {
                let h = if b.selected.contains(id) {
                    b
                } else {
                    b.focused_on(id)
                };
                (e.with(h).sealed(), BegunModel::Node(id, h.selected))
            },
            Hit::Edge(id) => if g.edge_focus == Some(id) {
                (e.with(g.writing()).sealed(), BegunModel::Text)
            } else {
                (e.with(b.edge_focused(id)).sealed(), BegunModel::Edge)
            },
            Hit::Ground => {
                let h = (GraphModel { edge_focus: None, ..b }).caret_at_end();
                let k = if p.shift {
                    h
                } else {
                    GraphModel { selected: Set::empty(), ..h }
                };
                if p.clicks >= 2 {
                    (e.with(k), BegunModel::NewNode)
                } else {
                    (e.with(k), BegunModel::Marquee(k.selected, k.focus))
                }
            },
        }
    }
}

/// A map with a whole branch added to the selection.
pub open spec fn branch_picked(g: GraphModel, id: u64) -> GraphModel {
    if g.has(id) {
        (GraphModel { selected: g.selected.union(g.subtree(id)), ..g }).focus_kept(id)
    } else {
        g
    }
}

impl Editor {
    /// A press of the pointer: what it does to the map, and what it begins.
    pub fn press(&mut self, p: Press) -> (r: Begun)
        ensures
            final(self)@ == pressed(old(self)@, p).0,
            begins(r, pressed(old(self)@, p).1),
    {
        // A control-click is a right-click on some systems.
        if p.button == Button::Right || (p.button == Button::Left && p.control) {
            return Begun::Menu;
        }
        // Any other press closes an open menu and does nothing else.
        if p.menu {
            return Begun::Closed;
        }
        if p.button == Button::Middle {
            return Begun::Pan;
        }
        match p.hit {
            Hit::Grip(id) => {
                self.graph.leave_edit();
                Begun::Resize(id)
            },
            Hit::Bubble(id) => {
                self.graph.leave_edit();
                Begun::Grow(id)
            },
            Hit::Node(id) => self.press_node(p, id),
            Hit::Edge(id) => {
                if self.graph.focused_edge == Some(id) {
                    if !self.graph.is_editing() {
                        self.graph.enter_edit();
                    }
                    self.history.seal();
                    Begun::Text
                } else {
                    self.graph.leave_edit();
                    self.graph.focus_edge(id);
                    self.history.seal();
                    Begun::Edge
                }
            },
            Hit::Ground => {
                self.graph.leave_edit();
                self.graph.clear_edge_focus_only();
                let base = if p.shift {
                    self.graph.acting_on()
                } else {
                    self.graph.deselect_all();
                    let none: Vec<u64> = Vec::new();
                    assert(ids::lists(none@, Set::empty()));
                    none
                };
                if p.clicks >= 2 {
                    return Begun::NewNode;
                }
                Begun::Marquee(base, self.graph.focused_id)
            },
        }
    }

    fn press_node(&mut self, p: Press, id: u64) -> (r: Begun)
        requires
            p.button == Button::Left,
            !p.control,
            !p.menu,
            p.hit == Hit::Node(id),
        ensures
            final(self)@ == pressed(old(self)@, p).0,
            begins(r, pressed(old(self)@, p).1),
    {
        // Adding to the selection never falls through into a drag.
        if p.shift {
            self.graph.leave_edit();
            self.graph.toggle_node_selected(id);
            self.history.seal();
            return Begun::Picked;
        }
        if p.platform {
            self.graph.leave_edit();
            self.graph.select_subtree_of(id);
            self.history.seal();
            return Begun::Picked;
        }
        // A press on the one node you are on reaches past the ring for the text.
        // A picture has no label to type into.
        let picture = match self.graph.nodes.get(&id) {
            Some(n) => {
                assert(n@ == self@.graph.nodes[id]);
                n.image.is_some()
            },
            None => false,
        };
        assert(self@.graph.has(id) <==> self.graph.nodes@.dom().contains(id));
        let alone = self.only(id);
        if !picture && id == self.graph.focused_id && self.graph.focused_edge.is_none() && alone {
            if !self.graph.is_editing() {
                self.graph.enter_edit();
            }
            self.history.seal();
            return Begun::Text;
        }
        self.graph.leave_edit();
        if !self.graph.is_node_selected(id) {
            self.graph.focus(id);
        }
        self.history.seal();
        let list = self.graph.acting_on();
        Begun::Node(id, list)
    }

    fn only(&self, id: u64) -> (r: bool)
        ensures
            r == (self@.graph.selected == set![id]),
    {
        let picked = self.graph.acting_on();
        let r = picked.len() == 1 && picked[0] == id;
        proof {
            let s = self@.graph.selected;
            if r {
                assert(s =~= set![id]) by {
                    assert forall|x: u64| s.contains(x) <==> x == id by {
                        assert(picked@.contains(x) <==> s.contains(x));
                        if x == id {
                            assert(picked@[0] == id);
                        }
                    }
                }
            } else if s == set![id] {
                assert(s.contains(id));
                assert(picked@.contains(id));
                let k = choose|k: int| 0 <= k < picked@.len() && picked@[k] == id;
                if picked@.len() > 1 {
                    let j = if k == 0 {
                        1int
                    } else {
                        0int
                    };
                    assert(picked@.contains(picked@[j]));
                    assert(s.contains(picked@[j]));
                    assert(picked@[j] == id);
                    if j < k {
                        assert(picked@[j] < picked@[k]);
                    } else {
                        assert(picked@[k] < picked@[j]);
                    }
                }
            }
        }
        r
    }

    /// A caret that was placed, widened by a repeated press: two take the word,
    /// three or more the label.
    pub fn widen(&mut self, clicks: usize)
        ensures
            clicks < 2 ==> final(self)@ == old(self)@,
            clicks == 2 ==> final(self)@ == old(self)@.with(word_picked(old(self)@.graph)),
            clicks >= 3 ==> final(self)@ == old(self)@.with(all_picked(old(self)@.graph)),
    {
        if clicks == 2 {
            let at: usize = self.graph.caret;
            self.graph.select_word_at(at);
        } else if clicks >= 3 {
            self.graph.select_all();
        }
    }
}

/// A map with the word at the caret selected, if there is one.
pub open spec fn word_picked(g: GraphModel) -> GraphModel {
    let (a, b) = cursor::word_range(g.active_text(), g.caret as int);
    if a == b {
        g
    } else {
        GraphModel { anchor: Some(a as usize), caret: b as usize, ..g }
    }
}

/// A map whose label that is typed into is selected as a whole.
pub open spec fn all_picked(g: GraphModel) -> GraphModel {
    let n = g.active_bytes().len();
    if n == 0 {
        g
    } else {
        GraphModel { anchor: Some(0), caret: n as usize, ..g }
    }
}

// ---------------------------------------------------------------------------
// Dragging
// ---------------------------------------------------------------------------

/// A gesture that is under way, as far as giving it up goes.
pub enum Drag {
    /// A move. `depth` is how many steps could be undone right after the move
    /// was noted.
    Node { moved: bool, depth: usize },
    /// A picture that is made larger or smaller, and the size it had.
    Resize { id: u64, w: Coord, h: Coord, moved: bool, depth: usize },
    /// A rubber band, what was selected before it, and where the cursor was.
    Marquee { base: Vec<u64>, focus: u64 },
    /// Anything else.
    Other,
}

/// The history without its last step, if that is still the one at `depth`.
pub open spec fn taken_back(h: HistoryModel, depth: usize) -> HistoryModel {
    if h.past.len() == depth && h.past.len() > 0 {
        HistoryModel { past: h.past.drop_last(), last: None, ..h }
    } else {
        h
    }
}

/// A map where the picture of a node has its old size.
pub open spec fn resized(g: GraphModel, id: u64, w: Coord, h: Coord) -> GraphModel {
    if g.has(id) && g.nodes[id].image is Some {
        editor::with_picture(g, id, ImageModel { w, h, ..g.nodes[id].image->0 })
    } else {
        g
    }
}

/// What giving a gesture up comes to.
pub open spec fn given_up(e: EditorModel, d: Drag) -> EditorModel {
    match d {
        Drag::Node { moved, depth } => if moved && e.history.past.len() == depth && depth > 0 {
            EditorModel { graph: e.history.past.last(), history: taken_back(e.history, depth) }
        } else {
            e
        },
        Drag::Resize { id, w, h, moved, depth } => if moved {
            EditorModel {
                graph: resized(e.graph, id, w, h),
                history: taken_back(e.history, depth),
            }.sealed()
        } else {
            e
        },
        Drag::Marquee { base, focus } => {
            let g = e.graph.selection_set(base@.to_set());
            e.with(
                if g.has(focus) {
                    (GraphModel { focus, ..g }).caret_at_end()
                } else {
                    g
                },
            )
        },
        Drag::Other => e,
    }
}

impl Editor {
    /// Notes the map before a move, and says how many steps can be undone then.
    pub fn begin_move(&mut self) -> (r: usize)
        ensures
            final(self)@ == old(self)@.recorded(old(self)@.graph.move_tag()),
            r == final(self)@.history.past.len(),
    {
        let tag = self.move_tag();
        self.edit(tag);
        self.history.depth()
    }

    /// Notes the map before a picture changes its size.
    pub fn begin_resize(&mut self, id: u64) -> (r: usize)
        ensures
            final(self)@ == old(self)@.recorded(Tag::Move(id)),
            r == final(self)@.history.past.len(),
    {
        self.edit(Tag::Move(id));
        self.history.depth()
    }

    /// Gives a gesture up: the map is as it was before. What else was noted since
    /// is not taken back.
    pub fn abort(&mut self, d: Drag)
        ensures
            final(self)@ == given_up(old(self)@, d),
    {
        match d {
            Drag::Node { moved, depth } => {
                if moved && self.history.depth() == depth {
                    match self.history.discard_last() {
                        Some(g) => {
                            self.graph = g;
                        },
                        None => {},
                    }
                }
            },
            Drag::Resize { id, w, h, moved, depth } => {
                if moved {
                    let name: Option<String> = match self.graph.nodes.get(&id) {
                        Some(n) => {
                            assert(n@ == self@.graph.nodes[id]);
                            match &n.image {
                                Some(i) => Some(i.name.clone()),
                                None => None,
                            }
                        },
                        None => None,
                    };
                    assert(self@.graph.has(id) <==> self.graph.nodes@.dom().contains(id));
                    if let Some(name) = name {
                        self.set_picture(id, name.as_str(), w, h);
                    }
                    if self.history.depth() == depth {
                        self.history.discard_last();
                    }
                    self.history.seal();
                }
            },
            Drag::Marquee { base, focus } => {
                self.graph.set_node_selection(&base);
                self.graph.set_cursor(focus);
            },
            Drag::Other => {},
        }
    }

    /// The rubber band covers `hits`: they are selected with what it adds to. A
    /// band over nothing leaves the cursor where it was.
    pub fn band(&mut self, base: &Vec<u64>, hits: &Vec<u64>, focus: u64)
        ensures
            final(self)@ == old(self)@.with(
                banded(old(self)@.graph, base@.to_set().union(hits@.to_set()), focus),
            ),
    {
        let mut all: Vec<u64> = Vec::new();
        let mut i: usize = 0;
        while i < base.len()
            invariant
                i <= base@.len(),
                all@ == base@.take(i as int),
            decreases base@.len() - i,
        {
            all.push(base[i]);
            assert(all@ =~= base@.take(i + 1));
            i = i + 1;
        }
        assert(base@.take(i as int) =~= base@);
        let mut k: usize = 0;
        while k < hits.len()
            invariant
                k <= hits@.len(),
                all@ == base@ + hits@.take(k as int),
            decreases hits@.len() - k,
        {
            all.push(hits[k]);
            assert(all@ =~= base@ + hits@.take(k + 1));
            k = k + 1;
        }
        assert(hits@.take(k as int) =~= hits@);
        assert(all@.to_set() =~= base@.to_set().union(hits@.to_set())) by {
            assert forall|x: u64| all@.to_set().contains(x) <==> base@.to_set().union(
                hits@.to_set(),
            ).contains(x) by {
                if base@.contains(x) {
                    let j = choose|j: int| 0 <= j < base@.len() && base@[j] == x;
                    assert(all@[j] == x);
                }
                if hits@.contains(x) {
                    let j = choose|j: int| 0 <= j < hits@.len() && hits@[j] == x;
                    assert(all@[base@.len() + j] == x);
                }
                if all@.contains(x) {
                    let j = choose|j: int| 0 <= j < all@.len() && all@[j] == x;
                    if j < base@.len() {
                        assert(base@[j] == x);
                    } else {
                        assert(hits@[j - base@.len()] == x);
                    }
                }
            }
        }
        self.graph.set_node_selection(&all);
        let picked = self.graph.acting_on();
        if picked.len() == 0 {
            assert(self@.graph.selected =~= Set::empty()) by {
                assert forall|x: u64| !self@.graph.selected.contains(x) by {
                    assert(!picked@.contains(x));
                }
            }
            self.graph.set_cursor(focus);
        } else {
            assert(self@.graph.selected.contains(picked@[0])) by {
                assert(picked@.contains(picked@[0]));
            }
        }
    }

    /// Where a drop may land: `under` is what the pointer is over, and every
    /// branch that is carried must be allowed to hang there.
    pub fn drop_target(&self, carried: &Vec<u64>, under: Option<u64>) -> (r: Option<u64>)
        ensures
            match under {
                Some(t) => r == (if forall|id: u64| #[trigger]
                    carried@.contains(id) && !self@.graph.inside(id, carried@.to_set())
                        ==> self@.graph.may_hang(id, t) {
                    Some(t)
                } else {
                    None
                }),
                None => r is None,
            },
    {
        let t: u64 = match under {
            Some(t) => t,
            None => {
                return None;
            },
        };
        let roots = self.graph.reparent_roots(carried);
        let ghost keep = |id: u64| !self@.graph.inside(id, carried@.to_set());
        let ghost kept = carried@.filter(keep);
        proof {
            lemma_kept(roots@, kept, carried@, keep);
        }
        let mut i: usize = 0;
        while i < roots.len()
            invariant
                i <= roots@.len(),
                under == Some(t),
                keep == (|id: u64| !self@.graph.inside(id, carried@.to_set())),
                forall|x: u64| #[trigger] roots@.contains(x) <==> carried@.contains(x) && keep(x),
                forall|k: int| 0 <= k < i ==> self@.graph.may_hang(#[trigger] roots@[k], t),
            decreases roots@.len() - i,
        {
            if !self.graph.can_reparent(roots[i], t) {
                assert(roots@.contains(roots@[i as int]));
                assert(carried@.contains(roots@[i as int]) && !self@.graph.inside(
                    roots@[i as int],
                    carried@.to_set(),
                ));
                return None;
            }
            i = i + 1;
        }
        assert forall|id: u64| #[trigger]
            carried@.contains(id) && !self@.graph.inside(id, carried@.to_set()) implies self@.graph.may_hang(
            id,
            t,
        ) by {
            assert(keep(id));
            assert(roots@.contains(id));
            let k = choose|k: int| 0 <= k < roots@.len() && roots@[k] == id;
            assert(self@.graph.may_hang(roots@[k], t));
        }
        Some(t)
    }

    /// Cuts the branches that were carried off from where they hung, and ends the
    /// gesture. Says how many came loose.
    pub fn drop_loose(&mut self, carried: &Vec<u64>) -> (r: usize)
        ensures
            exists|roots: Seq<u64>| #[trigger]
                roots_of(old(self)@.graph, carried@, roots) && r == loosened(
                    old(self)@.graph,
                    roots,
                ).1 && final(self)@ == old(self)@.with(
                    loosened(old(self)@.graph, roots).0,
                ).sealed(),
    {
        let roots = self.graph.reparent_roots(carried);
        let ghost g = self@.graph;
        let ghost h = self@.history;
        assert(roots_of(g, carried@, roots@));
        let count: usize = roots.len();
        let mut n: usize = 0;
        let mut i: usize = 0;
        assert(roots@.take(0) =~= seq![]);
        while i < count
            invariant
                i <= count,
                count == roots@.len(),
                n <= i,
                self@.history == h,
                (self@.graph, n as nat) == loosened(g, roots@.take(i as int)),
            decreases count - i,
        {
            assert(roots@.take(i + 1).drop_last() =~= roots@.take(i as int));
            if self.graph.detach(roots[i]) {
                n = n + 1;
            }
            i = i + 1;
        }
        assert(roots@.take(count as int) =~= roots@);
        self.history.seal();
        n
    }

    /// Hangs the branches that were carried under `target`, each where `land` says
    /// it settles, and ends the gesture. Says how many were hung there.
    pub fn drop_onto<
        L: Fn(&Graph, u64) -> (Coord, Coord),
        C: Fn(Coord, Coord, Coord) -> Coord,
    >(&mut self, carried: &Vec<u64>, target: u64, land: &L, carry: &C) -> (r: usize)
        requires
            forall|g: &Graph, id: u64| #[trigger] land.requires((g, id)),
            forall|a: Coord, b: Coord, c: Coord| #[trigger] carry.requires((a, b, c)),
        ensures
            exists|roots: Seq<u64>, run: Seq<GraphModel>|
                roots_of(old(self)@.graph, carried@, roots) && #[trigger] rehung(
                    run,
                    roots,
                    target,
                    land,
                    carry,
                ) && run[0] == old(self)@.graph && final(self)@ == old(self)@.with(
                    run.last(),
                ).sealed() && r == hung_count(run, roots, target, roots.len()),
    {
        let roots = self.graph.reparent_roots(carried);
        let ghost g = self@.graph;
        let ghost h = self@.history;
        assert(roots_of(g, carried@, roots@));
        let count: usize = roots.len();
        let mut n: usize = 0;
        let mut i: usize = 0;
        let ghost mut run: Seq<GraphModel> = seq![g];
        while i < count
            invariant
                i <= count,
                count == roots@.len(),
                n <= i,
                self@.history == h,
                run.len() == i + 1,
                run[0] == g,
                run.last() == self@.graph,
                forall|x: &Graph, id: u64| #[trigger] land.requires((x, id)),
                forall|a: Coord, b: Coord, c: Coord| #[trigger] carry.requires((a, b, c)),
                forall|k: int|
                    0 <= k < i ==> #[trigger] hung_step(
                        run[k],
                        run[k + 1],
                        roots@[k],
                        target,
                        land,
                        carry,
                    ),
                n == hung_count(run, roots@, target, i as nat),
            decreases count - i,
        {
            let id: u64 = roots[i];
            let ghost before = self@.graph;
            let ghost was = run;
            if self.graph.reparent(id, target) {
                let ghost hung = self.graph;
                let (x, y) = land(&self.graph, id);
                self.graph.settle_after_drop(id, x, y, carry);
                n = n + 1;
                assert(land.ensures((&hung, id), (x, y)));
                assert(settled_at(hung@, self@.graph, id, x, y, carry));
                assert(lands(&hung, self@.graph, id, land, carry));
            }
            proof {
                run = run.push(self@.graph);
                assert(hung_step(run[i as int], run[i + 1], roots@[i as int], target, land, carry));
                assert forall|k: int| 0 <= k < i implies #[trigger] hung_step(
                    run[k],
                    run[k + 1],
                    roots@[k],
                    target,
                    land,
                    carry,
                ) by {
                    assert(hung_step(was[k], was[k + 1], roots@[k], target, land, carry));
                }
                lemma_hung_count(was, run, roots@, target, i as nat);
            }
            i = i + 1;
        }
        assert(rehung(run, roots@, target, land, carry));
        self.history.seal();
        n
    }
}

/// A map with exactly `picked` selected; where nothing of it is there, the cursor
/// is on `focus`.
pub open spec fn banded(g: GraphModel, picked: Set<u64>, focus: u64) -> GraphModel {
    let h = g.selection_set(picked);
    if h.selected == Set::<u64>::empty() && h.has(focus) {
        (GraphModel { focus, ..h }).caret_at_end()
    } else {
        h
    }
}

/// `roots` holds the branches of `carried`, in ascending order: what is carried
/// and not inside anything else that is.
pub open spec fn roots_of(g: GraphModel, carried: Seq<u64>, roots: Seq<u64>) -> bool {
    &&& roots.to_multiset() == carried.filter(
        |id: u64| !g.inside(id, carried.to_set()),
    ).to_multiset()
    &&& forall|i: int, j: int| 0 <= i < j < roots.len() ==> roots[i] <= roots[j]
}

/// A map with branches cut loose one after the other, and how many were hung
/// anywhere.
pub open spec fn loosened(g: GraphModel, roots: Seq<u64>) -> (GraphModel, nat)
    decreases roots.len(),
{
    if roots.len() == 0 {
        (g, 0)
    } else {
        let (h, n) = loosened(g, roots.drop_last());
        let id = roots.last();
        if h.parent_of(id) is Some {
            (h.unlinked(id).hung(id, None), n + 1)
        } else {
            (h, n)
        }
    }
}

/// `after` is `before` with the branch of `id` carried to a place, unless it is
/// there.
pub open spec fn settled_at<C: Fn(Coord, Coord, Coord) -> Coord>(
    before: GraphModel,
    after: GraphModel,
    id: u64,
    x: Coord,
    y: Coord,
    carry: &C,
) -> bool {
    let n = before.nodes[id];
    if before.has(id) && !(x.same(n.x) && y.same(n.y)) {
        spatial::carried_along(before, after, before.subtree(id), (n.x, n.y), (x, y), carry)
    } else {
        after == before
    }
}

/// `after` is `hung` with the branch of `id` where `land` says it settles.
pub open spec fn lands<
    L: Fn(&Graph, u64) -> (Coord, Coord),
    C: Fn(Coord, Coord, Coord) -> Coord,
>(hung: &Graph, after: GraphModel, id: u64, land: &L, carry: &C) -> bool {
    exists|x: Coord, y: Coord| #[trigger]
        land.ensures((hung, id), (x, y)) && settled_at(hung@, after, id, x, y, carry)
}

/// `after` is `before` with the branch of `id` hung under `target` and settled,
/// if it may hang there.
pub open spec fn hung_step<
    L: Fn(&Graph, u64) -> (Coord, Coord),
    C: Fn(Coord, Coord, Coord) -> Coord,
>(before: GraphModel, after: GraphModel, id: u64, target: u64, land: &L, carry: &C) -> bool {
    if before.may_hang(id, target) {
        exists|hung: Graph|
            hung@ == before.reparented(id, target) && #[trigger] lands(
                &hung,
                after,
                id,
                land,
                carry,
            )
    } else {
        after == before
    }
}

/// `run` holds the map before and after each of `roots` is hung under `target`.
pub open spec fn rehung<
    L: Fn(&Graph, u64) -> (Coord, Coord),
    C: Fn(Coord, Coord, Coord) -> Coord,
>(run: Seq<GraphModel>, roots: Seq<u64>, target: u64, land: &L, carry: &C) -> bool {
    &&& run.len() == roots.len() + 1
    &&& forall|k: int|
        0 <= k < roots.len() ==> #[trigger] hung_step(
            run[k],
            run[k + 1],
            roots[k],
            target,
            land,
            carry,
        )
}

/// How many of the first `n` of `roots` may hang under `target` when their turn
/// comes.
pub open spec fn hung_count(run: Seq<GraphModel>, roots: Seq<u64>, target: u64, n: nat) -> nat
    decreases n,
{
    if n == 0 {
        0
    } else {
        let k = n - 1;
        hung_count(run, roots, target, k as nat) + if run[k].may_hang(roots[k], target) {
            1nat
        } else {
            0
        }
    }
}

proof fn lemma_hung_count(
    a: Seq<GraphModel>,
    b: Seq<GraphModel>,
    roots: Seq<u64>,
    target: u64,
    n: nat,
)
    requires
        n < a.len(),
        a.len() <= b.len(),
        forall|k: int| 0 <= k < a.len() ==> #[trigger] a[k] == b[k],
    ensures
        hung_count(a, roots, target, n) == hung_count(b, roots, target, n),
    decreases n,
{
    if n > 0 {
        lemma_hung_count(a, b, roots, target, (n - 1) as nat);
        assert(a[n - 1] == b[n - 1]);
    }
}

proof fn lemma_kept(roots: Seq<u64>, kept: Seq<u64>, carried: Seq<u64>, keep: spec_fn(u64) -> bool)
    requires
        kept == carried.filter(keep),
        roots.to_multiset() == kept.to_multiset(),
    ensures
        forall|x: u64| #[trigger] roots.contains(x) <==> carried.contains(x) && keep(x),
{
    broadcast use vstd::seq_lib::group_to_multiset_ensures;
    assert forall|x: u64| #[trigger] roots.contains(x) <==> carried.contains(x) && keep(x) by {
        assert(roots.contains(x) <==> roots.to_multiset().count(x) > 0);
        assert(kept.contains(x) <==> kept.to_multiset().count(x) > 0);
        lemma_filtered(carried, keep, x);
    }
}

proof fn lemma_filtered(carried: Seq<u64>, keep: spec_fn(u64) -> bool, x: u64)
    ensures
        carried.filter(keep).contains(x) <==> carried.contains(x) && keep(x),
    decreases carried.len(),
{
    reveal(Seq::filter);
    if carried.len() > 0 {
        let rest = carried.drop_last();
        lemma_filtered(rest, keep, x);
        let last = carried.last();
        let f = rest.filter(keep);
        if carried.contains(x) {
            let k = choose|k: int| 0 <= k < carried.len() && carried[k] == x;
            if k < rest.len() {
                assert(rest[k] == x);
            }
        }
        if rest.contains(x) {
            let k = choose|k: int| 0 <= k < rest.len() && rest[k] == x;
            assert(carried[k] == x);
        }
        assert(carried[carried.len() - 1] == last);
        if keep(last) {
            assert(carried.filter(keep) == f.push(last));
            assert(f.push(last)[f.len() as int] == last);
            if f.contains(x) {
                let k = choose|k: int| 0 <= k < f.len() && f[k] == x;
                assert(f.push(last)[k] == x);
            }
            if f.push(last).contains(x) && x != last {
                let k = choose|k: int| 0 <= k < f.push(last).len() && f.push(last)[k] == x;
                assert(f[k] == x);
            }
        }
    }
}

// ---------------------------------------------------------------------------
// Escape
// ---------------------------------------------------------------------------

/// What there is to let go of.
#[derive(Clone, Copy, Debug, PartialEq, Eq, Structural)]
pub struct Held {
    pub menu: bool,
    pub find: bool,
    pub help: bool,
    pub drag: bool,
}

/// A rung of the ladder that Escape climbs.
#[derive(Clone, Copy, Debug, PartialEq, Eq, Structural)]
pub enum Rung {
    /// The context menu is to be closed.
    Menu,
    /// The find field is to be closed.
    Find,
    /// The shortcut panel is to be closed.
    Help,
    /// The gesture under way is to be given up.
    Drag,
    /// The label is left.
    Label,
    /// The selection is let go.
    Selection,
    /// The edge is left.
    Edge,
    /// The cursor is on the parent.
    Parent,
    /// There is nothing left to let go of.
    Top,
}

/// What Escape does, always climbing outwards from wherever one is deepest.
pub open spec fn escaped(e: EditorModel, held: Held) -> (EditorModel, Rung) {
    let g = e.graph;
    if held.menu {
        (e, Rung::Menu)
    } else if held.find {
        (e, Rung::Find)
    } else if held.help {
        (e, Rung::Help)
    } else if held.drag {
        (e, Rung::Drag)
    } else if g.mode == Mode::Edit {
        (e.with(g.browsing()).sealed(), Rung::Label)
    } else if g.selected != Set::<u64>::empty() {
        (e.with(GraphModel { selected: Set::empty(), ..g }), Rung::Selection)
    } else if g.edge_focus is Some {
        (e.with(GraphModel { selected: Set::empty(), ..g }.edge_left()).sealed(), Rung::Edge)
    } else {
        let h = GraphModel { selected: Set::empty(), edge_focus: None, ..g };
        match h.parent_of(h.focus) {
            Some(p) => (e.with(h.focused_on(p)).sealed(), Rung::Parent),
            None => (e.with(h), Rung::Top),
        }
    }
}

impl Editor {
    /// Escape: one rung up. What is not the map's to let go of is left to the
    /// caller.
    pub fn escape(&mut self, held: Held) -> (r: Rung)
        ensures
            (final(self)@, r) == escaped(old(self)@, held),
    {
        if held.menu {
            return Rung::Menu;
        }
        if held.find {
            return Rung::Find;
        }
        if held.help {
            return Rung::Help;
        }
        if held.drag {
            return Rung::Drag;
        }
        if self.graph.is_editing() {
            self.graph.leave_edit();
            self.history.seal();
            return Rung::Label;
        }
        if self.graph.deselect_all() {
            return Rung::Selection;
        }
        if self.graph.focused_edge.is_some() {
            self.graph.clear_edge_focus();
            self.history.seal();
            return Rung::Edge;
        }
        if self.graph.focus_parent() {
            self.history.seal();
            Rung::Parent
        } else {
            Rung::Top
        }
    }
}

// ---------------------------------------------------------------------------
// Laws
// ---------------------------------------------------------------------------

/// A move that is given up leaves the map and its history as they were before it
/// was begun, but that nothing can be done again and that the next change is a
/// step of its own.
pub proof fn giving_up_a_move_undoes_it(e: EditorModel, moved: GraphModel, depth: usize)
    requires
        !e.history.continues(e.graph.move_tag()),
        e.history.past.len() < crate::history::CAP,
        depth == e.history.past.len() + 1,
    ensures
        ({
            let noted = e.recorded(e.graph.move_tag()).with(moved);
            let back = given_up(noted, Drag::Node { moved: true, depth });
            &&& back.graph == e.graph
            &&& back.history.past == e.history.past
            &&& back.history.last is None
        }),
{
    let noted = e.recorded(e.graph.move_tag()).with(moved);
    assert(noted.history.past =~= e.history.past.push(e.graph));
    let back = given_up(noted, Drag::Node { moved: true, depth });
    assert(back.history.past =~= e.history.past);
}

/// Escape has something to let go of as long as anything is held, selected, typed
/// into or looked at.
pub proof fn escape_ends_at_the_top(e: EditorModel, held: Held)
    requires
        escaped(e, held).1 == Rung::Top,
    ensures
        !held.menu && !held.find && !held.help && !held.drag,
        e.graph.mode == Mode::Browse,
        e.graph.selected == Set::<u64>::empty(),
        e.graph.edge_focus is None,
        e.graph.parent_of(e.graph.focus) is None,
{
}

} // verus!
