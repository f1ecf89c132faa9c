//! The map with its history: what each verb does to the two. Every change can be
//! undone, and a verb that changes nothing leaves no step behind.

use vstd::prelude::*;
use crate::coord::Coord;
use crate::graph::clip;
use crate::graph::clip::Clip;
use crate::graph::model::{GraphModel, ImageModel, NodeModel};
use crate::graph::outline;
use crate::graph::reorder;
use crate::graph::spatial;
use crate::graph::structure;
use crate::graph::tidy;
use crate::graph::{Direction, Graph, Mode, NodeImage, Selection};
use crate::history::{History, HistoryModel, Tag};
use crate::ids;
use crate::text;

pub mod sound;
pub mod travel;
pub mod writing;

verus! {

broadcast use {vstd::std_specs::hash::group_hash_axioms, vstd::std_specs::btree::group_btree_axioms};

/// The map and its history.
pub struct Editor {
    pub graph: Graph,
    pub history: History,
}

#[verifier::ext_equal]
pub struct EditorModel {
    pub graph: GraphModel,
    pub history: HistoryModel,
}

impl View for Editor {
    type V = EditorModel;

    open spec fn view(&self) -> EditorModel {
        EditorModel { graph: self.graph@, history: self.history@ }
    }
}

// ---------------------------------------------------------------------------
// Tags
// ---------------------------------------------------------------------------

/// A number for a list of ids: it takes in each of them and is multiplied by a
/// prime.
pub open spec fn folded(picked: Seq<u64>) -> u64
    decreases picked.len(),
{
    if picked.len() == 0 {
        0xcbf29ce484222325
    } else {
        (folded(picked.drop_last()) ^ picked.last()).wrapping_mul(0x100000001b3)
    }
}

impl GraphModel {
    /// The tag of a move, keyed on what would move rather than on the cursor.
    pub open spec fn move_tag(self) -> Tag {
        Tag::Move(folded(ids::listed(self.selected)))
    }

    /// The tag of typing: nodes and edges are told apart.
    pub open spec fn text_tag(self) -> Tag {
        match self.selection() {
            Selection::Edge(id) => Tag::EdgeText(id),
            Selection::Node(id) => Tag::Text(id),
        }
    }

    /// The map with the cursor's node picked if nothing is and no edge is looked
    /// at.
    pub open spec fn grasped(self) -> GraphModel {
        if self.selected == Set::<u64>::empty() && self.has(self.focus) && self.edge_focus is None {
            self.focused_on(self.focus)
        } else {
            self
        }
    }

    /// The map out of typing.
    pub open spec fn browsing(self) -> GraphModel {
        GraphModel { mode: Mode::Browse, anchor: None, ..self }
    }
}

impl EditorModel {
    /// The editor about to change its map.
    pub open spec fn recorded(self, tag: Tag) -> EditorModel {
        EditorModel { history: self.history.recorded(self.graph, tag), ..self }
    }

    /// The editor about to begin another step.
    pub open spec fn sealed(self) -> EditorModel {
        EditorModel { history: HistoryModel { last: None, ..self.history }, ..self }
    }

    /// The editor with another map.
    pub open spec fn with(self, graph: GraphModel) -> EditorModel {
        EditorModel { graph, ..self }
    }
}

/// What a verb came to that acts on the selection.
#[derive(Clone, Copy, Debug, PartialEq, Eq, Structural)]
pub enum Deleted {
    /// An edge was looked at, and the link it draws is cut.
    Cut,
    /// An edge was looked at that draws no link.
    NoLink,
    Nothing,
    RootStays,
    /// So many nodes are gone.
    Gone(usize),
}

/// What giving the selection a colour came to.
#[derive(Clone, Copy, Debug, PartialEq, Eq, Structural)]
pub enum Coloured {
    Nothing,
    /// It has that colour.
    Same,
    Changed,
}

/// What folding came to.
#[derive(Clone, Copy, Debug, PartialEq, Eq, Structural)]
pub enum Fold {
    NothingBelow,
    Folded(usize),
    Unfolded,
}

impl Editor {
    pub fn new(graph: Graph) -> (r: Editor)
        ensures
            r@.graph == graph@,
            r@.history == (HistoryModel { past: seq![], future: seq![], last: None }),
    {
        Editor { graph, history: History::new() }
    }

    /// Notes the map as it is, for undo. To be called before a change.
    pub fn edit(&mut self, tag: Tag)
        ensures
            final(self)@ == old(self)@.recorded(tag),
            old(self)@.history.bounded() ==> final(self)@.history.bounded(),
    {
        self.history.record(&self.graph, tag);
    }

    pub fn move_tag(&self) -> (r: Tag)
        ensures
            r == self@.graph.move_tag(),
    {
        let picked = self.graph.acting_on();
        proof {
            ids::lemma_listed(picked@, self@.graph.selected);
        }
        let n: usize = picked.len();
        let mut h: u64 = 0xcbf29ce484222325;
        let mut i: usize = 0;
        assert(picked@.take(0) =~= seq![]);
        while i < n
            invariant
                i <= n,
                n == picked@.len(),
                h == folded(picked@.take(i as int)),
            decreases n - i,
        {
            assert(picked@.take(i + 1).drop_last() =~= picked@.take(i as int));
            h = (h ^ picked[i]).wrapping_mul(0x100000001b3);
            i = i + 1;
        }
        assert(picked@.take(n as int) =~= picked@);
        Tag::Move(h)
    }

    pub fn text_tag(&self) -> (r: Tag)
        ensures
            r == self@.graph.text_tag(),
    {
        match self.graph.selection() {
            Selection::Edge(id) => Tag::EdgeText(id),
            Selection::Node(id) => Tag::Text(id),
        }
    }

    // ---- history -----------------------------------------------------------

    /// Takes the last step back. Says whether there was one.
    pub fn undo(&mut self) -> (r: bool)
        ensures
            r == (old(self)@.history.past.len() > 0),
            final(self)@ == (if r {
                EditorModel {
                    graph: old(self)@.history.past.last(),
                    history: old(self)@.history.undone(old(self)@.graph),
                }
            } else {
                old(self)@
            }),
            old(self)@.history.bounded() ==> final(self)@.history.bounded(),
    {
        match self.history.undo(&self.graph) {
            Some(g) => {
                self.graph = g;
                true
            },
            None => false,
        }
    }

    /// Does the last step that was taken back again. Says whether there was one.
    pub fn redo(&mut self) -> (r: bool)
        ensures
            r == (old(self)@.history.future.len() > 0),
            final(self)@ == (if r {
                EditorModel {
                    graph: old(self)@.history.future.last(),
                    history: old(self)@.history.redone(old(self)@.graph),
                }
            } else {
                old(self)@
            }),
            old(self)@.history.bounded() ==> final(self)@.history.bounded(),
    {
        match self.history.redo(&self.graph) {
            Some(g) => {
                self.graph = g;
                true
            },
            None => false,
        }
    }

    // ---- growing -----------------------------------------------------------

    /// A child of the cursor's node, in a direction.
    pub fn create<P: Fn(&Graph, u64, Direction) -> (Coord, Coord)>(
        &mut self,
        direction: Direction,
        place: &P,
    ) -> (r: Option<u64>)
        requires
            forall|g: &Graph, p: u64, d: Direction| #[trigger] place.requires((g, p, d)),
        ensures
            final(self)@.history == old(self)@.recorded(Tag::Structure).history,
            exists|from: Graph|
                from@ == old(self)@.graph.edge_left() && #[trigger] structure::made_child(
                    place,
                    &from,
                    from@.focus,
                    direction,
                    ""@,
                    r,
                    final(self)@.graph,
                ),
    {
        self.edit(Tag::Structure);
        self.graph.clear_edge_focus();
        let ghost from = self.graph;
        let r = self.graph.create_from_focused(direction, "", place);
        assert(structure::made_child(
            place,
            &from,
            from@.focus,
            direction,
            ""@,
            r,
            self@.graph,
        ));
        r
    }

    /// A child of the cursor's node, whether it is being typed into or not.
    pub fn create_child<P: Fn(&Graph, u64, Direction) -> (Coord, Coord)>(&mut self, place: &P) -> (r:
        Option<u64>)
        requires
            forall|g: &Graph, p: u64, d: Direction| #[trigger] place.requires((g, p, d)),
        ensures
            final(self)@.history == old(self)@.with(old(self)@.graph.browsing()).recorded(
                Tag::Structure,
            ).history,
            exists|from: Graph|
                from@ == old(self)@.graph.browsing().edge_left() && #[trigger] structure::made_child(
                    place,
                    &from,
                    from@.focus,
                    Direction::Right,
                    ""@,
                    r,
                    final(self)@.graph,
                ),
    {
        self.graph.leave_edit();
        self.create(Direction::Right, place)
    }

    /// A node beside the cursor's, under the same parent.
    pub fn create_sibling<P: Fn(&Graph, u64, Direction) -> (Coord, Coord)>(&mut self, place: &P) -> (r:
        Option<u64>)
        requires
            forall|g: &Graph, p: u64, d: Direction| #[trigger] place.requires((g, p, d)),
        ensures
            final(self)@.history == old(self)@.with(old(self)@.graph.browsing()).recorded(
                Tag::Structure,
            ).history,
            exists|from: Graph|
                from@ == (GraphModel {
                    edge_focus: None,
                    ..old(self)@.graph.browsing()
                }).caret_at_end() && #[trigger] beside(place, &from, r, final(self)@.graph),
    {
        self.graph.leave_edit();
        self.edit(Tag::Structure);
        self.graph.clear_edge_focus_only();
        let ghost from = self.graph;
        let r = self.graph.create_sibling("", place);
        assert(beside(place, &from, r, self@.graph));
        r
    }

    /// A node on its own at a place. Nothing is noted if there are no ids left.
    pub fn new_node_at(&mut self, x: Coord, y: Coord) -> (r: bool)
        ensures
            ({
                let (made, g) = old(self)@.graph.free_created(x, y);
                &&& r == (made is Some)
                &&& final(self)@ == (if r {
                    old(self)@.recorded(Tag::Structure).with(g)
                } else {
                    old(self)@
                })
            }),
    {
        let mut next = self.graph.clone();
        match next.create_free_node(x, y) {
            Some(_) => {
                self.edit(Tag::Structure);
                self.graph = next;
                true
            },
            None => false,
        }
    }

    /// A child of `from` where a drag off its ring was let go, with the cursor on
    /// it. Nothing is noted if there are no ids left.
    pub fn grow_at(&mut self, from: u64, x: Coord, y: Coord) -> (r: bool)
        ensures
            ({
                let (made, g) = if old(self)@.graph.has(from) {
                    old(self)@.graph.child_created(from, ""@, x, y)
                } else {
                    (None, old(self)@.graph)
                };
                match made {
                    Some(id) => r && final(self)@ == old(self)@.recorded(Tag::Structure).with(
                        g.focused_on(id),
                    ),
                    None => !r && final(self)@ == old(self)@,
                }
            }),
    {
        let mut next = self.graph.clone();
        match next.create_child_at(from, x, y, "") {
            Some(id) => {
                self.edit(Tag::Structure);
                next.focus(id);
                self.graph = next;
                true
            },
            None => false,
        }
    }

    /// Folds or unfolds the branch of the cursor's node.
    pub fn toggle_fold(&mut self) -> (r: Fold)
        ensures
            ({
                let e = old(self)@.with(old(self)@.graph.browsing());
                let id = e.graph.focus;
                if exists|c: u64| e.graph.children(id).contains(c) {
                    r == fold_outcome(e.graph, id) && final(self)@ == fold_toggled(e, id)
                } else {
                    r == Fold::NothingBelow && final(self)@ == e
                }
            }),
    {
        self.graph.leave_edit();
        let id: u64 = self.graph.focused_id;
        let kids = self.graph.children_of(id);
        if kids.len() == 0 {
            assert forall|c: u64| !self@.graph.children(id).contains(c) by {
                assert(!kids@.contains(c));
            }
            return Fold::NothingBelow;
        }
        assert(self@.graph.children(id).contains(kids@[0])) by {
            assert(kids@.contains(kids@[0]));
        }
        self.toggle_fold_of(id)
    }

    /// Folds or unfolds a branch, and says what became of it.
    pub fn toggle_fold_of(&mut self, id: u64) -> (r: Fold)
        ensures
            r == fold_outcome(old(self)@.graph, id),
            final(self)@ == fold_toggled(old(self)@, id),
    {
        self.edit(Tag::Structure);
        self.graph.toggle_collapsed(id);
        if self.graph.is_collapsed(id) {
            Fold::Folded(self.graph.hidden_count(id))
        } else {
            Fold::Unfolded
        }
    }

    // ---- restructuring -----------------------------------------------------

    /// Moves the cursor's node past the sibling above or below it. Nothing is
    /// noted if there is none.
    pub fn reorder<C: Fn(Coord, Coord, Coord) -> Coord>(&mut self, up: bool, carry: &C) -> (r: bool)
        requires
            forall|a: Coord, b: Coord, c: Coord| #[trigger] carry.requires((a, b, c)),
        ensures
            ({
                let e = old(self)@.with(old(self)@.graph.browsing());
                let g = e.graph;
                match g.neighbour(g.focus, up) {
                    Some(o) => {
                        &&& r
                        &&& final(self)@.history == e.recorded(Tag::Structure).history
                        &&& reorder::moved_past(g, final(self)@.graph, g.focus, up, carry)
                        &&& g.roomy(g.focus) ==> final(self)@.graph.siblings_down(g.focus)
                            == g.siblings_traded(g.focus, up)
                    },
                    None => !r && final(self)@ == e,
                }
            }),
    {
        self.graph.leave_edit();
        let id: u64 = self.graph.focused_id;
        if !self.graph.can_move_sibling(id, up) {
            return false;
        }
        self.edit(Tag::Structure);
        self.graph.move_sibling(id, up, carry)
    }

    /// Hangs the cursor's node beside its parent. Nothing is noted if it is at
    /// the top. Where it settles is for the caller to say.
    pub fn outdent(&mut self) -> (r: bool)
        ensures
            ({
                let e = old(self)@.with(old(self)@.graph.browsing());
                let g = e.graph;
                match g.ancestor(g.focus, 2) {
                    Some(p) => {
                        &&& r == g.may_hang(g.focus, p)
                        &&& final(self)@ == e.recorded(Tag::Structure).with(
                            if r {
                                g.reparented(g.focus, p)
                            } else {
                                g
                            },
                        )
                    },
                    None => !r && final(self)@ == e,
                }
            }),
    {
        self.graph.leave_edit();
        let id: u64 = self.graph.focused_id;
        if !self.graph.can_outdent(id) {
            return false;
        }
        self.edit(Tag::Structure);
        self.graph.outdent(id)
    }

    /// Hangs the cursor's node under the sibling above it. Nothing is noted if
    /// there is none. Where it settles is for the caller to say.
    pub fn indent(&mut self) -> (r: bool)
        ensures
            ({
                let e = old(self)@.with(old(self)@.graph.browsing());
                let g = e.graph;
                if g.focus != g.root && g.siblings_down(g.focus).len() > 1 && g.siblings_down(
                    g.focus,
                )[0] != g.focus {
                    match g.neighbour(g.focus, true) {
                        Some(p) => {
                            &&& r == g.may_hang(g.focus, p)
                            &&& final(self)@ == e.recorded(Tag::Structure).with(
                                if r {
                                    g.reparented(g.focus, p)
                                } else {
                                    g
                                },
                            )
                        },
                        None => !r && final(self)@ == e.recorded(Tag::Structure),
                    }
                } else {
                    !r && final(self)@ == e
                }
            }),
    {
        self.graph.leave_edit();
        let id: u64 = self.graph.focused_id;
        if !self.graph.can_indent(id) {
            return false;
        }
        self.edit(Tag::Structure);
        self.graph.indent(id)
    }

    /// Lays the whole map out. Nothing is noted if that moves nothing.
    pub fn tidy<C: Fn(Coord, Coord, Coord) -> Coord>(&mut self, carry: &C) -> (r: bool)
        requires
            forall|a: Coord, b: Coord, c: Coord| #[trigger] carry.requires((a, b, c)),
        ensures
            exists|g: GraphModel| #[trigger]
                laid_out(old(self)@.graph, g, carry) && r == !same_places(old(self)@.graph, g)
                    && final(self)@ == (if r {
                    old(self)@.recorded(Tag::Structure).with(g)
                } else {
                    old(self)@
                }),
    {
        let mut next = self.graph.clone();
        next.tidy(carry);
        assert(laid_out(self@.graph, next@, carry));
        if self.graph.positions_match(&next) {
            return false;
        }
        self.edit(Tag::Structure);
        self.graph = next;
        true
    }

    /// Deletes what is selected; where an edge is looked at, cuts the link it
    /// draws instead. Nothing is noted where nothing would go.
    pub fn delete(&mut self) -> (r: Deleted)
        ensures
            (final(self)@, r) == deleted(old(self)@),
    {
        if let Some(eid) = self.graph.focused_edge {
            let child: Option<u64> = match self.graph.edges.get(&eid) {
                Some(e) => {
                    assert(e@ == self@.graph.edges[eid]);
                    Some(e.to)
                },
                None => None,
            };
            assert(self@.graph.edges.dom().contains(eid) <==> self.graph.edges@.dom().contains(eid));
            if let Some(child) = child {
                let hung = match self.graph.nodes.get(&child) {
                    Some(n) => {
                        assert(n@ == self@.graph.nodes[child]);
                        n.parent.is_some()
                    },
                    None => false,
                };
                assert(self@.graph.has(child) <==> self.graph.nodes@.dom().contains(child));
                if hung {
                    self.edit(Tag::Structure);
                    self.graph.detach(child);
                    self.graph.clear_edge_focus();
                    self.graph.focus(child);
                    return Deleted::Cut;
                }
            }
            return Deleted::NoLink;
        }
        let targets = self.graph.acting_on();
        proof {
            ids::lemma_listed(targets@, self@.graph.selected);
        }
        if targets.len() == 0 {
            assert(self@.graph.selected =~= Set::empty()) by {
                assert forall|x: u64| !self@.graph.selected.contains(x) by {
                    assert(!targets@.contains(x));
                }
            }
            return Deleted::Nothing;
        }
        assert(self@.graph.selected != Set::<u64>::empty()) by {
            assert(targets@.contains(targets@[0]));
            assert(self@.graph.selected.contains(targets@[0]));
        }
        if self.only_root(&targets) {
            return Deleted::RootStays;
        }
        self.edit(Tag::Structure);
        let n: usize = self.graph.delete_selection_of_nodes();
        Deleted::Gone(n)
    }

    fn only_root(&self, targets: &Vec<u64>) -> (r: bool)
        requires
            ids::lists(targets@, self@.graph.selected),
        ensures
            r == (forall|id: u64| #[trigger]
                self@.graph.selected.contains(id) ==> id == self@.graph.root),
    {
        let mut i: usize = 0;
        while i < targets.len()
            invariant
                i <= targets@.len(),
                ids::lists(targets@, self@.graph.selected),
                forall|k: int| 0 <= k < i ==> #[trigger] targets@[k] == self@.graph.root,
            decreases targets@.len() - i,
        {
            if targets[i] != self.graph.root_id {
                assert(targets@.contains(targets@[i as int]));
                assert(self@.graph.selected.contains(targets@[i as int]));
                return false;
            }
            i = i + 1;
        }
        assert forall|id: u64| #[trigger] self@.graph.selected.contains(id) implies id
            == self@.graph.root by {
            assert(targets@.contains(id));
        }
        true
    }

    /// Gives the selection a colour, or the cursor's node if nothing is selected.
    /// Nothing is noted if it has that colour.
    pub fn set_color(&mut self, color: Option<u8>) -> (r: Coloured)
        ensures
            (final(self)@, r) == painted(old(self)@, color),
    {
        let picked = self.graph.acting_on();
        if picked.len() == 0 {
            assert(self@.graph.selected =~= Set::empty()) by {
                assert forall|x: u64| !self@.graph.selected.contains(x) by {
                    assert(!picked@.contains(x));
                }
            }
            let f: u64 = self.graph.focused_id;
            assert(self@.graph.has(f) <==> self.graph.nodes@.dom().contains(f));
            if self.graph.nodes.contains_key(&f) && self.graph.focused_edge.is_none() {
                self.graph.focus(f);
                assert(self@.graph.selected.contains(f));
            } else {
                return Coloured::Nothing;
            }
        } else {
            assert(self@.graph.selected != Set::<u64>::empty()) by {
                assert(picked@.contains(picked@[0]));
                assert(self@.graph.selected.contains(picked@[0]));
            }
        }
        assert(self@.graph == old(self)@.graph.grasped());
        let mut next = self.graph.clone();
        let changed = next.set_color_of_selection(color);
        if !changed {
            return Coloured::Same;
        }
        self.edit(Tag::Structure);
        self.graph = next;
        Coloured::Changed
    }

    // ---- moving ------------------------------------------------------------

    /// Moves the selection, or the cursor's node if nothing is selected. Moves of
    /// one selection are one step.
    pub fn nudge<F: Fn(Coord, Coord) -> (Coord, Coord)>(&mut self, shift: &F) -> (r: bool)
        requires
            forall|x: Coord, y: Coord| #[trigger] shift.requires((x, y)),
        ensures
            ({
                let g = old(self)@.graph.grasped();
                if g.selected == Set::<u64>::empty() {
                    !r && final(self)@ == old(self)@
                } else {
                    &&& r == (g.carried(g.selected) != Set::<u64>::empty())
                    &&& final(self)@.history == old(self)@.with(g).recorded(g.move_tag()).history
                    &&& spatial::shifted(g, final(self)@.graph, g.carried(g.selected), shift)
                }
            }),
    {
        let picked = self.graph.acting_on();
        if picked.len() == 0 {
            assert(self@.graph.selected =~= Set::empty()) by {
                assert forall|x: u64| !self@.graph.selected.contains(x) by {
                    assert(!picked@.contains(x));
                }
            }
            let f: u64 = self.graph.focused_id;
            assert(self@.graph.has(f) <==> self.graph.nodes@.dom().contains(f));
            if self.graph.nodes.contains_key(&f) && self.graph.focused_edge.is_none() {
                self.graph.focus(f);
                assert(self@.graph.selected.contains(f));
            } else {
                return false;
            }
        } else {
            assert(self@.graph.selected != Set::<u64>::empty()) by {
                assert(picked@.contains(picked@[0]));
                assert(self@.graph.selected.contains(picked@[0]));
            }
        }
        assert(self@.graph == old(self)@.graph.grasped());
        let tag = self.move_tag();
        self.edit(tag);
        self.graph.move_selection_by(shift)
    }

    // ---- the clipboard -----------------------------------------------------

    /// What is selected, to be put on the clipboard, with what it is to say of it
    /// if it is to be taken away: nothing is taken where only the root is
    /// selected, or nothing.
    pub fn cut_nodes<F: Fn(Coord, Coord) -> Coord>(&mut self, offset: &F) -> (r: (
        Option<Clip>,
        Deleted,
    ))
        requires
            forall|a: Coord, b: Coord| #[trigger] offset.requires((a, b)),
        ensures
            ({
                let g = old(self)@.graph;
                let all = ids::listed(g.selected);
                if g.selected == Set::<u64>::empty() {
                    r.0 is None && r.1 == Deleted::Nothing && final(self)@ == old(self)@
                } else if forall|id: u64| #[trigger] g.selected.contains(id) ==> id == g.root {
                    r.0 is None && r.1 == Deleted::RootStays && final(self)@ == old(self)@
                } else if g.gathered(all).len() == 0 {
                    r.0 is None && r.1 == Deleted::Nothing && final(self)@ == old(self)@
                } else {
                    &&& r.0 matches Some(c) && clip_of(g, all, c, offset)
                    &&& r.1 == Deleted::Gone(g.doomed(g.selected).len() as usize)
                    &&& final(self)@ == old(self)@.recorded(Tag::Structure).with(
                        g.selection_of_nodes_deleted(),
                    )
                }
            }),
    {
        let targets = self.graph.acting_on();
        proof {
            ids::lemma_listed(targets@, self@.graph.selected);
        }
        if targets.len() == 0 {
            assert(self@.graph.selected =~= Set::empty()) by {
                assert forall|x: u64| !self@.graph.selected.contains(x) by {
                    assert(!targets@.contains(x));
                }
            }
            return (None, Deleted::Nothing);
        }
        assert(self@.graph.selected != Set::<u64>::empty()) by {
            assert(targets@.contains(targets@[0]));
            assert(self@.graph.selected.contains(targets@[0]));
        }
        if self.only_root(&targets) {
            return (None, Deleted::RootStays);
        }
        match self.graph.copy_subtrees(&targets, offset) {
            None => (None, Deleted::Nothing),
            Some(c) => {
                assert(clip_of(self@.graph, targets@, c, offset));
                self.edit(Tag::Structure);
                let n: usize = self.graph.delete_selection_of_nodes();
                (Some(c), Deleted::Gone(n))
            },
        }
    }

    /// Pastes a clip under the cursor's node, at a place. Says how many nodes it
    /// made.
    pub fn paste_clip<F: Fn(Coord, Coord) -> Coord>(
        &mut self,
        c: &Clip,
        x: Coord,
        y: Coord,
        sum: &F,
    ) -> (r: usize)
        requires
            forall|a: Coord, b: Coord| #[trigger] sum.requires((a, b)),
        ensures
            r == old(self)@.graph.room(old(self)@.graph.next_id, c@.len()),
            final(self)@.history == old(self)@.recorded(Tag::Structure).history,
            exists|at: Seq<(Coord, Coord)>| #[trigger]
                clip::places_of(c@, at, x, y, sum) && at.len() == r && final(self)@.graph == old(
                    self,
                )@.graph.pasted(c@, at, Some(old(self)@.graph.focus)),
    {
        let parent: Option<u64> = Some(self.graph.focused_id);
        self.edit(Tag::Structure);
        let fresh = self.graph.paste(c, x, y, parent, sum);
        fresh.len()
    }

    /// Grows an outline that was pasted under the cursor's node, and puts the
    /// cursor on its first item. Nothing is noted if it has none.
    pub fn paste_outline<P: Fn(&Graph, u64, Direction) -> (Coord, Coord)>(
        &mut self,
        words: &str,
        place: &P,
    ) -> (r: Option<u64>)
        requires
            forall|g: &Graph, p: u64, d: Direction| #[trigger] place.requires((g, p, d)),
        ensures
            exists|run: Seq<Graph>, made: Seq<Option<u64>>| #[trigger]
                outline::grown(
                    place,
                    run,
                    made,
                    outline::items_of(text::lines_of(words@)),
                    old(self)@.graph.focus,
                ) && run[0]@ == old(self)@.graph && r == (if made.len() > 0 {
                    made[0]
                } else {
                    None
                }) && final(self)@ == (match r {
                    Some(first) => old(self)@.recorded(Tag::Structure).with(
                        run.last()@.browsing().focused_on(first),
                    ),
                    None => old(self)@,
                }),
    {
        let under: u64 = self.graph.focused_id;
        let mut next = self.graph.clone();
        let ghost begun = next;
        let r = next.paste_outline(under, words, place);
        proof {
            let (run, made) = choose|run: Seq<Graph>, made: Seq<Option<u64>>| #[trigger]
                outline::grown(
                    place,
                    run,
                    made,
                    outline::items_of(text::lines_of(words@)),
                    under,
                ) && run[0] == begun && run.last() == next && r == (if made.len() > 0 {
                    made[0]
                } else {
                    None
                });
            assert(outline::grown(
                place,
                run,
                made,
                outline::items_of(text::lines_of(words@)),
                under,
            ));
            assert(run[0]@ == old(self)@.graph);
        }
        match r {
            Some(first) => {
                self.edit(Tag::Structure);
                next.leave_edit();
                next.focus(first);
                self.graph = next;
                Some(first)
            },
            None => None,
        }
    }

    // ---- pictures ----------------------------------------------------------

    /// Gives a node a picture, or the box of its picture another size.
    pub fn set_picture(&mut self, id: u64, name: &str, w: Coord, h: Coord)
        ensures
            final(self)@ == old(self)@.with(
                with_picture(old(self)@.graph, id, ImageModel { name: name@, w, h }),
            ),
    {
        let ghost g = self@.graph;
        assert(g.nodes.dom() =~= self.graph.nodes@.dom());
        match self.graph.nodes.remove(&id) {
            Some(mut n) => {
                assert(n@ == g.nodes[id]);
                n.image = Some(NodeImage { name: name.to_owned(), w, h });
                self.graph.nodes.insert(id, n);
                assert(self@.graph.nodes =~= with_picture(
                    g,
                    id,
                    ImageModel { name: name@, w, h },
                ).nodes);
            },
            None => {
                assert(self@.graph.nodes =~= g.nodes);
            },
        }
    }
}

/// A node beside the cursor's: under the same parent, or under itself where it
/// has none.
pub open spec fn beside<P: Fn(&Graph, u64, Direction) -> (Coord, Coord)>(
    place: &P,
    from: &Graph,
    r: Option<u64>,
    after: GraphModel,
) -> bool {
    match from@.parent_of(from@.focus) {
        Some(p) => structure::made_child(place, from, p, Direction::Down, ""@, r, after),
        None => structure::made_child(
            place,
            from,
            from@.focus,
            Direction::Right,
            ""@,
            r,
            after,
        ),
    }
}

/// A map with one fold more or one less.
pub open spec fn refolded(g: GraphModel, id: u64) -> GraphModel {
    if g.has(id) && exists|c: u64| g.children(id).contains(c) {
        g.fold_toggled(id)
    } else {
        g
    }
}

/// The editor with a branch folded or unfolded.
pub open spec fn fold_toggled(e: EditorModel, id: u64) -> EditorModel {
    e.recorded(Tag::Structure).with(refolded(e.graph, id))
}

/// What folding or unfolding a branch comes to.
pub open spec fn fold_outcome(g: GraphModel, id: u64) -> Fold {
    let h = refolded(g, id);
    if h.collapsed(id) {
        Fold::Folded(
            (if h.has(id) {
                h.subtree(id).len() - 1
            } else {
                0
            }) as usize,
        )
    } else {
        Fold::Unfolded
    }
}

/// `after` is `before` laid out.
pub open spec fn laid_out<C: Fn(Coord, Coord, Coord) -> Coord>(
    before: GraphModel,
    after: GraphModel,
    carry: &C,
) -> bool {
    tidy::repositioned(before, after) && (before.grounded() ==> tidy::tidied(before, after, carry))
}

/// The nodes of two maps are in the same places.
pub open spec fn same_places(a: GraphModel, b: GraphModel) -> bool {
    a.nodes.dom().len() == b.nodes.dom().len() && forall|id: u64| #[trigger]
        a.has(id) ==> b.has(id) && b.nodes[id].x.same(a.nodes[id].x) && b.nodes[id].y.same(
            a.nodes[id].y,
        )
}

/// What deleting does, and what it comes to.
pub open spec fn deleted(e: EditorModel) -> (EditorModel, Deleted) {
    let g = e.graph;
    match g.edge_focus {
        Some(edge) => {
            let child = g.edges[edge].to;
            if g.edges.dom().contains(edge) && g.parent_of(child) is Some {
                (
                    e.recorded(Tag::Structure).with(
                        g.unlinked(child).hung(child, None).edge_left().focused_on(child),
                    ),
                    Deleted::Cut,
                )
            } else {
                (e, Deleted::NoLink)
            }
        },
        None => if g.selected == Set::<u64>::empty() {
            (e, Deleted::Nothing)
        } else if forall|id: u64| #[trigger] g.selected.contains(id) ==> id == g.root {
            (e, Deleted::RootStays)
        } else {
            (
                e.recorded(Tag::Structure).with(g.selection_of_nodes_deleted()),
                Deleted::Gone(g.doomed(g.selected).len() as usize),
            )
        },
    }
}

/// What giving a colour does, and what it comes to.
pub open spec fn painted(e: EditorModel, color: Option<u8>) -> (EditorModel, Coloured) {
    let g = e.graph.grasped();
    if g.selected == Set::<u64>::empty() {
        (e, Coloured::Nothing)
    } else if exists|id: u64|
        g.selected.contains(id) && #[trigger] g.has(id) && g.nodes[id].color != color {
        (e.with(g).recorded(Tag::Structure).with(g.coloured(color)), Coloured::Changed)
    } else {
        (e.with(g), Coloured::Same)
    }
}

/// `c` is the clip of the branches of `picked`.
pub open spec fn clip_of<F: Fn(Coord, Coord) -> Coord>(
    g: GraphModel,
    picked: Seq<u64>,
    c: Clip,
    offset: &F,
) -> bool {
    let taken = g.gathered(picked);
    &&& c@.len() == taken.len()
    &&& forall|i: int|
        0 <= i < taken.len() ==> {
            let n = g.nodes[taken[i]];
            &&& (#[trigger] c@[i]) == g.clipped(taken, taken[i], c@[i].dx, c@[i].dy)
            &&& offset.ensures((n.x, g.leftmost(taken)), c@[i].dx)
            &&& offset.ensures((n.y, g.topmost(taken)), c@[i].dy)
        }
}

/// A map where a node has a picture.
pub open spec fn with_picture(g: GraphModel, id: u64, image: ImageModel) -> GraphModel {
    if g.has(id) {
        GraphModel {
            nodes: g.nodes.insert(id, NodeModel { image: Some(image), ..g.nodes[id] }),
            ..g
        }
    } else {
        g
    }
}

// ---------------------------------------------------------------------------
// Laws
// ---------------------------------------------------------------------------

/// What a step was noted with is what undo comes back to: a verb that notes the
/// map and changes it is taken back whole.
pub proof fn undo_takes_a_verb_back(e: EditorModel, after: GraphModel)
    ensures
        e.recorded(Tag::Structure).with(after).history.past.len() > 0,
        e.recorded(Tag::Structure).with(after).history.past.last() == e.graph,
{
    let p = e.history.past.push(e.graph);
    assert(crate::history::capped(p).last() == e.graph);
}

/// A delete that is refused leaves no step behind, and what could be done again
/// still can.
pub proof fn a_refused_delete_leaves_no_step(e: EditorModel)
    requires
        deleted(e).1 == Deleted::Nothing || deleted(e).1 == Deleted::RootStays || deleted(e).1
            == Deleted::NoLink,
    ensures
        deleted(e).0 == e,
{
}

/// Giving a colour twice leaves one step behind.
pub proof fn a_colour_is_given_once(e: EditorModel, color: Option<u8>)
    requires
        painted(e, color).1 == Coloured::Changed,
    ensures
        painted(painted(e, color).0, color) == (painted(e, color).0, Coloured::Same),
{
    let g = e.graph.grasped();
    let h = g.coloured(color);
    assert(h.selected == g.selected);
    assert(h.grasped() == h);
    assert forall|id: u64| h.selected.contains(id) && #[trigger] h.has(id) implies h.nodes[id].color
        == color by {}
}

} // verus!
