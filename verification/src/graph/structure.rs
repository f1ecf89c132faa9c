//! Changes to the tree: creating, deleting and re-hanging nodes.

use std::collections::BTreeSet;
use std::collections::HashSet;
use vstd::prelude::*;
use vstd::utf8::*;
use vstd::string::StringSliceAdditionalSpecFns;
use crate::coord::Coord;
use crate::graph::fold;
use crate::graph::model;
use crate::graph::model::{EdgeModel, GraphModel, NodeModel};
use crate::graph::tree;
use crate::graph::{Direction, Edge, Graph, Mode, Node};
use crate::ids;

verus! {

broadcast use {vstd::std_specs::hash::group_hash_axioms, vstd::std_specs::btree::group_btree_axioms};

impl GraphModel {
    /// `id` can be handed out.
    pub open spec fn free(self, id: u64) -> bool {
        id != u64::MAX && !self.has(id) && !self.edges.dom().contains(id)
    }

    pub open spec fn linked(self, eid: u64, from: u64, to: u64, label: Seq<char>) -> GraphModel {
        GraphModel { edges: self.edges.insert(eid, EdgeModel { from, to, label }), ..self }
    }

    pub open spec fn hung(self, id: u64, parent: Option<u64>) -> GraphModel {
        if self.has(id) {
            GraphModel {
                nodes: self.nodes.insert(id, NodeModel { parent, ..self.nodes[id] }),
                ..self
            }
        } else {
            self
        }
    }

    /// A child of `parent` at a place, ready to be named. Two ids are taken or
    /// none; without them the branch is only opened.
    pub open spec fn child_created(self, parent: u64, text: Seq<char>, x: Coord, y: Coord) -> (
        Option<u64>,
        GraphModel,
    ) {
        let g = self.opened(parent);
        let id = g.next_id;
        let eid = (id + 1) as u64;
        if g.free(id) && g.free(eid) {
            (
                Some(id),
                GraphModel {
                    next_id: (id + 2) as u64,
                    nodes: g.nodes.insert(id, model::plain_node(text, x, y, Some(parent))),
                    edges: g.edges.insert(eid, EdgeModel { from: parent, to: id, label: seq![] }),
                    focus: id,
                    selected: set![id],
                    edge_focus: None,
                    mode: Mode::Edit,
                    caret: encode_utf8(text).len() as usize,
                    anchor: None,
                    ..g
                },
            )
        } else {
            (None, g)
        }
    }

    /// A node of its own at a place, ready to be named.
    pub open spec fn free_created(self, x: Coord, y: Coord) -> (Option<u64>, GraphModel) {
        let id = self.next_id;
        if self.free(id) {
            (
                Some(id),
                GraphModel {
                    next_id: (id + 1) as u64,
                    nodes: self.nodes.insert(id, model::plain_node(seq![], x, y, None)),
                    focus: id,
                    selected: set![id],
                    edge_focus: None,
                    mode: Mode::Edit,
                    caret: 0,
                    anchor: None,
                    ..self
                },
            )
        } else {
            (None, self)
        }
    }

    /// The edges with both ends outside `gone`.
    pub open spec fn edges_without(self, gone: Set<u64>) -> Map<u64, EdgeModel> {
        self.edges.restrict(
            self.edges.dom().filter(
                |e: u64| !gone.contains(self.edges[e].from) && !gone.contains(self.edges[e].to),
            ),
        )
    }

    /// `id` and everything under it deleted. The cursor goes to the parent, or the
    /// root; whatever is still selected stays so, or else the cursor's node is.
    pub open spec fn subtree_deleted(self, id: u64) -> GraphModel {
        let gone = self.subtree(id);
        let nodes = self.nodes.remove_keys(gone);
        let edges = self.edges_without(gone);
        let focus = if gone.contains(self.focus) {
            match self.parent_of(id) {
                Some(p) if nodes.dom().contains(p) => p,
                _ => self.root,
            }
        } else {
            self.focus
        };
        let left = self.selected.difference(gone);
        (GraphModel {
            nodes,
            edges,
            focus,
            edge_focus: match self.edge_focus {
                Some(e) if edges.dom().contains(e) => Some(e),
                _ => None,
            },
            selected: if left == Set::<u64>::empty() && nodes.dom().contains(focus) {
                set![focus]
            } else {
                left
            },
            mode: Mode::Browse,
            ..self
        }).caret_at_end()
    }

    /// A subtree deleted where it can be: never the root's.
    pub open spec fn deleted(self, id: u64) -> GraphModel {
        if id != self.root && self.has(id) {
            self.subtree_deleted(id)
        } else {
            self
        }
    }

    /// The subtrees of `doomed` deleted one after another.
    pub open spec fn all_deleted(self, doomed: Seq<u64>) -> GraphModel
        decreases doomed.len(),
    {
        if doomed.len() == 0 {
            self
        } else {
            self.all_deleted(doomed.drop_last()).deleted(doomed.last())
        }
    }

    /// What deleting `picked` takes with it, not counting the root.
    pub open spec fn doomed(self, picked: Set<u64>) -> Set<u64> {
        self.nodes.dom().filter(
            |x: u64|
                x != self.root && exists|id: u64|
                    picked.contains(id) && id != self.root && #[trigger] self.subtree(id).contains(
                        x,
                    ),
        )
    }

    /// The nearest of `chain` that is still there, or the root.
    pub open spec fn survivor(self, chain: Seq<u64>) -> u64
        decreases chain.len(),
    {
        if chain.len() == 0 {
            self.root
        } else if self.has(chain[0]) {
            chain[0]
        } else {
            self.survivor(chain.skip(1))
        }
    }

    /// The nearest `n` ancestors of `id`, the parent first.
    pub open spec fn ancestry(self, id: u64, n: nat) -> Seq<u64>
        decreases n,
    {
        if n == 0 {
            seq![]
        } else {
            match self.ancestor(id, n) {
                Some(a) => self.ancestry(id, (n - 1) as nat).push(a),
                None => self.ancestry(id, (n - 1) as nat),
            }
        }
    }

    /// The selected nodes deleted, each with its subtree. Nothing is selected
    /// then. A cursor that went with them lands on its nearest surviving ancestor.
    pub open spec fn selection_of_nodes_deleted(self) -> GraphModel {
        let g = self.all_deleted(ids::listed(self.selected));
        let h = GraphModel { selected: Set::empty(), ..g };
        if h.focus_ok() {
            h
        } else {
            (GraphModel {
                focus: h.survivor(self.ancestry(self.focus, self.nodes.dom().len())),
                edge_focus: None,
                ..h
            }).caret_at_end()
        }
    }

    /// `id` may be hung under `parent`: not the root, not where it hangs already,
    /// and not under itself.
    pub open spec fn may_hang(self, id: u64, parent: u64) -> bool {
        &&& id != self.root
        &&& id != parent
        &&& self.has(id)
        &&& self.has(parent)
        &&& self.parent_of(id) != Some(parent)
        &&& !self.subtree(id).contains(parent)
    }

    /// The label of the first edge into `id`.
    pub open spec fn label_into(self, id: u64) -> Seq<char> {
        match ids::least(self.edges_into(id)) {
            Some(e) => self.edges[e].label,
            None => seq![],
        }
    }

    /// No edge into `id`.
    pub open spec fn unlinked(self, id: u64) -> GraphModel {
        GraphModel { edges: self.edges.remove_keys(self.edges_into(id)), ..self }
    }

    /// `id` hung under `parent`, with one edge that keeps its label.
    pub open spec fn reparented(self, id: u64, parent: u64) -> GraphModel {
        let label = self.label_into(id);
        let g = self.unlinked(id).opened(parent).hung(id, Some(parent));
        let eid = g.next_id;
        if g.free(eid) {
            GraphModel { next_id: (eid + 1) as u64, ..g.linked(eid, parent, id, label) }
        } else {
            g
        }
    }

    /// An ancestor of `id` is among `picked`.
    pub open spec fn inside(self, id: u64, picked: Set<u64>) -> bool {
        exists|a: u64| #[trigger] self.over(a, id) && picked.contains(a)
    }
}

/// What creating a child of `parent` comes to, wherever `place` puts it: a child
/// there, or nothing where there is no such parent.
pub open spec fn made_child<P: Fn(&Graph, u64, Direction) -> (Coord, Coord)>(
    place: &P,
    before: &Graph,
    parent: u64,
    direction: Direction,
    text: Seq<char>,
    r: Option<u64>,
    after: GraphModel,
) -> bool {
    if before@.has(parent) {
        exists|x: Coord, y: Coord| #[trigger]
            place.ensures((before, parent, direction), (x, y)) && (r, after)
                == before@.child_created(parent, text, x, y)
    } else {
        r is None && after == before@
    }
}

impl Graph {
    /// Hand out the next free id, or `None` once the counter is exhausted or
    /// would collide with something already in the map.
    pub fn take_id(&mut self) -> (r: Option<u64>)
        ensures
            ({
                let g = old(self)@;
                if g.free(g.next_id) {
                    r == Some(g.next_id) && final(self)@ == (GraphModel {
                        next_id: (g.next_id + 1) as u64,
                        ..g
                    })
                } else {
                    r is None && final(self)@ == g
                }
            }),
            final(self).nodes == old(self).nodes,
            final(self).edges == old(self).edges,
    {
        let id: u64 = self.next_id;
        if id == u64::MAX || self.nodes.contains_key(&id) || self.edges.contains_key(&id) {
            return None;
        }
        self.next_id = id + 1;
        Some(id)
    }

    /// Two ids at once, or none at all.
    pub fn take_id_pair(&mut self) -> (r: Option<(u64, u64)>)
        ensures
            ({
                let g = old(self)@;
                let id = g.next_id;
                let eid = (id + 1) as u64;
                if g.free(id) && g.free(eid) {
                    r == Some((id, eid)) && final(self)@ == (GraphModel {
                        next_id: (id + 2) as u64,
                        ..g
                    })
                } else {
                    r is None && final(self)@ == g
                }
            }),
            final(self).nodes == old(self).nodes,
            final(self).edges == old(self).edges,
    {
        let before: u64 = self.next_id;
        match self.take_id() {
            Some(a) => match self.take_id() {
                Some(b) => Some((a, b)),
                None => {
                    self.next_id = before;
                    None
                },
            },
            None => None,
        }
    }

    /// Create a child of `parent` where `place` puts it. Returns the new node's
    /// id; nothing where there is no such parent or the ids have run out.
    pub fn create_child<P: Fn(&Graph, u64, Direction) -> (Coord, Coord)>(
        &mut self,
        parent: u64,
        direction: Direction,
        text: &str,
        place: &P,
    ) -> (r: Option<u64>)
        requires
            forall|g: &Graph, p: u64, d: Direction| #[trigger] place.requires((g, p, d)),
        ensures
            made_child(place, &*old(self), parent, direction, text@, r, final(self)@),
    {
        if !self.nodes.contains_key(&parent) {
            return None;
        }
        let (x, y) = place(&*self, parent, direction);
        self.create_child_at(parent, x, y, text)
    }

    /// Create a child of `parent` at a place. Returns the new node's id; nothing
    /// where there is no such parent or the ids have run out.
    pub fn create_child_at(&mut self, parent: u64, x: Coord, y: Coord, text: &str) -> (r: Option<
        u64,
    >)
        ensures
            (r, final(self)@) == (if old(self)@.has(parent) {
                old(self)@.child_created(parent, text@, x, y)
            } else {
                (None, old(self)@)
            }),
    {
        if !self.nodes.contains_key(&parent) {
            return None;
        }
        self.open_for_content(parent);
        let ghost g = self@;
        // Both ids or neither. Refusing to create is the only safe answer when
        // they run out: an id already in use would silently replace a node.
        match self.take_id_pair() {
            Some((id, eid)) => {
                let caret: usize = text.as_bytes().len();
                self.nodes.insert(
                    id,
                    Node {
                        text: text.to_owned(),
                        x,
                        y,
                        parent: Some(parent),
                        collapsed: false,
                        color: None,
                        image: None,
                    },
                );
                self.edges.insert(eid, Edge { from: parent, to: id, label: String::new() });
                self.focused_id = id;
                // The new node is what you are now holding, and the only thing.
                self.selected.clear();
                self.selected.insert(id);
                self.focused_edge = None;
                // Creating always drops into edit so the user can name the child.
                self.mode = Mode::Edit;
                self.caret = caret;
                self.anchor = None;
                proof {
                    let (want, h) = g.child_created(parent, text@, x, y);
                    assert(self@.nodes =~= g.nodes.insert(
                        id,
                        model::plain_node(text@, x, y, Some(parent)),
                    ));
                    assert(self@.edges =~= g.edges.insert(
                        eid,
                        EdgeModel { from: parent, to: id, label: seq![] },
                    ));
                    assert(self@.selected =~= set![id]);
                }
                Some(id)
            },
            None => None,
        }
    }

    pub fn create_from_focused<P: Fn(&Graph, u64, Direction) -> (Coord, Coord)>(
        &mut self,
        direction: Direction,
        text: &str,
        place: &P,
    ) -> (r: Option<u64>)
        requires
            forall|g: &Graph, p: u64, d: Direction| #[trigger] place.requires((g, p, d)),
        ensures
            made_child(place, &*old(self), old(self)@.focus, direction, text@, r, final(self)@),
    {
        self.create_child(self.focused_id, direction, text, place)
    }

    /// A new node beside the focused one, under the same parent. On the root,
    /// where there is no parent to share, it falls back to a child so the key is
    /// never simply dead.
    pub fn create_sibling<P: Fn(&Graph, u64, Direction) -> (Coord, Coord)>(
        &mut self,
        text: &str,
        place: &P,
    ) -> (r: Option<u64>)
        requires
            forall|g: &Graph, p: u64, d: Direction| #[trigger] place.requires((g, p, d)),
        ensures
            match old(self)@.parent_of(old(self)@.focus) {
                Some(p) => made_child(
                    place,
                    &*old(self),
                    p,
                    Direction::Down,
                    text@,
                    r,
                    final(self)@,
                ),
                None => made_child(
                    place,
                    &*old(self),
                    old(self)@.focus,
                    Direction::Right,
                    text@,
                    r,
                    final(self)@,
                ),
            },
    {
        match self.parent_of(self.focused_id) {
            Some(p) => self.create_child(p, Direction::Down, text, place),
            None => self.create_child(self.focused_id, Direction::Right, text, place),
        }
    }

    /// A node with no parent, placed where it was asked for — a floating topic.
    pub fn create_free_node(&mut self, x: Coord, y: Coord) -> (r: Option<u64>)
        ensures
            (r, final(self)@) == old(self)@.free_created(x, y),
    {
        let ghost g = self@;
        match self.take_id() {
            Some(id) => {
                self.nodes.insert(
                    id,
                    Node {
                        text: String::new(),
                        x,
                        y,
                        parent: None,
                        collapsed: false,
                        color: None,
                        image: None,
                    },
                );
                self.focused_edge = None;
                self.focused_id = id;
                self.selected.clear();
                self.selected.insert(id);
                // Straight into Edit: a nameless node is not what anyone wants to
                // be left holding.
                self.mode = Mode::Edit;
                self.caret = 0;
                self.anchor = None;
                proof {
                    assert(self@.nodes =~= g.nodes.insert(
                        id,
                        model::plain_node(seq![], x, y, None),
                    ));
                    assert(self@.selected =~= set![id]);
                }
                Some(id)
            },
            None => None,
        }
    }

    /// Delete a node and its descendants. The root is never deletable — an empty
    /// canvas with no anchor has nowhere to type. Returns true if removed.
    pub fn delete_subtree(&mut self, id: u64) -> (r: bool)
        ensures
            r == (id != old(self)@.root && old(self)@.has(id)),
            final(self)@ == old(self)@.deleted(id),
    {
        if id == self.root_id || !self.nodes.contains_key(&id) {
            return false;
        }
        let ghost g = self@;
        let parent: Option<u64> = self.parent_of(id);
        let all = self.subtree_ids(id);
        let gone = ids::lookup(&all);
        assert(gone@ =~= g.subtree(id));
        self.remove_nodes(&all);
        self.remove_edges_of(&gone);
        if gone.contains(&self.focused_id) {
            self.focused_id = match parent {
                Some(p) => if self.nodes.contains_key(&p) {
                    p
                } else {
                    self.root_id
                },
                None => self.root_id,
            };
        }
        match self.focused_edge {
            Some(e) => {
                if !self.edges.contains_key(&e) {
                    self.focused_edge = None;
                }
            },
            None => {},
        }
        // The selection is part of this type's state, so keeping it live is this
        // method's job, not its caller's.
        self.deselect(&all);
        // Whatever survived is what you are still holding; if nothing did, the
        // cursor's node takes its place.
        if self.selected.is_empty() && self.nodes.contains_key(&self.focused_id) {
            self.selected.insert(self.focused_id);
            assert(self@.selected =~= set![self@.focus]);
        }
        // Deleting is structural — land in Browse on the survivor.
        self.mode = Mode::Browse;
        self.caret_to_end();
        assert(self@ =~= g.subtree_deleted(id));
        true
    }

    fn remove_nodes(&mut self, all: &Vec<u64>)
        ensures
            final(self)@ == (GraphModel {
                nodes: old(self)@.nodes.remove_keys(all@.to_set()),
                ..old(self)@
            }),
    {
        let ghost g = self@;
        let mut i: usize = 0;
        assert(self@.nodes =~= g.nodes.remove_keys(all@.take(0).to_set()));
        while i < all.len()
            invariant
                i <= all@.len(),
                self@ == (GraphModel {
                    nodes: g.nodes.remove_keys(all@.take(i as int).to_set()),
                    ..g
                }),
            decreases all@.len() - i,
        {
            let id: u64 = all[i];
            let ghost before = self@.nodes;
            self.nodes.remove(&id);
            proof {
                assert(self@.nodes =~= before.remove(id));
                ids::lemma_contains_push(all@, i as int);
                assert(self@.nodes =~= g.nodes.remove_keys(all@.take(i + 1).to_set()));
            }
            i = i + 1;
        }
        assert(all@.take(i as int) =~= all@);
    }

    fn remove_edges_of(&mut self, gone: &HashSet<u64>)
        ensures
            final(self)@ == (GraphModel {
                edges: old(self)@.edges_without(gone@),
                ..old(self)@
            }),
    {
        let ghost g = self@;
        let all = ids::keys(&self.edges);
        let mut i: usize = 0;
        while i < all.len()
            invariant
                i <= all@.len(),
                all@.no_duplicates(),
                all@.to_set() == g.edges.dom(),
                self@ == (GraphModel { edges: self@.edges, ..g }),
                forall|e: u64| #[trigger]
                    self@.edges.dom().contains(e) <==> g.edges.dom().contains(e) && (all@.take(
                        i as int,
                    ).contains(e) ==> !gone@.contains(g.edges[e].from) && !gone@.contains(
                        g.edges[e].to,
                    )),
                forall|e: u64| #[trigger]
                    self@.edges.dom().contains(e) ==> self@.edges[e] == g.edges[e],
            decreases all@.len() - i,
        {
            let e: u64 = all[i];
            proof {
                ids::lemma_contains_push(all@, i as int);
                assert(all@.contains(e));
                assert(all@.to_set().contains(e));
                assert(!all@.take(i as int).contains(e)) by {
                    if all@.take(i as int).contains(e) {
                        let k = choose|k: int| 0 <= k < i && all@.take(i as int)[k] == e;
                        assert(all@[k] == all@[i as int]);
                    }
                }
                assert(self@.edges.dom().contains(e));
            }
            let cut = match self.edges.get(&e) {
                Some(edge) => gone.contains(&edge.from) || gone.contains(&edge.to),
                None => false,
            };
            if cut {
                let ghost before = self@.edges;
                self.edges.remove(&e);
                assert(self@.edges =~= before.remove(e));
            }
            i = i + 1;
        }
        proof {
            assert(all@.take(i as int) =~= all@);
            assert(self@.edges =~= g.edges_without(gone@)) by {
                assert forall|e: u64| #[trigger] g.edges.dom().contains(e) implies all@.contains(
                    e,
                ) by {
                    assert(all@.to_set().contains(e));
                }
            }
        }
    }

    /// Take some nodes out of the selection.
    fn deselect(&mut self, all: &Vec<u64>)
        ensures
            final(self)@ == (GraphModel {
                selected: old(self)@.selected.difference(all@.to_set()),
                ..old(self)@
            }),
            final(self).nodes == old(self).nodes,
            final(self).edges == old(self).edges,
    {
        let ghost g = self@;
        let mut i: usize = 0;
        while i < all.len()
            invariant
                i <= all@.len(),
                self.nodes == old(self).nodes,
                self.edges == old(self).edges,
                self@ == (GraphModel { selected: self@.selected, ..g }),
                forall|x: u64| #[trigger]
                    self@.selected.contains(x) <==> g.selected.contains(x) && !all@.take(
                        i as int,
                    ).contains(x),
            decreases all@.len() - i,
        {
            let id: u64 = all[i];
            self.selected.remove(&id);
            proof {
                ids::lemma_contains_push(all@, i as int);
            }
            i = i + 1;
        }
        assert(all@.take(i as int) =~= all@);
        assert(self@.selected =~= g.selected.difference(all@.to_set()));
    }

    /// The ancestors of `id`, the parent first: as many links up as there are
    /// nodes, within which every one of them was met.
    fn ancestors(&self, id: u64) -> (r: Vec<u64>)
        ensures
            r@ == self@.ancestry(id, self@.nodes.dom().len()),
    {
        let ghost g = self@;
        let most: usize = self.nodes.len();
        assert(g.nodes.dom() =~= self.nodes@.dom());
        let mut chain: Vec<u64> = Vec::new();
        let mut cur: Option<u64> = self.parent_of(id);
        let mut hops: usize = 0;
        assert(g.ancestor(id, 0) == Some(id));
        assert(cur == g.ancestor(id, 1));
        while hops < most && cur.is_some()
            invariant
                g == self@,
                hops <= most,
                most == g.nodes.dom().len(),
                cur == g.ancestor(id, (hops + 1) as nat),
                chain@ == g.ancestry(id, hops as nat),
            decreases most - hops,
        {
            match cur {
                Some(p) => {
                    chain.push(p);
                    cur = self.parent_of(p);
                },
                None => {},
            }
            hops = hops + 1;
        }
        proof {
            lemma_ancestry_ends(g, id, hops as nat, most as nat);
        }
        chain
    }

    /// Delete every selected node and its subtree. Returns how many nodes went.
    /// The root is never one of them.
    pub fn delete_selection_of_nodes(&mut self) -> (n: usize)
        ensures
            n == old(self)@.doomed(old(self)@.selected).len(),
            final(self)@ == old(self)@.selection_of_nodes_deleted(),
    {
        let ghost g = self@;
        let picked = self.acting_on();
        proof {
            ids::lemma_listed(picked@, g.selected);
            assert(picked@.to_set() =~= g.selected);
        }
        // The cursor's ancestry, captured before anything is removed.
        let chain = self.ancestors(self.focused_id);
        // Count first: deleting a parent takes its children with it.
        let n: usize = self.count_doomed(&picked);
        let mut i: usize = 0;
        assert(picked@.take(0) =~= Seq::<u64>::empty());
        while i < picked.len()
            invariant
                i <= picked@.len(),
                self@ == g.all_deleted(picked@.take(i as int)),
            decreases picked@.len() - i,
        {
            proof {
                assert(picked@.take(i + 1).drop_last() =~= picked@.take(i as int));
                assert(picked@.take(i + 1).last() == picked@[i as int]);
            }
            self.delete_subtree(picked[i]);
            i = i + 1;
        }
        assert(picked@.take(i as int) =~= picked@);
        self.selected.clear();
        // Rescue the cursor if it went down with the deletion.
        if !self.nodes.contains_key(&self.focused_id) {
            self.focused_id = self.first_survivor(&chain);
            self.focused_edge = None;
            self.caret_to_end();
        }
        n
    }

    fn first_survivor(&self, chain: &Vec<u64>) -> (r: u64)
        ensures
            r == self@.survivor(chain@),
    {
        let mut i: usize = 0;
        assert(chain@.skip(0) =~= chain@);
        while i < chain.len()
            invariant
                i <= chain@.len(),
                self@.survivor(chain@) == self@.survivor(chain@.skip(i as int)),
            decreases chain@.len() - i,
        {
            assert(chain@.skip(i as int)[0] == chain@[i as int]);
            assert(chain@.skip(i as int).skip(1) =~= chain@.skip(i + 1));
            if self.nodes.contains_key(&chain[i]) {
                return chain[i];
            }
            i = i + 1;
        }
        self.root_id
    }

    /// How many nodes deleting `picked` takes, not counting the root.
    fn count_doomed(&self, picked: &Vec<u64>) -> (n: usize)
        ensures
            n == self@.doomed(picked@.to_set()).len(),
    {
        let ghost g = self@;
        let mut doomed: BTreeSet<u64> = BTreeSet::new();
        let mut i: usize = 0;
        while i < picked.len()
            invariant
                g == self@,
                i <= picked@.len(),
                forall|x: u64| #[trigger]
                    doomed@.contains(x) <==> g.has(x) && exists|id: u64|
                        picked@.take(i as int).contains(id) && id != g.root && #[trigger] g.subtree(
                            id,
                        ).contains(x),
            decreases picked@.len() - i,
        {
            let id: u64 = picked[i];
            let ghost was = doomed@;
            proof {
                ids::lemma_contains_push(picked@, i as int);
            }
            if id != self.root_id {
                let all = self.subtree_ids(id);
                ids::add_all(&mut doomed, &all);
                assert(all@.to_set() =~= g.subtree(id));
            }
            proof {
                assert forall|x: u64| #[trigger] doomed@.contains(x) <==> g.has(x) && exists|id: u64|
                    picked@.take(i + 1).contains(id) && id != g.root && #[trigger] g.subtree(
                        id,
                    ).contains(x) by {
                    if was.contains(x) {
                        let k = choose|k: u64|
                            picked@.take(i as int).contains(k) && k != g.root
                                && #[trigger] g.subtree(k).contains(x);
                        assert(picked@.take(i + 1).contains(k));
                    }
                    if g.subtree(id).contains(x) && id != g.root {
                        assert(picked@.take(i + 1).contains(id));
                    }
                    if exists|k: u64|
                        picked@.take(i + 1).contains(k) && k != g.root && #[trigger] g.subtree(
                            k,
                        ).contains(x) {
                        let k = choose|k: u64|
                            picked@.take(i + 1).contains(k) && k != g.root && #[trigger] g.subtree(
                                k,
                            ).contains(x);
                        if picked@.take(i as int).contains(k) {
                            assert(was.contains(x) <==> g.has(x));
                        } else {
                            assert(k == id);
                        }
                    }
                }
            }
            i = i + 1;
        }
        doomed.remove(&self.root_id);
        proof {
            assert(picked@.take(i as int) =~= picked@);
            assert forall|x: u64| #[trigger] doomed@.contains(x) <==> g.doomed(
                picked@.to_set(),
            ).contains(x) by {
                if doomed@.contains(x) {
                    let k = choose|k: u64|
                        picked@.contains(k) && k != g.root && #[trigger] g.subtree(k).contains(x);
                    assert(picked@.to_set().contains(k));
                }
                if g.doomed(picked@.to_set()).contains(x) {
                    let k = choose|k: u64|
                        picked@.to_set().contains(k) && k != g.root && #[trigger] g.subtree(
                            k,
                        ).contains(x);
                    assert(picked@.contains(k));
                }
            }
            assert(doomed@ =~= g.doomed(picked@.to_set()));
        }
        doomed.len()
    }

    /// Whether `id` may be hung under `parent`. Refuses the root, a node's own
    /// current parent (nothing to do), itself, and anything inside its own
    /// subtree — that last one is what would turn the tree into a ring.
    pub fn can_reparent(&self, id: u64, parent: u64) -> (r: bool)
        ensures
            r == self@.may_hang(id, parent),
    {
        if id == self.root_id || id == parent {
            return false;
        }
        if !self.nodes.contains_key(&id) || !self.nodes.contains_key(&parent) {
            return false;
        }
        match self.parent_of(id) {
            Some(p) => {
                if p == parent {
                    return false;
                }
            },
            None => {},
        }
        let all = self.subtree_ids(id);
        let inside = ids::lookup(&all);
        assert(inside@ =~= self@.subtree(id));
        !inside.contains(&parent)
    }

    fn unlink(&mut self, id: u64)
        ensures
            final(self)@ == old(self)@.unlinked(id),
    {
        let ghost g = self@;
        let stale = self.edges_to(id);
        let mut i: usize = 0;
        assert(self@.edges =~= g.edges.remove_keys(stale@.take(0).to_set()));
        while i < stale.len()
            invariant
                i <= stale@.len(),
                self@ == (GraphModel {
                    edges: g.edges.remove_keys(stale@.take(i as int).to_set()),
                    ..g
                }),
            decreases stale@.len() - i,
        {
            let e: u64 = stale[i];
            let ghost before = self@.edges;
            self.edges.remove(&e);
            proof {
                assert(self@.edges =~= before.remove(e));
                ids::lemma_contains_push(stale@, i as int);
                assert(self@.edges =~= g.edges.remove_keys(stale@.take(i + 1).to_set()));
            }
            i = i + 1;
        }
        assert(stale@.take(i as int) =~= stale@);
        assert(stale@.to_set() =~= g.edges_into(id));
    }

    pub fn hang(&mut self, id: u64, parent: Option<u64>)
        ensures
            final(self)@ == old(self)@.hung(id, parent),
    {
        match self.nodes.remove(&id) {
            Some(node) => {
                let mut node = node;
                node.parent = parent;
                self.nodes.insert(id, node);
            },
            None => {},
        }
        assert(self@.nodes =~= old(self)@.hung(id, parent).nodes);
    }

    /// The label of the first edge into `id`, or none.
    fn label_to(&self, id: u64) -> (r: String)
        ensures
            r@ == self@.label_into(id),
    {
        let into = self.edges_to(id);
        proof {
            ids::lemma_least(into@, self@.edges_into(id));
        }
        if into.len() == 0 {
            return String::new();
        }
        assert(into@.contains(into@[0]));
        match self.edges.get(&into[0]) {
            Some(e) => e.label.clone(),
            None => String::new(),
        }
    }

    /// Hang `id` (and everything under it, which follows for free) under
    /// `parent`. Both halves of the tree are updated: the parent link and the
    /// edge that draws it.
    pub fn reparent(&mut self, id: u64, parent: u64) -> (r: bool)
        ensures
            r == old(self)@.may_hang(id, parent),
            final(self)@ == (if r {
                old(self)@.reparented(id, parent)
            } else {
                old(self)@
            }),
    {
        if !self.can_reparent(id, parent) {
            return false;
        }
        let label = self.label_to(id);
        // Drop the edge that described the old link before adding the new one.
        self.unlink(id);
        self.open_for_content(parent);
        self.hang(id, Some(parent));
        let ghost g = self@;
        match self.take_id() {
            Some(eid) => {
                self.edges.insert(eid, Edge { from: parent, to: id, label });
                assert(self@.edges =~= g.linked(eid, parent, id, label@).edges);
            },
            None => {},
        }
        true
    }

    /// Break a node's link to its parent, leaving it — and everything hanging off
    /// it — a floating root. Returns whether anything changed.
    pub fn detach(&mut self, id: u64) -> (r: bool)
        ensures
            r == (old(self)@.parent_of(id) is Some),
            final(self)@ == (if r {
                old(self)@.unlinked(id).hung(id, None)
            } else {
                old(self)@
            }),
    {
        if self.parent_of(id).is_none() {
            return false;
        }
        self.unlink(id);
        self.hang(id, None);
        true
    }

    /// Whether `id` has a grandparent — the node an outdent promotes it to.
    pub fn can_outdent(&self, id: u64) -> (r: bool)
        ensures
            r == (self@.ancestor(id, 2) is Some),
    {
        self.grandparent(id).is_some()
    }

    fn grandparent(&self, id: u64) -> (r: Option<u64>)
        ensures
            r == self@.ancestor(id, 2),
    {
        proof {
            reveal_with_fuel(GraphModel::ancestor, 3);
        }
        match self.parent_of(id) {
            Some(p) => self.parent_of(p),
            None => None,
        }
    }

    /// Promote `id` to sit beside its parent — reparent it to its grandparent.
    pub fn outdent(&mut self, id: u64) -> (r: bool)
        ensures
            ({
                let g = old(self)@;
                match g.ancestor(id, 2) {
                    Some(p) => r == g.may_hang(id, p) && final(self)@ == (if r {
                        g.reparented(id, p)
                    } else {
                        g
                    }),
                    None => !r && final(self)@ == g,
                }
            }),
    {
        match self.grandparent(id) {
            Some(p) => self.reparent(id, p),
            None => false,
        }
    }

    /// The nodes a drop would re-hang: the members of `picked` that are not
    /// already inside another member, so a branch and its own child dropped
    /// together do not fight over where the child ends up.
    pub fn reparent_roots(&self, picked: &Vec<u64>) -> (r: Vec<u64>)
        ensures
            r@.to_multiset() == picked@.filter(
                |id: u64| !self@.inside(id, picked@.to_set()),
            ).to_multiset(),
            forall|i: int, j: int| 0 <= i < j < r@.len() ==> r@[i] <= r@[j],
    {
        let ghost keep = |id: u64| !self@.inside(id, picked@.to_set());
        let set = ids::lookup(picked);
        let mut out: Vec<u64> = Vec::new();
        let mut i: usize = 0;
        proof {
            reveal(Seq::filter);
            assert(picked@.take(0).filter(keep) =~= Seq::<u64>::empty());
        }
        while i < picked.len()
            invariant
                i <= picked@.len(),
                set@ == picked@.to_set(),
                keep == (|id: u64| !self@.inside(id, picked@.to_set())),
                out@ == picked@.take(i as int).filter(keep),
            decreases picked@.len() - i,
        {
            let id: u64 = picked[i];
            proof {
                reveal(Seq::filter);
                assert(picked@.take(i + 1).drop_last() =~= picked@.take(i as int));
                assert(picked@.take(i + 1).last() == id);
            }
            if !self.is_inside(id, &set) {
                out.push(id);
            }
            i = i + 1;
        }
        assert(picked@.take(i as int) =~= picked@);
        ids::sort_ids(&mut out);
        out
    }

    fn is_inside(&self, id: u64, picked: &HashSet<u64>) -> (r: bool)
        ensures
            r == self@.inside(id, picked@),
    {
        let chain = self.ancestors(id);
        let ghost g = self@;
        let mut i: usize = 0;
        proof {
            assert(g.nodes.dom() =~= self.nodes@.dom());
            lemma_ancestry(g, id, g.nodes.dom().len());
            assert forall|a: u64| #[trigger] chain@.contains(a) <==> g.over(a, id) by {
                fold::lemma_over_near(g, id, a);
            }
        }
        while i < chain.len()
            invariant
                g == self@,
                i <= chain@.len(),
                forall|m: int| 0 <= m < i ==> !picked@.contains(#[trigger] chain@[m]),
                forall|a: u64| #[trigger] chain@.contains(a) <==> g.over(a, id),
            decreases chain@.len() - i,
        {
            if picked.contains(&chain[i]) {
                proof {
                    let a = chain@[i as int];
                    assert(chain@.contains(a));
                    assert(g.over(a, id));
                }
                return true;
            }
            i = i + 1;
        }
        proof {
            if g.inside(id, picked@) {
                let a = choose|a: u64| #[trigger] g.over(a, id) && picked@.contains(a);
                assert(chain@.contains(a));
                let m = choose|m: int| 0 <= m < chain@.len() && chain@[m] == a;
                assert(!picked@.contains(chain@[m]));
            }
        }
        false
    }
}

/// Past the last ancestor the ancestry holds nothing more.
proof fn lemma_ancestry_ends(g: GraphModel, id: u64, n: nat, m: nat)
    requires
        n <= m,
        n < m ==> g.ancestor(id, n + 1) is None,
    ensures
        g.ancestry(id, m) == g.ancestry(id, n),
    decreases m,
{
    if n < m {
        tree::lemma_ancestor_sum(g, id, n + 1, (m - n - 1) as nat);
        lemma_ancestry_ends(g, id, n, (m - 1) as nat);
    }
}

/// The ancestry of a node holds its nearest ancestors.
proof fn lemma_ancestry(g: GraphModel, id: u64, n: nat)
    ensures
        forall|a: u64| #[trigger]
            g.ancestry(id, n).contains(a) <==> g.ancestor_within(id, a, n),
    decreases n,
{
    if n > 0 {
        let m = (n - 1) as nat;
        lemma_ancestry(g, id, m);
        let was = g.ancestry(id, m);
        let now = g.ancestry(id, n);
        assert forall|a: u64| #[trigger] now.contains(a) <==> g.ancestor_within(id, a, n) by {
            if now.contains(a) {
                let k = choose|k: int| 0 <= k < now.len() && now[k] == a;
                if k < was.len() {
                    assert(was[k] == a);
                    assert(was.contains(a));
                    let j = choose|j: nat| 1 <= j <= m && #[trigger] g.ancestor(id, j) == Some(a);
                    assert(g.ancestor(id, j) == Some(a));
                } else {
                    assert(g.ancestor(id, n) == Some(a));
                }
            }
            if g.ancestor_within(id, a, n) {
                let j = choose|j: nat| 1 <= j <= n && #[trigger] g.ancestor(id, j) == Some(a);
                if j <= m {
                    assert(g.ancestor_within(id, a, m)) by {
                        assert(g.ancestor(id, j) == Some(a));
                    }
                    assert(was.contains(a));
                    let k = choose|k: int| 0 <= k < was.len() && was[k] == a;
                    assert(now[k] == a);
                } else {
                    assert(now[was.len() as int] == a);
                }
            }
        }
    }
}

} // verus!
