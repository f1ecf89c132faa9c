//! The selection over nodes, the cursor, and the edge whose label is being
//! looked at.
//!
//! Two selections live in a map and they must not be confused: the text selection
//! inside one label, and this one, over nodes. Every name here says `node`.

use std::collections::BTreeSet;
use vstd::prelude::*;
use crate::graph::model::{GraphModel, NodeModel};
use crate::graph::{Graph, Mode};
use crate::ids;

verus! {

broadcast use {vstd::std_specs::hash::group_hash_axioms, vstd::std_specs::btree::group_btree_axioms};

impl GraphModel {
    /// The cursor on `id`, off any edge, without touching the selection.
    pub open spec fn focus_kept(self, id: u64) -> GraphModel {
        if self.has(id) {
            (GraphModel { focus: id, edge_focus: None, ..self }).caret_at_end()
        } else {
            self
        }
    }

    /// The cursor on `id`, which is the whole selection.
    pub open spec fn focused_on(self, id: u64) -> GraphModel {
        if self.has(id) {
            (GraphModel { selected: set![id], ..self }).focus_kept(id)
        } else {
            self
        }
    }

    /// One node added to the selection or taken out. Taking out the cursor's node
    /// hands the cursor to the first that is left.
    pub open spec fn node_toggled(self, id: u64) -> GraphModel {
        if !self.has(id) {
            self
        } else if self.selected.contains(id) {
            let g = GraphModel { selected: self.selected.remove(id), ..self };
            match ids::least(g.selected) {
                Some(next) if id == self.focus => g.focus_kept(next),
                _ => g,
            }
        } else {
            (GraphModel { selected: self.selected.insert(id), ..self }).focus_kept(id)
        }
    }

    /// Another selection. The cursor goes to the first of it, unless it is on one
    /// of them already.
    pub open spec fn selection_set(self, picked: Set<u64>) -> GraphModel {
        let g = GraphModel { selected: picked.intersect(self.nodes.dom()), ..self };
        match ids::least(g.selected) {
            Some(first) if !g.selected.contains(self.focus) => g.focus_kept(first),
            _ => g,
        }
    }

    /// The nodes with the parent that `id` has.
    pub open spec fn siblings(self, id: u64) -> Set<u64> {
        self.nodes.dom().filter(|k: u64| self.nodes[k].parent == self.parent_of(id))
    }

    /// Every selected node in another colour.
    pub open spec fn coloured(self, color: Option<u8>) -> GraphModel {
        GraphModel {
            nodes: Map::new(
                |id: u64| self.has(id),
                |id: u64|
                    if self.selected.contains(id) {
                        NodeModel { color, ..self.nodes[id] }
                    } else {
                        self.nodes[id]
                    },
            ),
            ..self
        }
    }

    /// What a move of `picked` carries: a folded node takes what it hides along.
    pub open spec fn carried(self, picked: Set<u64>) -> Set<u64> {
        self.nodes.dom().filter(
            |id: u64|
                picked.contains(id) || exists|top: u64|
                    picked.contains(top) && self.collapsed(top) && #[trigger] self.subtree(
                        top,
                    ).contains(id),
        )
    }

    /// The edges that lead to `id`.
    pub open spec fn edges_into(self, id: u64) -> Set<u64> {
        self.edges.dom().filter(|e: u64| self.edges[e].to == id)
    }

    /// The edge `e` looked at, with the cursor on the node it leads to. Nothing
    /// is selected then.
    pub open spec fn edge_focused(self, e: u64) -> GraphModel {
        if self.edges.dom().contains(e) {
            let to = self.edges[e].to;
            (GraphModel {
                selected: Set::empty(),
                edge_focus: Some(e),
                focus: if self.has(to) {
                    to
                } else {
                    self.focus
                },
                ..self
            }).caret_at_end()
        } else {
            self
        }
    }

    /// Off any edge, back on the cursor's node and holding it.
    pub open spec fn edge_left(self) -> GraphModel {
        (GraphModel {
            edge_focus: None,
            selected: if self.focus_ok() {
                set![self.focus]
            } else {
                self.selected
            },
            ..self
        }).caret_at_end()
    }
}

impl Graph {
    /// The nodes a bulk operation acts on, in ascending order. Empty means empty:
    /// nothing is selected, and delete, drag and nudge must all do nothing.
    pub fn acting_on(&self) -> (r: Vec<u64>)
        ensures
            ids::lists(r@, self@.selected),
    {
        ids::members(&self.selected)
    }

    /// Put the keyboard cursor somewhere without touching the selection.
    pub fn set_cursor(&mut self, id: u64)
        ensures
            final(self)@ == (if old(self)@.has(id) {
                (GraphModel { focus: id, ..old(self)@ }).caret_at_end()
            } else {
                old(self)@
            }),
    {
        if self.nodes.contains_key(&id) {
            self.focused_id = id;
            self.caret_to_end();
        }
    }

    /// Let go of everything. The cursor stays where it is.
    pub fn deselect_all(&mut self) -> (had: bool)
        ensures
            had == (old(self)@.selected != Set::<u64>::empty()),
            final(self)@ == (GraphModel { selected: Set::empty(), ..old(self)@ }),
    {
        let had = !self.selected.is_empty();
        self.selected.clear();
        had
    }

    pub fn selected_nodes(&self) -> (r: &BTreeSet<u64>)
        ensures
            r@ == self@.selected,
    {
        &self.selected
    }

    pub fn is_node_selected(&self, id: u64) -> (r: bool)
        ensures
            r == self@.selected.contains(id),
    {
        self.selected.contains(&id)
    }

    /// Add or remove one node — ⇧-click. Removing the cursor's node hands the
    /// cursor to another member, so the arrows never start from nowhere.
    pub fn toggle_node_selected(&mut self, id: u64)
        ensures
            final(self)@ == old(self)@.node_toggled(id),
    {
        if !self.nodes.contains_key(&id) {
            return;
        }
        if self.selected.remove(&id) {
            let left = self.acting_on();
            proof {
                ids::lemma_least(left@, self@.selected);
            }
            if id == self.focused_id && left.len() > 0 {
                self.focus_keeping_selection(left[0]);
            }
        } else {
            self.selected.insert(id);
            self.focus_keeping_selection(id);
        }
    }

    /// Replace the whole selection — what a marquee lands on. An empty list
    /// really does mean nothing selected.
    pub fn set_node_selection(&mut self, picked: &Vec<u64>)
        ensures
            final(self)@ == old(self)@.selection_set(picked@.to_set()),
    {
        let mut kept: BTreeSet<u64> = BTreeSet::new();
        let mut i: usize = 0;
        while i < picked.len()
            invariant
                i <= picked@.len(),
                forall|x: u64| #[trigger]
                    kept@.contains(x) <==> picked@.take(i as int).contains(x) && self@.has(x),
            decreases picked@.len() - i,
        {
            let id: u64 = picked[i];
            if self.nodes.contains_key(&id) {
                kept.insert(id);
            }
            proof {
                ids::lemma_contains_push(picked@, i as int);
            }
            i = i + 1;
        }
        assert(picked@.take(i as int) =~= picked@);
        assert(kept@ =~= picked@.to_set().intersect(self@.nodes.dom()));
        self.selected = kept;
        let all = self.acting_on();
        proof {
            ids::lemma_least(all@, self@.selected);
        }
        if all.len() > 0 && !self.selected.contains(&self.focused_id) {
            self.focus_keeping_selection(all[0]);
        }
    }

    /// Add every node in `id`'s subtree to the selection.
    pub fn select_subtree_of(&mut self, id: u64)
        ensures
            final(self)@ == (if old(self)@.has(id) {
                (GraphModel {
                    selected: old(self)@.selected.union(old(self)@.subtree(id)),
                    ..old(self)@
                }).focus_kept(id)
            } else {
                old(self)@
            }),
    {
        let all = self.subtree_ids(id);
        if all.len() == 0 {
            proof {
                if self@.has(id) {
                    assert(self@.ancestor(id, 0) == Some(id));
                    assert(self@.subtree(id).contains(id));
                    assert(all@.contains(id));
                }
            }
            return;
        }
        proof {
            assert(all@.contains(all@[0]));
            assert(all@.to_set() =~= self@.subtree(id));
        }
        ids::add_all(&mut self.selected, &all);
        self.focus_keeping_selection(id);
    }

    /// The nodes sharing `id`'s parent, `id` included. Top-level nodes count the
    /// other roots as their siblings.
    pub fn siblings_of(&self, id: u64) -> (r: Vec<u64>)
        ensures
            ids::lists(r@, self@.siblings(id)),
    {
        let parent: Option<u64> = self.parent_of(id);
        let all = ids::sorted_keys(&self.nodes);
        let mut out: Vec<u64> = Vec::new();
        let mut i: usize = 0;
        while i < all.len()
            invariant
                i <= all@.len(),
                parent == self@.parent_of(id),
                ids::lists(all@, self.nodes@.dom()),
                ids::increasing(out@),
                forall|x: u64| #[trigger]
                    out@.contains(x) <==> all@.take(i as int).contains(x) && self@.siblings(
                        id,
                    ).contains(x),
            decreases all@.len() - i,
        {
            let k: u64 = all[i];
            let ghost before = out@;
            assert(all@.contains(k));
            let same = match (self.parent_of(k), parent) {
                (Some(a), Some(b)) => a == b,
                (None, None) => true,
                _ => false,
            };
            if same {
                out.push(k);
            }
            proof {
                ids::lemma_take(all@, i as int, before, out@, same);
            }
            i = i + 1;
        }
        assert(all@.take(all@.len() as int) =~= all@);
        out
    }

    /// Add every sibling of `id` to the selection, where it has any.
    pub fn select_siblings_of(&mut self, id: u64)
        ensures
            final(self)@ == (if old(self)@.siblings(id).len() >= 2 {
                (GraphModel {
                    selected: old(self)@.selected.union(old(self)@.siblings(id)),
                    ..old(self)@
                }).focus_kept(id)
            } else {
                old(self)@
            }),
    {
        let sibs = self.siblings_of(id);
        proof {
            ids::lemma_lists_len(sibs@, self@.siblings(id));
            assert(sibs@.to_set() =~= self@.siblings(id));
        }
        if sibs.len() < 2 {
            return;
        }
        ids::add_all(&mut self.selected, &sibs);
        self.focus_keeping_selection(id);
    }

    /// Move focus without disturbing the selection — the internal half of
    /// `focus`, which a plain click uses to reset both at once.
    pub fn focus_keeping_selection(&mut self, id: u64)
        ensures
            final(self)@ == old(self)@.focus_kept(id),
    {
        if self.nodes.contains_key(&id) {
            self.focused_id = id;
            self.focused_edge = None;
            self.caret_to_end();
        }
    }

    /// Go to one node and make it the whole selection — a plain click, and
    /// every keyboard navigation.
    pub fn focus(&mut self, id: u64)
        ensures
            final(self)@ == old(self)@.focused_on(id),
    {
        if self.nodes.contains_key(&id) {
            self.selected.clear();
            self.selected.insert(id);
            assert(self@.selected =~= set![id]);
            self.focus_keeping_selection(id);
        }
    }

    /// Tag every selected node with a colour, or clear it with `None`. Returns
    /// true if anything changed.
    pub fn set_color_of_selection(&mut self, color: Option<u8>) -> (changed: bool)
        ensures
            final(self)@ == old(self)@.coloured(color),
            changed == (exists|id: u64|
                old(self)@.selected.contains(id) && #[trigger] old(self)@.has(id)
                    && old(self)@.nodes[id].color != color),
    {
        let picked = self.acting_on();
        let ghost g = self@;
        let mut changed = false;
        let mut i: usize = 0;
        while i < picked.len()
            invariant
                i <= picked@.len(),
                ids::lists(picked@, g.selected),
                self@ == (GraphModel { nodes: self@.nodes, ..g }),
                self@.nodes.dom() == g.nodes.dom(),
                forall|id: u64| #[trigger]
                    g.has(id) ==> self@.nodes[id] == (if picked@.take(i as int).contains(id) {
                        NodeModel { color, ..g.nodes[id] }
                    } else {
                        g.nodes[id]
                    }),
                changed == (exists|id: u64|
                    picked@.take(i as int).contains(id) && #[trigger] g.has(id)
                        && g.nodes[id].color != color),
            decreases picked@.len() - i,
        {
            let id: u64 = picked[i];
            proof {
                ids::lemma_contains_push(picked@, i as int);
                assert(!picked@.take(i as int).contains(id)) by {
                    if picked@.take(i as int).contains(id) {
                        let k = choose|k: int| 0 <= k < i && picked@.take(i as int)[k] == id;
                        assert(picked@[k] < picked@[i as int]);
                    }
                }
            }
            match self.nodes.remove(&id) {
                Some(node) => {
                    assert(g.has(id));
                    assert(node@ == g.nodes[id]);
                    let mut node = node;
                    let same = match (node.color, color) {
                        (Some(a), Some(b)) => a == b,
                        (None, None) => true,
                        _ => false,
                    };
                    if !same {
                        node.color = color;
                        changed = true;
                    }
                    self.nodes.insert(id, node);
                },
                None => {},
            }
            assert(self@.nodes.dom() =~= g.nodes.dom());
            i = i + 1;
        }
        proof {
            assert(picked@.take(i as int) =~= picked@);
            assert(self@.nodes =~= g.coloured(color).nodes);
            if changed {
                let id = choose|id: u64|
                    picked@.contains(id) && #[trigger] g.has(id) && g.nodes[id].color != color;
                assert(g.selected.contains(id));
            }
        }
        changed
    }

    /// Put the caret's attention on an edge label without opening it. Selecting
    /// and editing are two steps for a node, and they are two steps here too.
    pub fn focus_edge(&mut self, edge_id: u64) -> (r: bool)
        ensures
            r == old(self)@.edges.dom().contains(edge_id),
            final(self)@ == old(self)@.edge_focused(edge_id),
    {
        match self.edges.get(&edge_id) {
            Some(e) => {
                let to: u64 = e.to;
                self.selected.clear();
                self.focused_edge = Some(edge_id);
                // Keep node focus on the edge's child so create still makes
                // sense.
                if self.nodes.contains_key(&to) {
                    self.focused_id = to;
                }
                self.caret_to_end();
                true
            },
            None => false,
        }
    }

    /// Drop edge focus without grabbing the node behind it — for clicking away
    /// onto empty ground, where the answer is "nothing", not "that node".
    pub fn clear_edge_focus_only(&mut self)
        ensures
            final(self)@ == (GraphModel { edge_focus: None, ..old(self)@ }).caret_at_end(),
    {
        self.focused_edge = None;
        self.caret_to_end();
    }

    /// Coming back off an edge lands you on its node, holding it.
    pub fn clear_edge_focus(&mut self)
        ensures
            final(self)@ == old(self)@.edge_left(),
    {
        self.focused_edge = None;
        if self.nodes.contains_key(&self.focused_id) {
            self.selected.clear();
            self.selected.insert(self.focused_id);
            assert(self@.selected =~= set![self@.focus]);
        }
        self.caret_to_end();
    }

    /// Move focus to parent of the focused node. Returns true if there is one.
    pub fn focus_parent(&mut self) -> (r: bool)
        ensures
            r == (old(self)@.parent_of(old(self)@.focus) is Some),
            final(self)@ == (match old(self)@.parent_of(old(self)@.focus) {
                Some(p) => (GraphModel { edge_focus: None, ..old(self)@ }).focused_on(p),
                None => GraphModel { edge_focus: None, ..old(self)@ },
            }),
    {
        let parent: Option<u64> = self.parent_of(self.focused_id);
        self.focused_edge = None;
        match parent {
            Some(p) => {
                self.focus(p);
                true
            },
            None => false,
        }
    }

    /// Edge connecting parent to focused node (if any). Lowest id wins, so that
    /// with two edges into one node the same label opens each time.
    pub fn edge_to_focused(&self) -> (r: Option<u64>)
        ensures
            r == ids::least(self@.edges_into(self@.focus)),
    {
        let into = self.edges_to(self.focused_id);
        proof {
            ids::lemma_least(into@, self@.edges_into(self@.focus));
        }
        if into.len() > 0 {
            Some(into[0])
        } else {
            None
        }
    }

    /// The edges that lead to `id`, in ascending order.
    pub fn edges_to(&self, id: u64) -> (r: Vec<u64>)
        ensures
            ids::lists(r@, self@.edges_into(id)),
    {
        let all = ids::sorted_keys(&self.edges);
        let mut out: Vec<u64> = Vec::new();
        let mut i: usize = 0;
        while i < all.len()
            invariant
                i <= all@.len(),
                ids::lists(all@, self.edges@.dom()),
                ids::increasing(out@),
                forall|x: u64| #[trigger]
                    out@.contains(x) <==> all@.take(i as int).contains(x) && self@.edges_into(
                        id,
                    ).contains(x),
            decreases all@.len() - i,
        {
            let e: u64 = all[i];
            let ghost before = out@;
            assert(all@.contains(e));
            let leads = match self.edges.get(&e) {
                Some(edge) => edge.to == id,
                None => false,
            };
            if leads {
                out.push(e);
            }
            proof {
                ids::lemma_take(all@, i as int, before, out@, leads);
            }
            i = i + 1;
        }
        assert(all@.take(all@.len() as int) =~= all@);
        out
    }

    /// Toggle edge-label edit on the edge into the focused node.
    pub fn toggle_edge_edit_on_focused(&mut self) -> (r: bool)
        ensures
            ({
                let g = old(self)@;
                match (g.edge_focus, ids::least(g.edges_into(g.focus))) {
                    (Some(e), _) => r && final(self)@ == g.edge_left(),
                    (None, Some(e)) => r && final(self)@ == (GraphModel {
                        mode: Mode::Edit,
                        ..g.edge_focused(e)
                    }).caret_at_end(),
                    (None, None) => !r && final(self)@ == g,
                }
            }),
    {
        if self.focused_edge.is_some() {
            self.clear_edge_focus();
            return true;
        }
        match self.edge_to_focused() {
            Some(e) => {
                proof {
                    let into = self@.edges_into(self@.focus);
                    let x = choose|x: u64| ids::least_of(into, x);
                    assert(ids::least_of(into, x));
                    assert(into.contains(e));
                }
                // The label was asked for, so this path does open it.
                self.focus_edge(e);
                self.enter_edit();
                true
            },
            None => false,
        }
    }
}

} // verus!
