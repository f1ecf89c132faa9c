//! The map: nodes in a tree, the edges that draw it, a cursor, a selection and
//! a caret.

pub mod keeps;
pub mod laws;
pub mod model;
mod edit;
pub mod edit_laws;
pub mod act_laws;
pub mod balance;
pub mod clip;
pub mod clip_laws;
pub mod deal;
pub mod demo;
pub mod depth;
pub mod find;
pub mod find_laws;
pub mod fold;
pub mod reorder;
pub mod sanitize;
mod select;
pub mod settled;
pub mod order;
pub mod outline;
pub mod outline_laws;
pub mod spatial;
pub mod stays;
pub mod structure;
pub mod tidy;
pub mod tidy_laws;
pub mod tree;

use std::collections::BTreeSet;
use std::collections::HashMap;
use vstd::prelude::*;
use vstd::utf8::*;
use vstd::string::StringSliceAdditionalSpecFns;
use crate::coord::Coord;
use crate::graph::model::{EdgeModel, GraphModel, ImageModel, NodeModel};

verus! {

broadcast use {vstd::std_specs::hash::group_hash_axioms, vstd::std_specs::btree::group_btree_axioms};

#[derive(Clone, Copy, Debug, PartialEq, Eq, Structural)]
pub enum Direction {
    Right,
    Left,
    Up,
    Down,
}

/// A node has no id of its own: the key it is stored under is its identity.
#[derive(Debug)]
pub struct Node {
    pub text: String,
    pub x: Coord,
    pub y: Coord,
    pub parent: Option<u64>,
    /// Folded: this node's descendants are not drawn, not hit-tested, not walked
    /// by the arrows and not laid out.
    pub collapsed: bool,
    /// A colour tag, one to six, or nothing for the plain ink default.
    pub color: Option<u8>,
    /// The picture this node shows instead of its text, if any.
    pub image: Option<NodeImage>,
}

/// A node's picture: which file in the store, and how big it is drawn.
#[derive(Debug)]
pub struct NodeImage {
    /// The file name in the store.
    pub name: String,
    pub w: Coord,
    pub h: Coord,
}

/// Likewise keyed by its id in `Graph::edges`.
#[derive(Debug)]
pub struct Edge {
    pub from: u64,
    pub to: u64,
    pub label: String,
}

/// What the user is currently editing / navigating.
#[derive(Clone, Copy, Debug, PartialEq, Eq, Structural)]
pub enum Selection {
    Node(u64),
    Edge(u64),
}

/// Whether the arrow keys move through the map or through the text.
#[derive(Clone, Copy, Debug, PartialEq, Eq, Structural)]
pub enum Mode {
    Browse,
    Edit,
}

impl View for NodeImage {
    type V = ImageModel;

    open spec fn view(&self) -> ImageModel {
        ImageModel { name: self.name@, w: self.w, h: self.h }
    }
}

impl View for Node {
    type V = NodeModel;

    open spec fn view(&self) -> NodeModel {
        NodeModel {
            text: self.text@,
            x: self.x,
            y: self.y,
            parent: self.parent,
            collapsed: self.collapsed,
            color: self.color,
            image: match self.image {
                Some(i) => Some(i@),
                None => None,
            },
        }
    }
}

impl View for Edge {
    type V = EdgeModel;

    open spec fn view(&self) -> EdgeModel {
        EdgeModel { from: self.from, to: self.to, label: self.label@ }
    }
}

pub struct Graph {
    pub next_id: u64,
    pub nodes: HashMap<u64, Node>,
    pub edges: HashMap<u64, Edge>,
    pub root_id: u64,
    /// The keyboard cursor.
    pub focused_id: u64,
    /// When set, typing edits the edge label instead of the node text.
    pub focused_edge: Option<u64>,
    /// Browse (arrows walk the map) or Edit (arrows walk the caret).
    pub mode: Mode,
    /// Caret position in the active text, as a byte offset.
    pub caret: usize,
    /// The fixed end of the selection, when there is one.
    pub anchor: Option<usize>,
    /// Nodes picked out for a bulk move or delete.
    pub selected: BTreeSet<u64>,
}

impl View for Graph {
    type V = GraphModel;

    open spec fn view(&self) -> GraphModel {
        GraphModel {
            next_id: self.next_id,
            nodes: self.nodes@.map_values(|n: Node| n@),
            edges: self.edges@.map_values(|e: Edge| e@),
            root: self.root_id,
            focus: self.focused_id,
            edge_focus: self.focused_edge,
            mode: self.mode,
            caret: self.caret,
            anchor: self.anchor,
            selected: self.selected@,
        }
    }
}

impl Clone for NodeImage {
    fn clone(&self) -> (r: NodeImage)
        ensures
            r == *self,
    {
        NodeImage { name: self.name.clone(), w: self.w, h: self.h }
    }
}

impl Clone for Node {
    fn clone(&self) -> (r: Node)
        ensures
            r == *self,
    {
        Node {
            text: self.text.clone(),
            x: self.x,
            y: self.y,
            parent: self.parent,
            collapsed: self.collapsed,
            color: self.color,
            image: match &self.image {
                Some(i) => Some(i.clone()),
                None => None,
            },
        }
    }
}

impl Clone for Edge {
    fn clone(&self) -> (r: Edge)
        ensures
            r == *self,
    {
        Edge { from: self.from, to: self.to, label: self.label.clone() }
    }
}

impl Clone for Graph {
    fn clone(&self) -> (r: Graph)
        ensures
            r@ == self@,
    {
        Graph {
            next_id: self.next_id,
            nodes: self.nodes.clone(),
            edges: self.edges.clone(),
            root_id: self.root_id,
            focused_id: self.focused_id,
            focused_edge: self.focused_edge,
            mode: self.mode,
            caret: self.caret,
            anchor: self.anchor,
            selected: self.selected.clone(),
        }
    }
}

impl Graph {
    /// A map of one node.
    pub fn new(root_text: &str) -> (g: Graph)
        ensures
            g@ == model::new_map(root_text@),
    {
        let caret: usize = root_text.as_bytes().len();
        let mut nodes: HashMap<u64, Node> = HashMap::new();
        nodes.insert(
            1,
            Node {
                text: root_text.to_owned(),
                x: Coord::zero(),
                y: Coord::zero(),
                parent: None,
                collapsed: false,
                color: None,
                image: None,
            },
        );
        let mut selected: BTreeSet<u64> = BTreeSet::new();
        // A map opens holding its root, so the first thing you see is what the
        // arrows will move.
        selected.insert(1);
        Graph {
            next_id: 2,
            nodes,
            edges: HashMap::new(),
            root_id: 1,
            focused_id: 1,
            focused_edge: None,
            mode: Mode::Browse,
            caret,
            anchor: None,
            selected,
        }
    }

    /// What the cursor is on: an edge's label or a node.
    pub fn selection(&self) -> (r: Selection)
        ensures
            r == self@.selection(),
    {
        match self.focused_edge {
            Some(e) => if self.edges.contains_key(&e) {
                Selection::Edge(e)
            } else {
                Selection::Node(self.focused_id)
            },
            None => Selection::Node(self.focused_id),
        }
    }

    /// The node the cursor is on, or the root.
    pub fn focused(&self) -> (r: &Node)
        requires
            self@.focus_ok() || self@.nodes.dom().contains(self@.root),
        ensures
            r@ == (if self@.focus_ok() {
                self@.nodes[self@.focus]
            } else {
                self@.nodes[self@.root]
            }),
    {
        match self.nodes.get(&self.focused_id) {
            Some(n) => n,
            None => self.nodes.get(&self.root_id).unwrap(),
        }
    }

    /// Text currently being edited (node text or edge label).
    pub fn active_text(&self) -> (r: &str)
        ensures
            r@ == self@.active_text(),
    {
        match self.selection() {
            Selection::Edge(e) => match self.edges.get(&e) {
                Some(edge) => edge.label.as_str(),
                None => "",
            },
            Selection::Node(n) => match self.nodes.get(&n) {
                Some(node) => node.text.as_str(),
                None => {
                    proof {
                        reveal_strlit("");
                    }
                    ""
                },
            },
        }
    }
}

} // verus!
