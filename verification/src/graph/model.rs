//! What a map is: its nodes, its edges, and what is being done with them.

use vstd::prelude::*;
use vstd::utf8::*;
use crate::ascii;
use crate::coord;
use crate::coord::Coord;
use crate::cursor;
use crate::graph::{Mode, Selection};
use crate::text;

verus! {

#[verifier::ext_equal]
pub struct ImageModel {
    pub name: Seq<char>,
    pub w: Coord,
    pub h: Coord,
}

#[verifier::ext_equal]
pub struct NodeModel {
    pub text: Seq<char>,
    pub x: Coord,
    pub y: Coord,
    pub parent: Option<u64>,
    pub collapsed: bool,
    pub color: Option<u8>,
    pub image: Option<ImageModel>,
}

#[verifier::ext_equal]
pub struct EdgeModel {
    pub from: u64,
    pub to: u64,
    pub label: Seq<char>,
}

#[verifier::ext_equal]
pub struct GraphModel {
    pub next_id: u64,
    pub nodes: Map<u64, NodeModel>,
    pub edges: Map<u64, EdgeModel>,
    pub root: u64,
    /// The keyboard cursor.
    pub focus: u64,
    /// The edge whose label is being looked at, if any.
    pub edge_focus: Option<u64>,
    pub mode: Mode,
    /// A byte offset into the active text.
    pub caret: usize,
    /// The fixed end of the text selection.
    pub anchor: Option<usize>,
    /// The nodes picked out for a bulk operation.
    pub selected: Set<u64>,
}

/// A node that holds nothing but its text and place.
pub open spec fn plain_node(text: Seq<char>, x: Coord, y: Coord, parent: Option<u64>) -> NodeModel {
    NodeModel { text, x, y, parent, collapsed: false, color: None, image: None }
}

/// A map of one node, which is selected.
pub open spec fn new_map(text: Seq<char>) -> GraphModel {
    GraphModel {
        next_id: 2,
        nodes: map![1u64 => plain_node(text, coord::spec_whole(0), coord::spec_whole(0), None)],
        edges: Map::empty(),
        root: 1,
        focus: 1,
        edge_focus: None,
        mode: Mode::Browse,
        caret: encode_utf8(text).len() as usize,
        anchor: None,
        selected: set![1u64],
    }
}

/// `text` with the bytes from `a` to `b` replaced.
pub open spec fn splice(text: Seq<char>, a: int, b: int, with: Seq<char>) -> Seq<char> {
    cursor::head(text, a) + with + cursor::tail(text, b)
}

/// The last boundary at or before `at`.
pub open spec fn clamped_offset(b: Seq<u8>, at: int) -> int
    decreases at,
{
    if at > b.len() {
        b.len() as int
    } else if at <= 0 || text::boundary(b, at) {
        at
    } else {
        clamped_offset(b, at - 1)
    }
}

/// The offset after the last line break before `at`.
pub open spec fn line_start_of(b: Seq<u8>, at: int) -> int
    decreases at,
{
    if at <= 0 {
        0
    } else if at <= b.len() && b[at - 1] == ascii::NEWLINE {
        at
    } else {
        line_start_of(b, at - 1)
    }
}

/// The offset of the first line break from `at` on, or the end.
pub open spec fn line_end_of(b: Seq<u8>, at: int) -> int
    decreases b.len() - at,
{
    if at < 0 || at >= b.len() {
        b.len() as int
    } else if b[at] == ascii::NEWLINE {
        at
    } else {
        line_end_of(b, at + 1)
    }
}

impl GraphModel {
    // ---- what is being edited ----------------------------------------------

    pub open spec fn selection(self) -> Selection {
        match self.edge_focus {
            Some(e) if self.edges.dom().contains(e) => Selection::Edge(e),
            _ => Selection::Node(self.focus),
        }
    }

    /// The text that the caret points into.
    pub open spec fn active_text(self) -> Seq<char> {
        match self.selection() {
            Selection::Edge(e) => self.edges[e].label,
            Selection::Node(n) => if self.nodes.dom().contains(n) {
                self.nodes[n].text
            } else {
                seq![]
            },
        }
    }

    pub open spec fn active_bytes(self) -> Seq<u8> {
        encode_utf8(self.active_text())
    }

    /// The map with another active text.
    pub open spec fn with_active_text(self, text: Seq<char>) -> GraphModel {
        match self.selection() {
            Selection::Edge(e) => GraphModel {
                edges: self.edges.insert(e, EdgeModel { label: text, ..self.edges[e] }),
                ..self
            },
            Selection::Node(n) => if self.nodes.dom().contains(n) {
                GraphModel {
                    nodes: self.nodes.insert(n, NodeModel { text, ..self.nodes[n] }),
                    ..self
                }
            } else {
                self
            },
        }
    }

    /// The cursor stands on a node.
    pub open spec fn focus_ok(self) -> bool {
        self.nodes.dom().contains(self.focus)
    }

    pub open spec fn caret_ok(self) -> bool {
        text::boundary(self.active_bytes(), self.caret as int)
    }

    pub open spec fn anchor_ok(self) -> bool {
        self.anchor matches Some(a) ==> text::boundary(self.active_bytes(), a as int)
    }

    /// The caret after the active text, with nothing selected in it.
    pub open spec fn caret_at_end(self) -> GraphModel {
        GraphModel { caret: self.active_bytes().len() as usize, anchor: None, ..self }
    }

    /// The caret inside the text and on a character boundary.
    pub open spec fn clamped(self) -> GraphModel {
        GraphModel { caret: clamped_offset(self.active_bytes(), self.caret as int) as usize, ..self }
    }

    /// The selected byte range.
    pub open spec fn selected_range(self) -> Option<(int, int)> {
        match self.anchor {
            Some(a) => if a < self.caret {
                Some((a as int, self.caret as int))
            } else if a > self.caret {
                Some((self.caret as int, a as int))
            } else {
                None
            },
            None => None,
        }
    }

    /// The active text with the bytes from `a` to `b` replaced.
    pub open spec fn spliced(self, a: int, b: int, with: Seq<char>) -> GraphModel {
        self.with_active_text(splice(self.active_text(), a, b, with))
    }

    /// The map after the text selection is taken out; unchanged without one.
    pub open spec fn selection_deleted(self) -> GraphModel {
        match self.selected_range() {
            Some((a, b)) => GraphModel {
                caret: a as usize,
                anchor: None,
                ..self.spliced(a, b, seq![])
            },
            None => self,
        }
    }

    /// Text typed or pasted at the caret, over the selection if there is one.
    pub open spec fn inserted(self, with: Seq<char>) -> GraphModel {
        let g = self.clamped().selection_deleted();
        GraphModel {
            caret: (g.caret + encode_utf8(with).len()) as usize,
            ..g.spliced(g.caret as int, g.caret as int, with)
        }
    }

    /// The caret moved to `at`, the selection dragged along or dropped. An anchor
    /// that the caret has walked back onto is not a selection.
    pub open spec fn caret_placed(self, at: int, extend: bool) -> GraphModel {
        let anchor = if extend {
            match self.anchor {
                Some(a) => a as int,
                None => self.caret as int,
            }
        } else {
            at
        };
        GraphModel {
            caret: at as usize,
            anchor: if anchor == at {
                None
            } else {
                Some(anchor as usize)
            },
            ..self
        }
    }

    /// A byte offset from outside, moved back to the start of the cluster it fell
    /// into.
    pub open spec fn snapped(self, at: int) -> int {
        let n = self.active_bytes().len() as int;
        if at >= n {
            n
        } else {
            cursor::cluster_at_or_before(self.active_text(), at)
        }
    }
}

} // verus!
