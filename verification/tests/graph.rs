//! The map: labels, the cursor, the tree, folding, layout and repair.

use std::collections::HashSet;
use mindmap::coord::Coord;
use mindmap::graph::clip::{Clip, ClipNode};
use mindmap::graph::tree::MAX_TIDY_DEPTH;
use mindmap::graph::{Direction, Edge, Graph, Node, NodeImage, Selection};

const SNAP: f32 = 20.0;
const TIDY_COL: f32 = 210.0;
const TIDY_ROW: f32 = NODE_HALF_H * 2.0 + MIN_GAP;
const NODE_HALF_W: f32 = 48.0;
const NODE_HALF_H: f32 = 13.0;
const MIN_GAP: f32 = 28.0;
const STEP_RIGHT: f32 = 160.0;
const STEP_DOWN: f32 = 56.0;

fn c(v: f32) -> Coord {
    Coord { bits: v.to_bits() }
}

fn f(v: Coord) -> f32 {
    f32::from_bits(v.bits)
}

fn boxes_intersect(a: (f32, f32), b: (f32, f32)) -> bool {
    let (w, h) = (NODE_HALF_W * 2.0 + MIN_GAP, NODE_HALF_H * 2.0 + MIN_GAP);
    let (ax, ay) = (a.0 - w / 2.0, a.1 - h / 2.0);
    let (bx, by) = (b.0 - w / 2.0, b.1 - h / 2.0);
    !(ax + w <= bx || bx + w <= ax || ay + h <= by || by + h <= ay)
}

/// A place near `desired` that is clear of what is in sight.
fn resolve(g: &Graph, desired: (f32, f32)) -> (f32, f32) {
    let hidden = g.hidden_set();
    let mut ids: Vec<u64> = g.nodes.keys().copied().filter(|id| !hidden.contains(id)).collect();
    ids.sort_unstable();
    let others: Vec<(f32, f32)> = ids.iter().map(|id| (f(g.nodes[id].x), f(g.nodes[id].y))).collect();
    let mut p = desired;
    for _ in 0..24 {
        let mut moved = false;
        for o in &others {
            if !boxes_intersect(p, *o) {
                continue;
            }
            let (dx, dy) = (p.0 - o.0, p.1 - o.1);
            let (min_dx, min_dy) = (NODE_HALF_W * 2.0 + MIN_GAP, NODE_HALF_H * 2.0 + MIN_GAP);
            if dx.abs() < 1e-4 && dy.abs() < 1e-4 {
                p.0 += min_dx;
                moved = true;
                continue;
            }
            let (pen_x, pen_y) = (min_dx - dx.abs(), min_dy - dy.abs());
            if pen_x > 0.0 && pen_y > 0.0 {
                if pen_x < pen_y {
                    p.0 += if dx >= 0.0 { pen_x } else { -pen_x };
                } else {
                    p.1 += if dy >= 0.0 { pen_y } else { -pen_y };
                }
                moved = true;
            }
        }
        if !moved {
            break;
        }
    }
    p
}

/// Where a child of `parent` goes.
fn place(g: &Graph, parent: u64, direction: Direction) -> (Coord, Coord) {
    let Some(p) = g.nodes.get(&parent) else {
        return (c(0.0), c(0.0));
    };
    let (px, py) = (f(p.x), f(p.y));
    let same_axis = g
        .children_of(parent)
        .iter()
        .filter(|id| {
            let (kx, ky) = (f(g.nodes[id].x), f(g.nodes[id].y));
            match direction {
                Direction::Right => kx > px + 20.0,
                Direction::Left => kx < px - 20.0,
                Direction::Up => ky < py - 20.0,
                Direction::Down => ky > py + 20.0,
            }
        })
        .count() as f32;
    let mut at = match direction {
        Direction::Right => (px + STEP_RIGHT, py),
        Direction::Left => (px - STEP_RIGHT, py),
        Direction::Up => (px, py - STEP_DOWN),
        Direction::Down => (px, py + STEP_DOWN),
    };
    match direction {
        Direction::Right | Direction::Left => at.1 += same_axis * (NODE_HALF_H * 2.0 + MIN_GAP),
        Direction::Up | Direction::Down => at.0 += same_axis * (NODE_HALF_W * 2.0 + MIN_GAP),
    }
    let (x, y) = resolve(g, at);
    (c(x), c(y))
}

/// Something at `v` carried along from one place to another.
fn carry(v: Coord, from: Coord, to: Coord) -> Coord {
    c(f(v) + (f(to) - f(from)))
}

fn clash(a: (Coord, Coord), b: (Coord, Coord)) -> bool {
    boxes_intersect((f(a.0), f(a.1)), (f(b.0), f(b.1)))
}

fn offset(v: Coord, from: Coord) -> Coord {
    c(f(v) - f(from))
}

fn sum(a: Coord, b: Coord) -> Coord {
    c(f(a) + f(b))
}

fn shift(dx: f32, dy: f32) -> impl Fn(Coord, Coord) -> (Coord, Coord) {
    move |x, y| (c(f(x) + dx), c(f(y) + dy))
}

fn x_of(g: &Graph, id: u64) -> f32 {
    f(g.nodes[&id].x)
}

fn y_of(g: &Graph, id: u64) -> f32 {
    f(g.nodes[&id].y)
}

fn hit_with(g: &Graph, wx: f32, wy: f32, half: impl Fn(u64, &Node) -> (f32, f32)) -> Option<u64> {
    g.hit_test_with(&|id: u64, n: &Node| {
        let (half_w, half_h) = half(id, n);
        let (half_w, half_h) = (half_w.max(6.0), half_h.max(4.0));
        let (dx, dy) = ((wx - f(n.x)).abs(), (wy - f(n.y)).abs());
        if dx <= half_w && dy <= half_h {
            Some(c(dx * dx + dy * dy))
        } else {
            None
        }
    })
}

/// A window measures shaped text; tests stand in a fixed half-width.
fn hit(g: &Graph, wx: f32, wy: f32, half_w: f32) -> Option<u64> {
    hit_with(g, wx, wy, |_, _| (half_w, NODE_HALF_H))
}

fn dist2(px: f32, py: f32, ax: f32, ay: f32, bx: f32, by: f32) -> f32 {
    let (dx, dy) = (bx - ax, by - ay);
    let len2 = dx * dx + dy * dy;
    let t = if len2 <= f32::EPSILON {
        0.0
    } else {
        (((px - ax) * dx + (py - ay) * dy) / len2).clamp(0.0, 1.0)
    };
    let (cx, cy) = (ax + t * dx, ay + t * dy);
    let (ex, ey) = (px - cx, py - cy);
    ex * ex + ey * ey
}

fn hit_edge(g: &Graph, wx: f32, wy: f32, radius: f32) -> Option<u64> {
    g.hit_test_edge_r(&|a: &Node, b: &Node| {
        let d2 = dist2(wx, wy, f(a.x), f(a.y), f(b.x), f(b.y));
        if d2 <= radius * radius {
            Some(c(d2))
        } else {
            None
        }
    })
}

fn in_rect(
    g: &Graph,
    x0: f32,
    y0: f32,
    x1: f32,
    y1: f32,
    half: impl Fn(u64, &Node) -> (f32, f32),
) -> Vec<u64> {
    let (lo_x, hi_x) = (x0.min(x1), x0.max(x1));
    let (lo_y, hi_y) = (y0.min(y1), y0.max(y1));
    g.nodes_in_rect(&|id: u64, n: &Node| {
        let (hw, hh) = half(id, n);
        let (x, y) = (f(n.x), f(n.y));
        x + hw >= lo_x && x - hw <= hi_x && y + hh >= lo_y && y - hh <= hi_y
    })
}

fn navigate(g: &mut Graph, direction: Direction) -> bool {
    let (cx, cy) = match g.nodes.get(&g.focused_id) {
        Some(n) => (f(n.x), f(n.y)),
        None => (0.0, 0.0),
    };
    let ahead = |_: u64, n: &Node| f(n.x) > cx + 8.0;
    let beside = |_: u64, n: &Node| {
        let dy = f(n.y) - cy;
        let ok = match direction {
            Direction::Up => dy < -4.0,
            Direction::Down => dy > 4.0,
            _ => false,
        };
        if ok {
            Some(c(dy.abs() + (f(n.x) - cx).abs() * 0.35))
        } else {
            None
        }
    };
    let toward = |_: u64, n: &Node| {
        let (dx, dy) = (f(n.x) - cx, f(n.y) - cy);
        let aligned = match direction {
            Direction::Right => dx > 8.0 && dx.abs() >= dy.abs() * 0.55,
            Direction::Left => dx < -8.0 && dx.abs() >= dy.abs() * 0.55,
            Direction::Up => dy < -8.0 && dy.abs() >= dx.abs() * 0.55,
            Direction::Down => dy > 8.0 && dy.abs() >= dx.abs() * 0.55,
        };
        if aligned {
            Some(c((dx * dx + dy * dy).sqrt()))
        } else {
            None
        }
    };
    g.navigate(direction, &ahead, &beside, &toward)
}

/// The extent of what is in sight, padded.
fn bounds_with(g: &Graph, half: impl Fn(u64, &Node) -> (f32, f32)) -> (f32, f32, f32, f32) {
    let hidden = g.hidden_set();
    let (mut x0, mut y0, mut x1, mut y1) = (f32::MAX, f32::MAX, f32::MIN, f32::MIN);
    for (&id, n) in &g.nodes {
        if hidden.contains(&id) {
            continue;
        }
        let (hw, hh) = half(id, n);
        let (hw, hh) = (hw.max(NODE_HALF_W * 0.5), hh.max(NODE_HALF_H));
        x0 = x0.min(f(n.x) - hw);
        x1 = x1.max(f(n.x) + hw);
        y0 = y0.min(f(n.y) - hh);
        y1 = y1.max(f(n.y) + hh);
    }
    (x0 - 60.0, y0 - 60.0, x1 + 60.0, y1 + 60.0)
}

#[test]
fn root_from_typed_text() {
    let mut g = Graph::new("");
    g.enter_edit();
    g.set_focused_text("hello".into());
    assert_eq!(g.focused().text, "hello");
    g.insert_char('!');
    assert_eq!(g.focused().text, "hello!");
    g.backspace();
    assert_eq!(g.focused().text, "hello");
}

#[test]
fn caret_inserts_and_deletes_in_the_middle() {
    let mut g = Graph::new("");
    g.enter_edit();
    for c in "hello".chars() {
        g.insert_char(c);
    }
    assert_eq!(g.caret(), 5);
    assert!(g.caret_left(false));
    assert!(g.caret_left(false));
    assert_eq!(g.caret(), 3);
    g.insert_char('X');
    assert_eq!(g.focused().text, "helXlo");
    assert_eq!(g.caret(), 4, "caret follows what it inserted");
    g.backspace();
    assert_eq!(g.focused().text, "hello");
    g.delete_forward();
    assert_eq!(g.focused().text, "helo", "forward delete takes what is ahead");
    assert_eq!(g.caret(), 3, "forward delete leaves the caret put");
}

#[test]
fn caret_stops_at_both_ends() {
    let mut g = Graph::new("ab");
    g.enter_edit();
    assert_eq!(g.caret(), 2);
    assert!(!g.caret_right(false), "cannot walk off the end");
    assert!(g.caret_left(false) && g.caret_left(false));
    assert_eq!(g.caret(), 0);
    assert!(!g.caret_left(false), "cannot walk off the start");
    g.backspace();
    assert_eq!(g.focused().text, "ab", "backspace at 0 is a no-op");
    g.delete_forward();
    assert_eq!(g.focused().text, "b");
}

#[test]
fn caret_moves_and_deletes_by_word() {
    let mut g = Graph::new("ship the whole thing");
    g.enter_edit();
    assert!(g.caret_word_left(false));
    assert_eq!(g.caret(), 15, "start of \"thing\"");
    assert!(g.caret_word_left(false));
    assert_eq!(g.caret(), 9, "start of \"whole\"");
    assert!(g.caret_word_right(false));
    assert_eq!(g.caret(), 14, "end of \"whole\"");
    g.caret_end(false);
    g.delete_word_left();
    assert_eq!(g.focused().text, "ship the whole ");
    g.caret_home(false);
    assert_eq!(g.caret(), 0);
    assert!(!g.caret_word_left(false));
}

#[test]
fn shift_arrows_extend_and_unextended_ones_collapse() {
    let mut g = Graph::new("hello there");
    g.enter_edit();
    g.caret_home(false);
    assert_eq!(g.selected_range(), None);

    assert!(g.caret_right(true) && g.caret_right(true));
    assert_eq!(g.selected_text(), Some("he"), "⇧→ grows from the anchor");
    assert!(g.caret_left(true));
    assert_eq!(g.selected_text(), Some("h"), "⇧← shrinks from the same anchor");
    assert!(g.caret_left(true));
    assert_eq!(g.selected_range(), None, "back on the anchor is not a selection");

    g.caret_word_right(true);
    assert_eq!(g.selected_text(), Some("hello"));
    assert!(g.caret_left(false));
    assert_eq!(g.caret(), 0, "← lands on the left edge, not one back from the caret");
    assert_eq!(g.selected_range(), None);

    g.caret_word_right(true);
    assert!(g.caret_right(false));
    assert_eq!(g.caret(), 5, "→ lands on the right edge");
}

#[test]
fn a_selection_is_replaced_by_whatever_comes_next() {
    let mut g = Graph::new("hello there");
    g.enter_edit();
    g.caret_home(false);
    g.caret_word_right(true);

    g.insert_char('h');
    assert_eq!(g.focused().text, "h there", "typing replaces it");
    assert_eq!(g.caret(), 1);
    assert_eq!(g.selected_range(), None);

    g.select_all();
    g.insert_str("pasted");
    assert_eq!(g.focused().text, "pasted", "paste replaces it too");

    g.select_all();
    g.backspace();
    assert_eq!(g.focused().text, "", "one backspace takes the whole selection");
}

#[test]
fn backspace_over_a_selection_takes_only_the_selection() {
    let mut g = Graph::new("abcd");
    g.enter_edit();
    g.set_caret(3);
    assert!(g.caret_left(true));
    assert_eq!(g.selected_text(), Some("c"));
    g.backspace();
    assert_eq!(g.focused().text, "abd");
    assert_eq!(g.caret(), 2);
}

#[test]
fn double_click_takes_the_word_under_the_pointer() {
    let mut g = Graph::new("ship the whole thing");
    g.enter_edit();
    assert!(g.select_word_at(6));
    assert_eq!(g.selected_text(), Some("the"));
    g.select_word_at(4);
    assert_eq!(g.selected_text(), Some("ship"));
    g.select_word_at(20);
    assert_eq!(g.selected_text(), Some("thing"));
    g.set_focused_text("  lead".into());
    g.select_word_at(0);
    assert_eq!(g.selected_text(), Some("lead"));
}

#[test]
fn select_all_is_empty_on_an_empty_label() {
    let mut g = Graph::new("");
    g.enter_edit();
    assert!(!g.select_all(), "nothing to select");
    assert_eq!(g.selected_range(), None);
}

#[test]
fn leaving_edit_drops_the_selection() {
    let mut g = Graph::new("hello");
    g.enter_edit();
    g.select_all();
    assert!(g.selected_range().is_some());
    g.leave_edit();
    assert_eq!(g.selected_range(), None, "no band behind a node you only browse");
}

#[test]
fn moving_to_other_text_drops_the_selection() {
    let mut g = Graph::new("root");
    let child = g.create_from_focused(Direction::Right, "child", &place).unwrap();
    g.enter_edit();
    g.select_all();
    g.focus(g.root_id);
    assert_eq!(g.selected_range(), None, "the anchor belonged to the other node");
    g.focus(child);
    g.enter_edit();
    g.select_all();
    let eid = g.edge_to_focused().unwrap();
    g.focus_edge(eid);
    assert_eq!(g.selected_range(), None, "...and again crossing to an edge label");
}

#[test]
fn set_caret_lands_on_a_grapheme_boundary() {
    let mut g = Graph::new("e\u{301}\u{1F1F3}\u{1F1F1}x");
    g.enter_edit();
    assert!(g.set_caret(0));
    assert_eq!(g.caret(), 0);
    g.set_caret(1);
    assert_eq!(g.caret(), 0, "mid-accent snaps to the cluster start");
    g.set_caret(7);
    assert_eq!(g.caret(), 3, "mid-flag snaps to the cluster start");
    g.set_caret(11);
    assert_eq!(g.caret(), 11, "the start of the trailing \"x\"");
    assert!(g.set_caret(99), "past the end clamps to the end");
    assert_eq!(g.caret(), 12);
    g.insert_char('!');
    assert_eq!(g.focused().text, "e\u{301}\u{1F1F3}\u{1F1F1}x!");
}

#[test]
fn set_caret_addresses_the_active_text() {
    let mut g = Graph::new("root");
    g.create_from_focused(Direction::Right, "child", &place);
    let eid = g.edge_to_focused().unwrap();
    g.focus_edge(eid);
    g.enter_edit();
    g.set_focused_text("because".into());
    g.set_caret(3);
    assert_eq!(g.caret(), 3);
    g.insert_char('-');
    assert_eq!(g.edges[&eid].label, "bec-ause", "the edge label, not the node");
}

#[test]
fn editing_is_grapheme_safe() {
    let mut g = Graph::new("");
    g.enter_edit();
    let decomposed = "e\u{301}";
    for c in decomposed.chars() {
        g.insert_char(c);
    }
    g.insert_char('x');
    assert_eq!(g.focused().text, format!("{decomposed}x"));
    g.backspace();
    assert_eq!(g.focused().text, decomposed);
    g.backspace();
    assert_eq!(g.focused().text, "", "the accent went with its letter");

    for c in "👍🏽!".chars() {
        g.insert_char(c);
    }
    g.backspace();
    g.backspace();
    assert_eq!(g.focused().text, "", "skin tone went with the thumb");
}

#[test]
fn caret_follows_the_active_text() {
    let mut g = Graph::new("root");
    let child = g.create_from_focused(Direction::Right, "child", &place).unwrap();
    g.enter_edit();
    g.caret_home(false);
    assert_eq!(g.caret(), 0);
    g.focus(g.root_id);
    assert_eq!(g.caret(), 4, "end of \"root\"");
    g.focus(child);
    assert_eq!(g.caret(), 5, "end of \"child\"");
}

#[test]
fn directional_creates() {
    let mut g = Graph::new("root");
    let r = g.create_from_focused(Direction::Right, "R", &place).unwrap();
    assert!(x_of(&g, r) > 0.0);
    g.focus(g.root_id);
    let u = g.create_from_focused(Direction::Up, "U", &place).unwrap();
    assert!(y_of(&g, u) < 0.0);
    g.focus(g.root_id);
    let d = g.create_from_focused(Direction::Down, "D", &place).unwrap();
    assert!(y_of(&g, d) > 0.0);
    assert_eq!(g.nodes.len(), 4);
    assert_eq!(g.edges.len(), 3);
}

#[test]
fn no_overlap_multi_child() {
    let mut g = Graph::new("root");
    g.create_from_focused(Direction::Right, "a", &place);
    g.focus(g.root_id);
    g.create_from_focused(Direction::Right, "b", &place);
    g.focus(g.root_id);
    g.create_from_focused(Direction::Up, "u", &place);
    g.focus(g.root_id);
    g.create_from_focused(Direction::Down, "d", &place);
    g.focus(g.root_id);
    g.create_from_focused(Direction::Right, "c", &place);
    assert!(!g.has_overlapping_nodes(&clash));
}

#[test]
fn demo_no_overlap() {
    let g = Graph::demo(&place, &carry);
    assert!(!g.is_editing(), "a map is handed over in Browse");
    assert!(!g.has_overlapping_nodes(&clash));
    assert!(g.nodes.len() >= 5);
}

#[test]
fn browse_mode_is_read_only() {
    let mut g = Graph::new("x");
    assert!(!g.is_editing(), "a map opens in Browse");
    g.insert_char('z');
    assert_eq!(g.focused().text, "x", "typing is gated on Edit");
    g.set_focused_text("wiped".into());
    assert_eq!(g.focused().text, "x");
    g.backspace();
    assert_eq!(g.focused().text, "x");
    g.delete_forward();
    assert_eq!(g.focused().text, "x");
    g.focus(g.root_id);
    assert!(!g.is_editing());
    g.enter_edit();
    g.insert_char('z');
    assert_eq!(g.focused().text, "xz");
    g.leave_edit();
    g.insert_char('q');
    assert_eq!(g.focused().text, "xz", "leaving Edit closes the door again");
}

#[test]
fn create_clears_edge_selection() {
    let mut g = Graph::new("root");
    let child = g.create_from_focused(Direction::Right, "child", &place).unwrap();
    let eid = g.edge_to_focused().unwrap();
    assert!(g.focus_edge(eid));
    assert_eq!(g.selection(), Selection::Edge(eid));
    let grand = g.create_from_focused(Direction::Right, "grand", &place).unwrap();
    assert_eq!(g.selection(), Selection::Node(grand));
    assert!(g.focused_edge.is_none());
    g.insert_char('!');
    assert_eq!(g.nodes[&grand].text, "grand!");
    assert_eq!(g.edges[&eid].label, "");
    assert_eq!(g.nodes[&child].text, "child");
}

/// Nodes are keyed by id, so a test that knows a label looks it up.
fn by_text(g: &Graph, text: &str) -> u64 {
    g.nodes
        .iter()
        .find(|(_, n)| n.text == text)
        .map(|(&id, _)| id)
        .unwrap_or_else(|| panic!("no node labelled {text:?}"))
}


#[test]
fn hit_box_follows_the_width_it_is_given() {
    let mut g = Graph::new("root");
    g.enter_edit();
    g.set_focused_text("a-very-long-mind-map-node-title".into());
    let id = g.focused_id;
    let n = &g.nodes[&id];
    let (x, y) = (f(n.x), f(n.y));
    assert_eq!(hit(&g, x + 40.0, y, 60.0), Some(id), "inside a wide box");
    assert_eq!(hit(&g, x + 40.0, y, 20.0), None, "outside a narrow one");
}

#[test]
fn focus_parent_and_siblings_enable_branching() {
    let mut g = Graph::new("root");
    let root = g.root_id;
    let a = g.create_from_focused(Direction::Right, "a", &place).unwrap();
    assert_eq!(g.focused_id, a);
    assert!(g.focus_parent());
    assert_eq!(g.focused_id, root);
    let b = g.create_from_focused(Direction::Right, "b", &place).unwrap();
    assert_eq!(g.focused_id, b);
    assert_eq!(g.nodes[&a].parent, Some(root));
    assert_eq!(g.nodes[&b].parent, Some(root));
    let root_kids = g.children_of(root);
    assert_eq!(root_kids.len(), 2);
    assert!(root_kids.contains(&a) && root_kids.contains(&b));
    assert!(g.focus_sibling(-1));
    assert_eq!(g.focused_id, a);
    assert!(g.focus_sibling(1));
    assert_eq!(g.focused_id, b);
    g.focus(a);
    let c = g.create_from_focused(Direction::Right, "c", &place).unwrap();
    assert_eq!(g.nodes[&c].parent, Some(a));
    assert!(!g.has_overlapping_nodes(&clash));
}

#[test]
fn hit_test_selects_node() {
    let mut g = Graph::new("root");
    let r = g.create_from_focused(Direction::Right, "child", &place).unwrap();
    let child = &g.nodes[&r];
    let (x, y) = (f(child.x), f(child.y));
    assert_eq!(hit(&g, x, y, 48.0), Some(r));
    assert_eq!(hit(&g, 9999.0, 9999.0, 48.0), None);
}

/// Built here rather than from `demo()` so a nicer demo seed can't silently
/// change what "arrow keys navigate" is asserting.
fn nav_fixture() -> Graph {
    let mut g = Graph::new("root");
    let root = g.root_id;
    g.create_child(root, Direction::Right, "ideas", &place);
    g.create_child(root, Direction::Up, "goals", &place);
    g.create_child(root, Direction::Down, "notes", &place);
    let ideas = by_text(&g, "ideas");
    g.create_child(ideas, Direction::Right, "ship", &place);
    g.focus(root);
    g
}

#[test]
fn arrows_navigate_through_nodes() {
    let mut g = nav_fixture();
    let root = g.root_id;
    assert!(navigate(&mut g, Direction::Right));
    let ideas = g.focused_id;
    assert_eq!(g.nodes[&ideas].text, "ideas");
    assert!(navigate(&mut g, Direction::Right));
    assert_eq!(g.focused().text, "ship");
    assert!(navigate(&mut g, Direction::Left));
    assert_eq!(g.focused().text, "ideas");
    assert!(navigate(&mut g, Direction::Left));
    assert_eq!(g.focused_id, root);
    assert!(navigate(&mut g, Direction::Up));
    assert_eq!(g.focused().text, "goals");
    assert!(navigate(&mut g, Direction::Down));
    assert_ne!(g.focused().text, "goals");
    g.focus(root);
    assert!(navigate(&mut g, Direction::Down));
    assert_eq!(g.focused().text, "notes");
    assert!(navigate(&mut g, Direction::Left));
    assert_eq!(g.focused_id, root);
}

#[test]
fn clicking_away_leaves_you_holding_nothing() {
    let mut g = nav_fixture();
    let ideas = by_text(&g, "ideas");
    g.focus(ideas);
    assert_eq!(g.acting_on(), vec![ideas], "a click picks that node");

    assert!(g.deselect_all());
    assert!(g.acting_on().is_empty(), "delete and drag now have no subject");
    assert!(!g.deselect_all(), "already empty");

    assert_eq!(g.focused_id, ideas);
    assert!(navigate(&mut g, Direction::Left));
    assert_eq!(g.acting_on(), vec![g.root_id], "navigating picks up again");
}

#[test]
fn shift_click_adds_and_removes() {
    let mut g = nav_fixture();
    let ideas = by_text(&g, "ideas");
    let notes = by_text(&g, "notes");
    let goals = by_text(&g, "goals");
    g.focus(ideas);

    g.toggle_node_selected(notes);
    assert_eq!(g.acting_on(), sorted(vec![ideas, notes]));
    assert_eq!(g.focused_id, notes, "the cursor follows what you just added");

    g.toggle_node_selected(goals);
    assert_eq!(g.acting_on(), sorted(vec![ideas, notes, goals]));

    g.toggle_node_selected(goals);
    assert_eq!(g.acting_on(), sorted(vec![ideas, notes]));
    assert!(g.nodes.contains_key(&g.focused_id));

    g.toggle_node_selected(notes);
    assert_eq!(g.acting_on(), vec![ideas], "one node is still a selection");
    g.toggle_node_selected(ideas);
    assert!(g.acting_on().is_empty(), "⇧-clicking the last one lets go of it");
}

#[test]
fn a_plain_focus_resets_the_selection() {
    let mut g = nav_fixture();
    let ideas = by_text(&g, "ideas");
    let notes = by_text(&g, "notes");
    g.focus(ideas);
    g.toggle_node_selected(notes);
    assert_eq!(g.acting_on().len(), 2);
    g.focus(ideas);
    assert_eq!(g.acting_on(), vec![ideas], "clicking one node picks one node");
}

#[test]
fn a_marquee_replaces_the_selection_and_an_empty_one_clears_it() {
    let mut g = nav_fixture();
    let ideas = by_text(&g, "ideas");
    let notes = by_text(&g, "notes");
    let goals = by_text(&g, "goals");
    g.set_node_selection(&vec![ideas, notes, goals]);
    assert_eq!(g.acting_on(), sorted(vec![ideas, notes, goals]));
    g.set_node_selection(&vec![notes]);
    assert_eq!(g.acting_on(), vec![notes]);
    assert_eq!(g.focused_id, notes, "the cursor moves into the selection");
    g.set_node_selection(&Vec::new());
    assert!(g.acting_on().is_empty());
    assert_eq!(g.focused_id, notes, "but the cursor stays put");
}

#[test]
fn a_marquee_ignores_ids_that_are_not_there() {
    let mut g = nav_fixture();
    let ideas = by_text(&g, "ideas");
    let notes = by_text(&g, "notes");
    g.set_node_selection(&vec![ideas, notes, 9999]);
    assert_eq!(g.acting_on(), sorted(vec![ideas, notes]));
}

#[test]
fn deleting_a_selection_counts_each_node_once() {
    let mut g = nav_fixture();
    let ideas = by_text(&g, "ideas");
    let ship = by_text(&g, "ship");
    let notes = by_text(&g, "notes");
    g.set_node_selection(&vec![ideas, ship, notes]);
    let n = g.nodes.len();
    assert_eq!(g.delete_selection_of_nodes(), 3);
    assert_eq!(g.nodes.len(), n - 3);
    assert!(g.selected_nodes().is_empty());
    assert!(
        g.edges.values().all(|e| g.nodes.contains_key(&e.from)
            && g.nodes.contains_key(&e.to)),
        "no dangling edges"
    );
}

#[test]
fn deleting_a_selection_that_holds_the_root_keeps_the_root() {
    let mut g = nav_fixture();
    let notes = by_text(&g, "notes");
    g.set_node_selection(&vec![g.root_id, notes]);
    assert_eq!(g.delete_selection_of_nodes(), 1);
    assert!(g.nodes.contains_key(&g.root_id));
    assert!(!g.nodes.contains_key(&notes));
}

#[test]
fn a_rectangle_picks_up_the_nodes_inside_it() {
    let mut g = Graph::new("root");
    let a = g.create_child(g.root_id, Direction::Right, "a", &place).unwrap();
    g.nodes.get_mut(&a).unwrap().x = c(500.0);
    g.nodes.get_mut(&a).unwrap().y = c(500.0);
    let hw = |_: u64, _: &Node| (40.0, NODE_HALF_H);
    assert_eq!(in_rect(&g, 400.0, 400.0, 600.0, 600.0, hw), vec![a]);
    assert_eq!(in_rect(&g, 600.0, 600.0, 400.0, 400.0, hw), vec![a]);
    assert!(in_rect(&g, -500.0, -500.0, -450.0, -450.0, hw).is_empty());
    assert!(in_rect(&g, -10.0, -10.0, -5.0, -5.0, hw).contains(&g.root_id));
}

#[test]
fn a_selection_cannot_outlive_the_nodes_it_names() {
    let mut g = nav_fixture();
    let ideas = by_text(&g, "ideas");
    let notes = by_text(&g, "notes");
    g.set_node_selection(&vec![ideas, notes]);
    g.nodes.remove(&notes);
    g.sanitize();
    assert_eq!(g.acting_on(), vec![ideas], "the dead id is gone, the live one stays");
    assert!(g.nodes.contains_key(&g.focused_id));
}

fn sorted(mut v: Vec<u64>) -> Vec<u64> {
    v.sort_unstable();
    v
}

#[test]
fn a_nodes_hit_target_follows_its_own_ring_height() {
    let g = Graph::new("root");
    let root = g.root_id;
    let tall = |_: u64, _: &Node| (40.0, 30.0);
    let short = |_: u64, _: &Node| (40.0, 8.0);
    let just_below = (0.0, 20.0);
    assert_eq!(
        hit_with(&g, just_below.0, just_below.1, tall),
        Some(root),
        "inside a tall ring"
    );
    assert_eq!(
        hit_with(&g, just_below.0, just_below.1, short),
        None,
        "outside a short one"
    );
    let (_, y0, _, y1) = bounds_with(&g, tall);
    assert!(y1 - y0 >= 60.0, "the fit accounts for the height it was given");
}

#[test]
fn find_matches_on_any_part_of_a_label_ignoring_case() {
    let g = nav_fixture();
    let ship = by_text(&g, "ship");
    assert_eq!(g.find("SHIP"), vec![ship], "case does not matter");
    assert_eq!(g.find("hi"), vec![ship], "nor does matching mid-word");
    assert!(g.find("").is_empty(), "an empty query matches nothing, not everything");
    assert!(g.find("   ").is_empty());
    assert!(g.find("nothing here").is_empty());
    assert_eq!(g.find("o"), {
        let mut v = g.find("o");
        v.sort_unstable();
        v
    });
}

#[test]
fn find_reaches_into_a_folded_branch_and_reveals_it() {
    let mut g = nav_fixture();
    let ideas = by_text(&g, "ideas");
    let ship = by_text(&g, "ship");
    g.toggle_collapsed(ideas);
    assert!(g.is_hidden(ship));

    assert_eq!(g.find("ship"), vec![ship]);
    assert!(g.reveal_node(ship), "going to it unfolds what was hiding it");
    assert!(!g.is_hidden(ship));
    assert!(!g.is_collapsed(ideas));
    assert!(!g.reveal_node(ship), "nothing left to unfold");
}

#[test]
fn folding_hides_the_branch_from_everything_that_looks_at_the_map() {
    let mut g = nav_fixture();
    let ideas = by_text(&g, "ideas");
    let ship = by_text(&g, "ship");

    assert!(g.toggle_collapsed(ideas));
    assert!(g.is_collapsed(ideas));
    assert!(g.is_hidden(ship), "the child is folded away");
    assert!(!g.is_hidden(ideas), "but the node you fold stays visible");
    assert!(g.hidden_set().contains(&ship));
    assert_eq!(g.hidden_count(ideas), 1);

    let hw = |_: u64, _: &Node| (40.0, NODE_HALF_H);
    let (sx, sy) = (x_of(&g, ship), y_of(&g, ship));
    assert_eq!(hit_with(&g, sx, sy, hw), None);
    assert!(!in_rect(&g, sx - 60.0, sy - 60.0, sx + 60.0, sy + 60.0, hw).contains(&ship));
    let (x0, _, x1, _) = bounds_with(&g, hw);
    assert!(x1 - x0 > 0.0);

    assert!(g.toggle_collapsed(ideas));
    assert!(!g.is_hidden(ship));
    assert_eq!(hit_with(&g, sx, sy, hw), Some(ship));
}

#[test]
fn tidy_does_not_tear_a_folded_branch_off_its_parent() {
    let mut g = nav_fixture();
    let ideas = by_text(&g, "ideas");
    let ship = by_text(&g, "ship");
    g.toggle_collapsed(ideas);
    g.tidy(&carry);

    let (ix, iy) = (x_of(&g, ideas), y_of(&g, ideas));
    let (sx, sy) = (x_of(&g, ship), y_of(&g, ship));
    assert!(
        (sx - ix).abs() < TIDY_COL * 2.0 && (sy - iy).abs() < TIDY_ROW * 4.0,
        "the hidden child stayed with its parent: parent ({ix},{iy}) child ({sx},{sy})"
    );
    g.toggle_collapsed(ideas);
    assert!(!g.is_hidden(ship));
}

#[test]
fn tidy_leaves_a_folded_root_and_free_nodes_alone() {
    let mut g = nav_fixture();
    g.toggle_collapsed(g.root_id);
    g.tidy(&carry);
    let xs: HashSet<i32> = g.nodes.values().map(|n| f(n.x) as i32).collect();
    assert!(xs.len() > 1, "the folded map kept its shape, not one column");

    let mut g = Graph::new("root");
    let free = g.create_free_node(c(400.0), c(-300.0)).expect("a node");
    g.leave_edit();
    g.tidy(&carry);
    assert_eq!(
        (x_of(&g, free), y_of(&g, free)),
        (400.0, -300.0),
        "a node you placed by hand stays where you put it"
    );
}

#[test]
fn moving_a_folded_node_carries_what_it_hides() {
    let mut g = nav_fixture();
    let ideas = by_text(&g, "ideas");
    let ship = by_text(&g, "ship");
    g.toggle_collapsed(ideas);
    let before = x_of(&g, ship);
    g.focus(ideas);
    assert!(g.move_selection_by(&shift(300.0, 0.0)));
    assert_eq!(x_of(&g, ship), before + 300.0);
}

#[test]
fn nothing_puts_the_cursor_inside_a_folded_branch() {
    let mut g = nav_fixture();
    let ideas = by_text(&g, "ideas");

    g.toggle_collapsed(ideas);
    g.focus(ideas);
    let child = g.create_from_focused(Direction::Right, "", &place).expect("a child");
    assert!(!g.is_hidden(child), "creating opened the fold");
    assert!(!g.is_collapsed(ideas));

    g.toggle_collapsed(ideas);
    let clip = g.copy_subtrees(&vec![by_text(&g, "notes")], &offset).unwrap();
    g.focus(ideas);
    let fresh = g.paste(&clip, c(0.0), c(0.0), Some(ideas), &sum);
    assert!(fresh.iter().all(|&f| !g.is_hidden(f)), "pasting opened the fold");

    g.toggle_collapsed(ideas);
    let goals = by_text(&g, "goals");
    assert!(g.reparent(goals, ideas));
    assert!(!g.is_hidden(goals), "the dropped branch is visible where it landed");
}

#[test]
fn folding_over_the_cursor_leaves_you_standing_on_the_fold() {
    let mut g = nav_fixture();
    let ideas = by_text(&g, "ideas");
    let ship = by_text(&g, "ship");
    g.focus(ship);
    g.toggle_collapsed(ideas);
    assert!(!g.is_hidden(g.focused_id), "the cursor came out with the fold");
    assert_eq!(g.focused_id, ideas);
    assert!(
        g.acting_on().iter().all(|&s| !g.is_hidden(s)),
        "and so did the selection"
    );
    navigate(&mut g, Direction::Right);
    assert!(!g.is_hidden(g.focused_id));
}


#[test]
fn a_folded_branch_is_still_part_of_the_document() {
    let mut g = nav_fixture();
    let ideas = by_text(&g, "ideas");
    let ship = by_text(&g, "ship");
    g.toggle_collapsed(ideas);

    assert_eq!(g.copy_subtrees(&vec![ideas], &offset).unwrap().len(), 2);
    let before = x_of(&g, ship);
    g.focus(ideas);
    g.select_subtree_of(ideas);
    g.move_selection_by(&shift(50.0, 0.0));
    assert_eq!(x_of(&g, ship), before + 50.0);
    g.set_node_selection(&vec![ideas]);
    assert_eq!(g.delete_selection_of_nodes(), 2, "the hidden child goes too");
}

#[test]
fn folding_refuses_a_node_with_nothing_under_it() {
    let mut g = nav_fixture();
    let ship = by_text(&g, "ship");
    assert!(!g.toggle_collapsed(ship), "a fold that hides nothing is not a control");
    assert!(!g.is_collapsed(ship));
}

#[test]
fn arrows_do_not_walk_into_a_folded_branch() {
    let mut g = nav_fixture();
    let ideas = by_text(&g, "ideas");
    let ship = by_text(&g, "ship");
    g.toggle_collapsed(ideas);
    g.focus(ideas);
    navigate(&mut g, Direction::Right);
    assert_ne!(g.focused_id, ship, "→ cannot step into what is folded away");
    assert!(!g.is_hidden(g.focused_id), "and never lands on a hidden node");
}

#[test]
fn a_folded_branch_costs_one_row_in_tidy() {
    let mut g = Graph::new("root");
    let a = g.create_child(g.root_id, Direction::Right, "a", &place).unwrap();
    for i in 0..6 {
        g.create_child(a, Direction::Right, &format!("k{i}"), &place);
    }
    let b = g.create_child(g.root_id, Direction::Right, "b", &place).unwrap();
    let _ = b;
    g.tidy(&carry);
    let height = |g: &Graph| {
        let (_, y0, _, y1) = bounds_with(&g, |_, _| (40.0, NODE_HALF_H));
        y1 - y0
    };
    let open = height(&g);
    g.toggle_collapsed(a);
    g.tidy(&carry);
    let folded = height(&g);
    assert!(
        folded < open,
        "folding has to buy back the height: {folded} vs {open}"
    );
}

#[test]
fn reparenting_moves_a_branch_and_keeps_both_halves_of_the_tree_agreeing() {
    let mut g = nav_fixture();
    let ideas = by_text(&g, "ideas");
    let ship = by_text(&g, "ship");
    let notes = by_text(&g, "notes");

    assert!(g.reparent(ideas, notes));
    assert_eq!(g.nodes[&ideas].parent, Some(notes));
    assert_eq!(g.nodes[&ship].parent, Some(ideas), "the subtree came along");
    let links: HashSet<(u64, u64)> = g.edges.values().map(|e| (e.from, e.to)).collect();
    let parents: HashSet<(u64, u64)> = g
        .nodes
        .iter()
        .filter_map(|(&id, n)| n.parent.map(|p| (p, id)))
        .collect();
    assert_eq!(links, parents);
    assert_eq!(g.subtree_ids(notes).len(), 3, "notes now owns the branch");
}

#[test]
fn a_branch_cannot_be_dropped_inside_itself() {
    let mut g = nav_fixture();
    let ideas = by_text(&g, "ideas");
    let ship = by_text(&g, "ship");
    assert!(!g.can_reparent(ideas, ship));
    assert!(!g.reparent(ideas, ship));
    assert!(!g.can_reparent(ideas, ideas), "nor onto itself");
    assert!(!g.can_reparent(g.root_id, ideas), "nor the root anywhere");
    assert!(
        !g.can_reparent(ship, ideas),
        "nor onto the parent it already has — nothing to do"
    );
    assert_eq!(g.subtree_ids(g.root_id).len(), g.nodes.len());
}

#[test]
fn dropping_a_parent_and_its_child_together_re_hangs_only_the_parent() {
    let mut g = nav_fixture();
    let ideas = by_text(&g, "ideas");
    let ship = by_text(&g, "ship");
    let notes = by_text(&g, "notes");
    let roots = g.reparent_roots(&vec![ideas, ship]);
    assert_eq!(roots, vec![ideas]);
    for r in roots {
        g.reparent(r, notes);
    }
    assert_eq!(g.nodes[&ship].parent, Some(ideas));
    assert_eq!(g.nodes[&ideas].parent, Some(notes));
}

#[test]
fn a_reparented_edge_keeps_its_label() {
    let mut g = Graph::new("root");
    let a = g.create_child(g.root_id, Direction::Right, "a", &place).unwrap();
    let b = g.create_child(g.root_id, Direction::Down, "b", &place).unwrap();
    let eid = *g.edges.iter().find(|(_, e)| e.to == a).map(|(i, _)| i).unwrap();
    g.edges.get_mut(&eid).unwrap().label = "because".into();
    assert!(g.reparent(a, b));
    let e = g.edges.values().find(|e| e.to == a).expect("an edge");
    assert_eq!(e.label, "because", "the label describes the link, so it moves with it");
    assert_eq!(e.from, b);
}

#[test]
fn a_sibling_lands_beside_you_under_the_same_parent() {
    let mut g = nav_fixture();
    let ideas = by_text(&g, "ideas");
    g.focus(ideas);
    let parent = g.nodes[&ideas].parent;
    let sib = g.create_sibling("beside", &place).expect("a sibling");
    assert_eq!(g.nodes[&sib].parent, parent, "same parent, not a child");
    assert_eq!(g.focused_id, sib, "and you are on it, ready to type");
    assert!(g.is_editing());
    assert_eq!(g.acting_on(), vec![sib]);
}

#[test]
fn a_sibling_of_the_root_becomes_a_child_of_it() {
    let mut g = Graph::new("root");
    let id = g.create_sibling("first", &place).expect("a node");
    assert_eq!(g.nodes[&id].parent, Some(g.root_id));
}

#[test]
fn a_no_op_edit_reports_that_it_would_do_nothing() {
    let mut g = Graph::new("abc");
    g.enter_edit();
    g.caret_end(false);
    assert!(g.can_backspace());
    assert!(!g.can_delete_forward(), "nothing ahead of the caret");
    assert!(g.can_delete_word_left());
    g.caret_home(false);
    assert!(!g.can_backspace(), "nothing behind it either");
    assert!(g.can_delete_forward());
    assert!(!g.can_delete_word_left());
    g.select_all();
    assert!(g.can_backspace() && g.can_delete_forward() && g.can_delete_word_left());
}

#[test]
fn a_drag_moves_the_set_it_started_with() {
    let mut g = nav_fixture();
    let ideas = by_text(&g, "ideas");
    let notes = by_text(&g, "notes");
    g.focus(ideas);
    let held = g.acting_on();
    g.focus(notes);
    let notes_before = (x_of(&g, notes), y_of(&g, notes));
    let ideas_before = (x_of(&g, ideas), y_of(&g, ideas));
    g.move_nodes_by(&held, &shift(40.0, 0.0));
    assert_eq!(x_of(&g, ideas), ideas_before.0 + 40.0, "the grabbed node moved");
    assert_eq!(
        (x_of(&g, notes), y_of(&g, notes)),
        notes_before,
        "and nothing else did, however the selection changed"
    );
}


#[test]
fn a_copied_branch_pastes_as_a_new_branch() {
    let mut g = nav_fixture();
    let ideas = by_text(&g, "ideas");
    let before = g.nodes.len();
    let clip = g.copy_subtrees(&vec![ideas], &offset).expect("a clip");
    assert_eq!(clip.len(), 2, "the node and its child");

    g.focus(g.root_id);
    let fresh = g.paste(&clip, c(500.0), c(500.0), Some(g.root_id), &sum);
    assert_eq!(fresh.len(), 2);
    assert_eq!(g.nodes.len(), before + 2, "the original is untouched");
    let root_of_clip = fresh[0];
    assert_eq!(g.nodes[&root_of_clip].parent, Some(g.root_id));
    assert_eq!(g.nodes[&root_of_clip].text, "ideas");
    assert_eq!(g.subtree_ids(root_of_clip).len(), 2);
    let links: HashSet<(u64, u64)> = g.edges.values().map(|e| (e.from, e.to)).collect();
    let parents: HashSet<(u64, u64)> = g
        .nodes
        .iter()
        .filter_map(|(&id, n)| n.parent.map(|p| (p, id)))
        .collect();
    assert_eq!(links, parents);
    assert_eq!(g.acting_on(), sorted(fresh), "you are holding what you pasted");
}


#[test]
fn pasting_relative_positions_keeps_the_shape() {
    let mut g = Graph::new("root");
    let a = g.create_child(g.root_id, Direction::Right, "a", &place).unwrap();
    let b = g.create_child(a, Direction::Right, "b", &place).unwrap();
    g.nodes.get_mut(&a).unwrap().x = c(100.0);
    g.nodes.get_mut(&a).unwrap().y = c(10.0);
    g.nodes.get_mut(&b).unwrap().x = c(260.0);
    g.nodes.get_mut(&b).unwrap().y = c(40.0);
    let clip = g.copy_subtrees(&vec![a], &offset).unwrap();
    let fresh = g.paste(&clip, c(1000.0), c(1000.0), Some(g.root_id), &sum);
    let (na, nb) = (&g.nodes[&fresh[0]], &g.nodes[&fresh[1]]);
    assert_eq!((f(na.x), f(na.y)), (1000.0, 1000.0), "the clip lands where asked");
    assert_eq!(
        (f(nb.x) - f(na.x), f(nb.y) - f(na.y)),
        (160.0, 30.0),
        "the offset between them is preserved"
    );
}

#[test]
fn copying_a_parent_and_its_child_does_not_duplicate_the_child() {
    let mut g = nav_fixture();
    let ideas = by_text(&g, "ideas");
    let ship = by_text(&g, "ship");
    let clip = g.copy_subtrees(&vec![ideas, ship], &offset).unwrap();
    assert_eq!(clip.len(), 2);
}

#[test]
fn a_double_click_on_empty_ground_makes_a_reachable_node() {
    let mut g = Graph::new("root");
    let id = g.create_free_node(c(400.0), c(-200.0)).expect("a node");
    assert_eq!((x_of(&g, id), y_of(&g, id)), (400.0, -200.0));
    assert_eq!(g.nodes[&id].parent, None, "a floating topic, not a child");
    assert!(g.is_editing(), "ready to be named");
    assert_eq!(g.acting_on(), vec![id]);
    g.leave_edit();
    g.focus(g.root_id);
    assert!(navigate(&mut g, Direction::Right));
    assert_eq!(g.focused_id, id);
}

#[test]
fn drag_moves_only_the_node_it_grabbed() {
    let mut g = nav_fixture();
    let ideas = by_text(&g, "ideas");
    let ship = by_text(&g, "ship");
    let ideas_before = (x_of(&g, ideas), y_of(&g, ideas));
    let ship_before = (x_of(&g, ship), y_of(&g, ship));

    g.focus(ideas);
    assert!(g.move_selection_by(&shift(400.0, -120.0)));
    assert_eq!(
        (x_of(&g, ideas), y_of(&g, ideas)),
        (ideas_before.0 + 400.0, ideas_before.1 - 120.0)
    );
    assert_eq!(
        (x_of(&g, ship), y_of(&g, ship)),
        ship_before,
        "children stay put on a plain drag"
    );
}

#[test]
fn selecting_a_subtree_then_moving_carries_descendants() {
    let mut g = nav_fixture();
    let ideas = by_text(&g, "ideas");
    let ship = by_text(&g, "ship");
    let root_before = (x_of(&g, g.root_id), y_of(&g, g.root_id));
    let before: Vec<(f32, f32)> = [ideas, ship]
        .iter()
        .map(|id| (x_of(&g, *id), y_of(&g, *id)))
        .collect();

    g.focus(ideas);
    g.select_subtree_of(ideas);
    assert!(g.move_selection_by(&shift(60.0, -25.0)));
    for (id, was) in [ideas, ship].iter().zip(before) {
        assert_eq!(x_of(&g, *id), was.0 + 60.0);
        assert_eq!(y_of(&g, *id), was.1 - 25.0);
    }
    assert_eq!(
        (x_of(&g, g.root_id), y_of(&g, g.root_id)),
        root_before,
        "the parent was not selected, so it stayed"
    );
}

#[test]
fn a_move_with_nothing_selected_moves_nothing() {
    let mut g = Graph::new("root");
    let start = (f(g.focused().x), f(g.focused().y));
    assert!(g.move_selection_by(&shift(SNAP, 0.0)));
    assert_eq!(f(g.focused().x), start.0 + SNAP);

    g.deselect_all();
    let now = (f(g.focused().x), f(g.focused().y));
    assert!(!g.move_selection_by(&shift(SNAP, 0.0)));
    assert_eq!((f(g.focused().x), f(g.focused().y)), now, "the cursor is not a selection");
}


#[test]
fn delete_takes_the_subtree_and_its_edges() {
    let mut g = nav_fixture();
    let ideas = by_text(&g, "ideas");
    let ship = by_text(&g, "ship");
    assert_eq!(g.subtree_ids(ideas), {
        let mut v = vec![ideas, ship];
        v.sort();
        v
    });

    g.focus(ship);
    assert!(g.delete_subtree(ideas));
    assert!(!g.nodes.contains_key(&ideas));
    assert!(!g.nodes.contains_key(&ship));
    assert_eq!(g.focused_id, g.root_id, "focus lands on the parent");
    assert!(
        g.edges.values().all(|e| g.nodes.contains_key(&e.from)
            && g.nodes.contains_key(&e.to)),
        "no dangling edges"
    );
    assert_eq!(g.nodes.len(), 3);
}

#[test]
fn root_is_never_deleted() {
    let mut g = Graph::new("root");
    assert!(!g.delete_subtree(g.root_id));
    assert_eq!(g.delete_selection_of_nodes(), 0, "the root is never deleted");
    assert_eq!(g.nodes.len(), 1);
}

#[test]
fn delete_clears_a_focused_edge_that_went_with_it() {
    let mut g = Graph::new("root");
    let child = g.create_from_focused(Direction::Right, "child", &place).unwrap();
    let eid = g.edge_to_focused().unwrap();
    assert!(g.focus_edge(eid));
    assert!(g.delete_subtree(child));
    assert!(g.focused_edge.is_none());
    assert_eq!(g.selection(), Selection::Node(g.root_id));
}

#[test]
fn tidy_lays_out_a_readable_tree() {
    let mut g = Graph::new("root");
    let root = g.root_id;
    let a = g.create_child(root, Direction::Right, "a", &place).unwrap();
    let b = g.create_child(root, Direction::Right, "b", &place).unwrap();
    g.create_child(a, Direction::Right, "a1", &place);
    g.create_child(a, Direction::Right, "a2", &place);
    g.create_child(b, Direction::Right, "b1", &place);
    for (i, id) in g.nodes.keys().copied().collect::<Vec<_>>().iter().enumerate() {
        if let Some(n) = g.nodes.get_mut(id) {
            n.x = c(i as f32 * 3.0);
            n.y = c(i as f32 * 2.0);
        }
    }
    g.tidy(&carry);

    assert!(!g.has_overlapping_nodes(&clash), "tidy must not stack nodes");
    let col = |id: u64| x_of(&g, id);
    assert_eq!((col(root), y_of(&g, root)), (0.0, 0.0), "the root anchors it");

    assert!(col(a) * col(b) < 0.0, "branches split left and right");
    let a1 = by_text(&g, "a1");
    let a2 = by_text(&g, "a2");
    assert!(col(a1).abs() > col(a).abs());
    assert_eq!(col(a1), col(a2), "siblings on one side share a column");
    assert_eq!(col(a1).signum(), col(a).signum(), "and stay on that side");
    let ya = y_of(&g, a);
    let (y1, y2) = (y_of(&g, a1), y_of(&g, a2));
    assert!(ya > y1.min(y2) && ya < y1.max(y2));
}

#[test]
fn tidy_balances_the_two_sides() {
    let mut g = Graph::new("root");
    let root = g.root_id;
    let fat = g.create_child(root, Direction::Right, "fat", &place).unwrap();
    for i in 0..6 {
        g.create_child(fat, Direction::Right, &format!("f{i}"), &place);
    }
    for i in 0..3 {
        g.create_child(root, Direction::Right, &format!("t{i}"), &place);
    }
    g.tidy(&carry);

    let side = |id: u64| x_of(&g, id).signum();
    let thin: Vec<u64> = (0..3).map(|i| by_text(&g, &format!("t{i}"))).collect();
    assert!(
        thin.iter().all(|&t| side(t) == -side(fat)),
        "the three thin branches balance the fat one, so they share the other side"
    );
    let (x0, y0, x1, y1) = bounds_with(&g, |_, _| (40.0, NODE_HALF_H));
    assert!(
        (y1 - y0) < (x1 - x0) * 2.5,
        "not a ribbon: {}x{}",
        x1 - x0,
        y1 - y0
    );
}

#[test]
fn tidy_survives_a_deep_chain() {
    let mut g = Graph::new("root");
    for _ in 0..60 {
        g.create_from_focused(Direction::Right, "x", &place);
    }
    g.tidy(&carry);
    assert!(!g.has_overlapping_nodes(&clash));
    let depths = g.depths_for(&g.nodes.keys().copied().collect());
    assert_eq!(depths[&g.focused_id], 60);
}

#[test]
fn sanitize_repairs_a_hand_edited_map() {
    let mut g = Graph::new("root");
    let child = g.create_from_focused(Direction::Right, "child", &place).unwrap();
    g.nodes.get_mut(&g.root_id).unwrap().parent = Some(child);
    g.nodes.get_mut(&child).unwrap().x = c(f32::NAN);
    let eid = *g.edges.keys().next().unwrap();
    g.edges.get_mut(&eid).unwrap().to = 4242;
    g.focused_id = 999;
    g.focused_edge = Some(777);

    g.sanitize();

    assert!(g.nodes[&g.root_id].parent.is_none());
    assert!(x_of(&g, child).is_finite());
    assert_eq!(g.edges.len(), 1);
    let e = g.edges.values().next().unwrap();
    assert_eq!((e.from, e.to), (g.root_id, child));
    assert_eq!(g.focused_id, g.root_id);
    assert!(g.focused_edge.is_none());
    assert_eq!(g.subtree_ids(g.root_id).len(), 2);
    let depths = g.depths_for(&g.nodes.keys().copied().collect());
    assert_eq!(depths[&child], 1);
}

#[test]
fn sanitize_breaks_a_cycle_without_flattening_what_hangs_off_it() {
    let mut g = Graph::new("root");
    let a = g.create_child(g.root_id, Direction::Right, "a", &place).unwrap();
    let b = g.create_child(a, Direction::Right, "b", &place).unwrap();
    let c = g.create_child(b, Direction::Right, "c", &place).unwrap();
    let d = g.create_child(c, Direction::Right, "d", &place).unwrap();
    g.nodes.get_mut(&a).unwrap().parent = Some(b);

    g.sanitize();

    assert_eq!(g.nodes[&c].parent, Some(b), "a descendant keeps its parent");
    assert_eq!(g.nodes[&d].parent, Some(c));
    assert_eq!(g.subtree_ids(g.root_id).len(), g.nodes.len());
}

#[test]
fn sanitize_makes_edges_and_parents_agree() {
    let mut g = Graph::new("root");
    let byparent = g.create_child(g.root_id, Direction::Right, "by parent", &place).unwrap();
    let byedge = g.create_child(g.root_id, Direction::Down, "by edge", &place).unwrap();
    let stray = *g
        .edges
        .iter()
        .find(|(_, e)| e.to == byparent)
        .map(|(id, _)| id)
        .unwrap();
    g.edges.remove(&stray);
    g.nodes.get_mut(&byedge).unwrap().parent = None;

    g.sanitize();

    let links: HashSet<(u64, u64)> = g.edges.values().map(|e| (e.from, e.to)).collect();
    let parents: HashSet<(u64, u64)> = g
        .nodes
        .iter()
        .filter_map(|(&id, n)| n.parent.map(|p| (p, id)))
        .collect();
    assert_eq!(links, parents, "every parent link has exactly one edge");
    assert!(links.contains(&(g.root_id, byparent)), "the missing line is drawn");
    assert!(
        !links.iter().any(|&(_, to)| to == byedge),
        "a line to a node with no parent is not a link"
    );
}

#[test]
fn sanitize_keeps_one_edge_per_link_and_picks_it_deterministically() {
    let mut g = Graph::new("root");
    let child = g.create_child(g.root_id, Direction::Right, "child", &place).unwrap();
    let (from, to) = (g.root_id, child);
    for eid in [900u64, 901] {
        g.edges.insert(eid, Edge { from, to, label: String::new() });
    }
    g.sanitize();
    assert_eq!(g.edges.len(), 1);
    g.focus(child);
    let first = g.edge_to_focused();
    assert!(first.is_some());
    for _ in 0..20 {
        assert_eq!(g.edge_to_focused(), first);
    }
}

#[test]
fn ids_are_never_reused_when_the_counter_is_exhausted() {
    let mut g = Graph::new("root");
    g.next_id = u64::MAX;
    let before = g.nodes.clone();
    assert!(
        g.create_child(g.root_id, Direction::Right, "x", &place).is_none(),
        "refuse rather than wrap"
    );
    assert_eq!(g.nodes.len(), before.len(), "the root was not overwritten");
    assert_eq!(g.nodes[&g.root_id].text, "root");
}

#[test]
fn sanitize_survives_an_id_at_the_top_of_the_range() {
    let mut g = Graph::new("root");
    g.nodes.insert(
        u64::MAX,
        Node { text: "far".into(), x: c(0.0), y: c(0.0), parent: Some(g.root_id), collapsed: false, color: None, image: None },
    );
    g.sanitize();
    assert_eq!(g.next_id, u64::MAX, "saturated, not wrapped");
}

#[test]
fn a_far_flung_map_never_yields_a_non_finite_position() {
    let mut g = Graph::new("root");
    g.nodes.get_mut(&g.root_id).unwrap().x = c(3.0e38);
    let child = g.create_child(g.root_id, Direction::Right, "b", &place).unwrap();
    g.nodes.get_mut(&child).unwrap().x = c(f32::INFINITY);
    g.drop_non_finite_positions();
    assert!(g.nodes.values().all(|n| n.x.is_finite() && n.y.is_finite()));
}

#[test]
fn deleting_a_subtree_takes_its_ids_out_of_the_selection() {
    let mut g = nav_fixture();
    let ideas = by_text(&g, "ideas");
    let ship = by_text(&g, "ship");
    let notes = by_text(&g, "notes");
    g.set_node_selection(&vec![ideas, ship, notes]);
    assert!(g.delete_subtree(ideas));
    assert!(
        g.acting_on().iter().all(|id| g.nodes.contains_key(id)),
        "no dead ids survive in what a bulk operation would act on"
    );
}

#[test]
fn batched_depths_match_the_one_at_a_time_definition() {
    let mut g = Graph::new("root");
    let root = g.root_id;
    let mut leaves = vec![root];
    for i in 0..40 {
        let parent = leaves[i % leaves.len()];
        g.focus(parent);
        if let Some(id) = g.create_from_focused(Direction::Right, "n", &place) {
            leaves.push(id);
        }
    }
    let all: HashSet<u64> = g.nodes.keys().copied().collect();
    let batched = g.depths_for(&all);
    assert_eq!(batched.len(), g.nodes.len());
    assert_eq!(batched[&root], 0);
    for id in &all {
        let mut walked = 0;
        let mut cur = *id;
        while let Some(p) = g.nodes[&cur].parent {
            cur = p;
            walked += 1;
        }
        assert_eq!(batched[id], walked, "node {id}");
    }

    let some: HashSet<u64> = all.iter().copied().filter(|id| id % 3 == 0).collect();
    for (id, d) in g.depths_for(&some) {
        assert_eq!(d, batched[&id]);
    }
}

#[test]
fn tidy_caps_recursion_on_a_pathological_chain() {
    let mut g = Graph::new("root");
    for _ in 0..(MAX_TIDY_DEPTH + 200) {
        g.create_from_focused(Direction::Right, "x", &place);
    }
    g.tidy(&carry);
    assert!(g.nodes.values().all(|n| n.x.is_finite() && n.y.is_finite()));
    let placed_columns = g.nodes.values().filter(|n| f(n.x) > 0.0).count();
    assert!(placed_columns > 100, "the tree was actually laid out");
}

#[test]
fn sanitize_keeps_new_ids_unique() {
    let mut g = Graph::new("root");
    g.nodes.insert(
        500,
        Node {
            text: "smuggled in".into(),
            x: c(10.0),
            y: c(10.0),
            parent: Some(g.root_id),
            collapsed: false,
            color: None,
            image: None,
        },
    );
    g.sanitize();
    let fresh = g.create_child(g.root_id, Direction::Down, "new", &place).unwrap();
    assert!(fresh > 500, "next_id caught up: {fresh}");
}


#[test]
fn edge_label_edit_on_midline() {
    let mut g = Graph::new("root");
    let child = g.create_from_focused(Direction::Right, "child", &place).unwrap();
    let eid = g.edge_to_focused().expect("edge to child");
    let e = &g.edges[&eid];
    let mid = (
        (x_of(&g, e.from) + x_of(&g, e.to)) * 0.5,
        (y_of(&g, e.from) + y_of(&g, e.to)) * 0.5,
    );
    assert_eq!(hit_edge(&g, mid.0, mid.1, 18.0), Some(eid));
    assert!(g.focus_edge(eid));
    assert_eq!(g.selection(), Selection::Edge(eid));
    g.insert_char('w');
    g.insert_char('h');
    g.insert_char('y');
    assert_eq!(g.edges[&eid].label, "why");
    g.backspace();
    assert_eq!(g.edges[&eid].label, "wh");
    assert_eq!(g.nodes[&child].text, "child");
    g.clear_edge_focus();
    g.enter_edit();
    g.insert_char('!');
    assert_eq!(g.nodes[&child].text, "child!");
}

/// A clip as text, and back: what the system's clipboard can hold.
fn to_text(clip: &Clip) -> String {
    let nodes: Vec<serde_json::Value> = clip
        .nodes
        .iter()
        .map(|n| {
            serde_json::Value::Array(vec![
                serde_json::Value::from(n.text.as_str()),
                serde_json::Value::from(f(n.dx) as f64),
                serde_json::Value::from(f(n.dy) as f64),
                match n.parent {
                    Some(p) => serde_json::Value::from(p as u64),
                    None => serde_json::Value::Null,
                },
                serde_json::Value::from(n.label.as_str()),
                serde_json::Value::from(n.collapsed),
            ])
        })
        .collect();
    serde_json::to_string(&serde_json::Value::Array(nodes)).unwrap()
}

fn from_text(s: &str) -> Option<Clip> {
    let v: serde_json::Value = serde_json::from_str(s).ok()?;
    let mut nodes = Vec::new();
    for n in v.as_array()? {
        nodes.push(ClipNode {
            text: n[0].as_str()?.to_string(),
            dx: c(n[1].as_f64()? as f32),
            dy: c(n[2].as_f64()? as f32),
            parent: n[3].as_u64().map(|p| p as usize),
            label: n[4].as_str()?.to_string(),
            collapsed: n[5].as_bool()?,
            color: None,
            image: None,
        });
    }
    let clip = Clip { nodes };
    if clip.len() > 0 {
        Some(clip)
    } else {
        None
    }
}

#[test]
fn a_folded_branch_copies_folded() {
    let mut g = nav_fixture();
    let ideas = by_text(&g, "ideas");
    g.toggle_collapsed(ideas);
    let clip = g.copy_subtrees(&vec![ideas], &offset).unwrap();
    let clip = from_text(&to_text(&clip)).expect("parses back");
    let fresh = g.paste(&clip, c(900.0), c(900.0), None, &sum);
    assert!(g.is_collapsed(fresh[0]), "the copy arrived folded, like its original");
}

#[test]
fn a_clip_survives_a_round_trip_through_text() {
    let mut g = nav_fixture();
    let ideas = by_text(&g, "ideas");
    let text = to_text(&g.copy_subtrees(&vec![ideas], &offset).unwrap());
    let clip = from_text(&text).expect("parses back");
    assert_eq!(clip.len(), 2);
    assert_eq!(g.paste(&clip, c(0.0), c(0.0), None, &sum).len(), 2);
    assert!(from_text("not json").is_none());
    assert!(from_text("[]").is_none(), "an empty clip is no clip");
}

#[test]
fn sanitize_brings_the_box_of_a_picture_into_range() {
    for (given, kept) in [(1.0f32, 24.0f32), (24.0, 24.0), (300.0, 300.0), (1.0e6, 4000.0)] {
        let mut g = Graph::new("root");
        g.nodes.get_mut(&1).unwrap().image =
            Some(NodeImage { name: "a.png".to_string(), w: c(given), h: c(f32::NAN) });
        g.sanitize();
        let image = g.nodes[&1].image.clone().unwrap();
        assert_eq!(image.name, "a.png");
        assert_eq!(f(image.w), kept);
        assert!((24.0..=4000.0).contains(&f(image.h)));
    }
}

#[test]
fn tidying_twice_moves_nothing_at_all() {
    let mut g = Graph::new("root");
    for i in 0..7 {
        let id = g.create_child_at(1, c(i as f32), c(0.0), "branch").unwrap();
        for _ in 0..(i % 3) {
            g.create_child_at(id, c(5.0), c(5.0), "leaf");
        }
    }
    g.leave_edit();
    let folded = g.children_of(1)[2];
    assert!(g.toggle_collapsed(folded));
    let free = g.create_free_node(c(-900.0), c(123.0)).unwrap();
    let stray = g.create_child_at(free, c(1.0), c(2.0), "stray").unwrap();
    g.leave_edit();
    g.tidy(&carry);
    let places = |g: &Graph| {
        let mut v: Vec<(u64, u32, u32)> =
            g.nodes.iter().map(|(&id, n)| (id, n.x.bits, n.y.bits)).collect();
        v.sort_unstable();
        v
    };
    let once = places(&g);
    g.tidy(&carry);
    assert_eq!(places(&g), once);
    assert_eq!((x_of(&g, free), y_of(&g, free)), (-900.0, 123.0));
    assert_eq!(x_of(&g, stray), 0.0);
}
