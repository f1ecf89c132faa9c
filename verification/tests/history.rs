//! Undo and redo.

use mindmap::coord::Coord;
use mindmap::graph::{Direction, Graph};
use mindmap::history::{History, Tag, CAP};

const NODE_HALF_W: f32 = 48.0;
const NODE_HALF_H: f32 = 13.0;
const MIN_GAP: f32 = 28.0;
const STEP_RIGHT: f32 = 160.0;
const STEP_DOWN: f32 = 56.0;

fn c(v: f32) -> Coord {
    Coord { bits: v.to_bits() }
}

fn f(v: Coord) -> f32 {
    f32::from_bits(v.bits)
}

fn boxes_intersect(a: (f32, f32), b: (f32, f32)) -> bool {
    let (w, h) = (NODE_HALF_W * 2.0 + MIN_GAP, NODE_HALF_H * 2.0 + MIN_GAP);
    let (ax, ay) = (a.0 - w / 2.0, a.1 - h / 2.0);
    let (bx, by) = (b.0 - w / 2.0, b.1 - h / 2.0);
    !(ax + w <= bx || bx + w <= ax || ay + h <= by || by + h <= ay)
}

/// A place near `desired` that is clear of what is in sight.
fn resolve(g: &Graph, desired: (f32, f32)) -> (f32, f32) {
    let hidden = g.hidden_set();
    let mut ids: Vec<u64> = g.nodes.keys().copied().filter(|id| !hidden.contains(id)).collect();
    ids.sort_unstable();
    let others: Vec<(f32, f32)> = ids.iter().map(|id| (f(g.nodes[id].x), f(g.nodes[id].y))).collect();
    let mut p = desired;
    for _ in 0..24 {
        let mut moved = false;
        for o in &others {
            if !boxes_intersect(p, *o) {
                continue;
            }
            let (dx, dy) = (p.0 - o.0, p.1 - o.1);
            let (min_dx, min_dy) = (NODE_HALF_W * 2.0 + MIN_GAP, NODE_HALF_H * 2.0 + MIN_GAP);
            if dx.abs() < 1e-4 && dy.abs() < 1e-4 {
                p.0 += min_dx;
                moved = true;
                continue;
            }
            let (pen_x, pen_y) = (min_dx - dx.abs(), min_dy - dy.abs());
            if pen_x > 0.0 && pen_y > 0.0 {
                if pen_x < pen_y {
                    p.0 += if dx >= 0.0 { pen_x } else { -pen_x };
                } else {
                    p.1 += if dy >= 0.0 { pen_y } else { -pen_y };
                }
                moved = true;
            }
        }
        if !moved {
            break;
        }
    }
    p
}

/// Where a child of `parent` goes.
fn place(g: &Graph, parent: u64, direction: Direction) -> (Coord, Coord) {
    let Some(p) = g.nodes.get(&parent) else {
        return (c(0.0), c(0.0));
    };
    let (px, py) = (f(p.x), f(p.y));
    let same_axis = g
        .children_of(parent)
        .iter()
        .filter(|id| {
            let (kx, ky) = (f(g.nodes[id].x), f(g.nodes[id].y));
            match direction {
                Direction::Right => kx > px + 20.0,
                Direction::Left => kx < px - 20.0,
                Direction::Up => ky < py - 20.0,
                Direction::Down => ky > py + 20.0,
            }
        })
        .count() as f32;
    let mut at = match direction {
        Direction::Right => (px + STEP_RIGHT, py),
        Direction::Left => (px - STEP_RIGHT, py),
        Direction::Up => (px, py - STEP_DOWN),
        Direction::Down => (px, py + STEP_DOWN),
    };
    match direction {
        Direction::Right | Direction::Left => at.1 += same_axis * (NODE_HALF_H * 2.0 + MIN_GAP),
        Direction::Up | Direction::Down => at.0 += same_axis * (NODE_HALF_W * 2.0 + MIN_GAP),
    }
    let (x, y) = resolve(g, at);
    (c(x), c(y))
}

#[test]
fn a_discarded_step_is_not_offered_as_a_redo() {
    let mut h = History::new();
    let mut g = Graph::new("root");
    h.record(&g, Tag::Structure);
    g.create_from_focused(Direction::Right, "moved", &place);

    let restored = h.discard_last().expect("a step to discard");
    assert_eq!(restored.nodes.len(), 1);
    assert!(!h.can_redo(), "a cancelled gesture is not redoable");
    assert!(!h.can_undo());
}

#[test]
fn a_node_edit_and_an_edge_edit_are_separate_steps() {
    let mut h = History::new();
    let g = Graph::new("root");
    h.record(&g, Tag::Text(7));
    h.record(&g, Tag::EdgeText(7));
    assert!(h.can_undo());
    h.undo(&g);
    assert!(h.can_undo(), "the node edit is still its own step");
}

#[test]
fn undo_redo_roundtrip() {
    let mut h = History::new();
    let mut g = Graph::new("root");
    h.record(&g, Tag::Structure);
    g.create_from_focused(Direction::Right, "child", &place);
    assert_eq!(g.nodes.len(), 2);

    let g = h.undo(&g).expect("undo");
    assert_eq!(g.nodes.len(), 1);
    assert!(!h.can_undo());
    assert!(h.can_redo());

    let g = h.redo(&g).expect("redo");
    assert_eq!(g.nodes.len(), 2);
    assert!(h.can_undo());
    assert!(!h.can_redo());
}

#[test]
fn typing_run_is_one_undo_step() {
    let mut h = History::new();
    let mut g = Graph::new("");
    g.enter_edit();
    let id = g.focused_id;
    for c in "hello".chars() {
        h.record(&g, Tag::Text(id));
        g.insert_char(c);
    }
    assert_eq!(g.focused().text, "hello");
    let g = h.undo(&g).expect("undo");
    assert_eq!(g.focused().text, "");
    assert!(!h.can_undo(), "the whole word should be one step");
}

#[test]
fn seal_splits_a_run() {
    let mut h = History::new();
    let mut g = Graph::new("");
    g.enter_edit();
    let id = g.focused_id;
    h.record(&g, Tag::Text(id));
    g.insert_char('a');
    h.seal();
    h.record(&g, Tag::Text(id));
    g.insert_char('b');

    let g = h.undo(&g).expect("undo b");
    assert_eq!(g.focused().text, "a");
    let g = h.undo(&g).expect("undo a");
    assert_eq!(g.focused().text, "");
}

#[test]
fn structural_never_coalesces() {
    let mut h = History::new();
    let mut g = Graph::new("root");
    h.record(&g, Tag::Structure);
    g.create_from_focused(Direction::Right, "a", &place);
    h.record(&g, Tag::Structure);
    g.create_from_focused(Direction::Right, "b", &place);
    assert_eq!(g.nodes.len(), 3);

    let g = h.undo(&g).unwrap();
    assert_eq!(g.nodes.len(), 2);
    let g = h.undo(&g).unwrap();
    assert_eq!(g.nodes.len(), 1);
}

#[test]
fn new_edit_clears_redo() {
    let mut h = History::new();
    let mut g = Graph::new("root");
    h.record(&g, Tag::Structure);
    g.create_from_focused(Direction::Right, "a", &place);
    let mut g = h.undo(&g).unwrap();
    assert!(h.can_redo());
    h.record(&g, Tag::Structure);
    g.create_from_focused(Direction::Down, "b", &place);
    assert!(!h.can_redo(), "branching off history drops the redo tail");
}

#[test]
fn undo_stack_is_bounded() {
    let mut h = History::new();
    let g = Graph::new("root");
    for _ in 0..(CAP + 50) {
        h.record(&g, Tag::Structure);
    }
    assert_eq!(h.depth(), CAP);
}

#[test]
fn a_step_past_the_bound_drops_the_oldest() {
    let mut h = History::new();
    for i in 0..(CAP + 1) {
        let g = Graph::new(&format!("{i}"));
        h.record(&g, Tag::Structure);
    }
    let mut current = Graph::new("now");
    let mut last = String::new();
    while let Some(g) = h.undo(&current) {
        last = g.focused().text.clone();
        current = g;
    }
    assert_eq!(last, "1");
}

#[test]
fn moves_of_one_set_are_one_step() {
    let mut h = History::new();
    let g = Graph::new("root");
    h.record(&g, Tag::Move(7));
    h.record(&g, Tag::Move(7));
    assert_eq!(h.depth(), 1);
    h.record(&g, Tag::Move(8));
    assert_eq!(h.depth(), 2);
}
