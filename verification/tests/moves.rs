//! Smaller moves: the caret by lines, siblings, drops and what the pointer hits.

use std::collections::HashSet;
use mindmap::coord::Coord;
use mindmap::graph::{Direction, Graph, Node};
use mindmap::history::Tag;
use mindmap::store::{Doc, Pose};
use mindmap::ui::editor::{Editor, Fold};
use mindmap::ui::frame::Hover;
use mindmap::ui::keys::rebind::{spell, Press};
use mindmap::ui::keys::{is_live, KeyMode, Where};
use mindmap::ui::pointer::{hit_bubble, hit_grip, hover, look, Look};

fn c(v: f32) -> Coord {
    Coord { bits: v.to_bits() }
}

fn f(v: Coord) -> f32 {
    f32::from_bits(v.bits)
}

fn carry(v: Coord, from: Coord, to: Coord) -> Coord {
    c(f(v) + (f(to) - f(from)))
}

fn sorted(mut v: Vec<u64>) -> Vec<u64> {
    v.sort_unstable();
    v
}

/// Under the root three children, one below the other, the middle one with a
/// child of its own.
fn family() -> (Graph, u64, [u64; 3], u64) {
    let mut g = Graph::new("root");
    let root = g.root_id;
    let a = g.create_child_at(root, c(160.0), c(0.0), "a").unwrap();
    let b = g.create_child_at(root, c(160.0), c(100.0), "b").unwrap();
    let d = g.create_child_at(root, c(160.0), c(200.0), "d").unwrap();
    let leaf = g.create_child_at(b, c(320.0), c(100.0), "leaf").unwrap();
    g.leave_edit();
    (g, root, [a, b, d], leaf)
}

fn place_of(g: &Graph, id: u64) -> (f32, f32) {
    (f(g.nodes[&id].x), f(g.nodes[&id].y))
}

#[test]
fn editing_is_entered_and_left_by_one_key() {
    let mut g = Graph::new("root");
    assert!(!g.is_editing());
    g.toggle_edit();
    assert!(g.is_editing());
    assert_eq!(g.caret(), 4);
    g.toggle_edit();
    assert!(!g.is_editing());
}

#[test]
fn the_caret_keeps_its_column_from_line_to_line() {
    let mut g = Graph::new("ab\ncdef\ng");
    g.enter_edit();
    assert!(g.set_caret(6));
    assert!(g.caret_up(false));
    assert_eq!(g.caret(), 2);
    assert!(g.caret_up(false));
    assert_eq!(g.caret(), 0);
    assert!(!g.caret_up(false));
    assert!(g.set_caret(5));
    assert!(g.caret_down(false));
    assert_eq!(g.caret(), 9);
    assert!(!g.caret_down(false));
    assert!(g.set_caret(1));
    assert!(g.caret_down(true));
    assert_eq!(g.selected_range(), Some((1, 4)));
}

#[test]
fn a_sweep_selects_from_where_it_began() {
    let mut g = Graph::new("hello");
    g.enter_edit();
    g.set_caret(1);
    assert!(g.extend_caret_to(4));
    assert_eq!(g.selected_text(), Some("ell"));
    assert!(g.delete_selection());
    assert_eq!(g.active_text(), "ho");
    assert!(!g.delete_selection());
}

#[test]
fn siblings_are_known_selected_and_ordered() {
    let (mut g, root, [a, b, d], leaf) = family();
    assert_eq!(g.siblings_of(b), vec![a, b, d]);
    assert_eq!(g.siblings_ordered(b), vec![a, b, d]);
    assert_eq!(g.parent_of(leaf), Some(b));
    assert_eq!(g.parent_of(root), None);
    g.focus(b);
    g.select_siblings_of(b);
    assert_eq!(g.acting_on(), vec![a, b, d]);
    assert_eq!(g.focused_id, b);
    g.focus(leaf);
    g.select_siblings_of(leaf);
    assert_eq!(g.acting_on(), vec![leaf]);
}

#[test]
fn a_sibling_trades_places_and_takes_its_branch_along() {
    let (mut g, _, [a, b, d], leaf) = family();
    assert!(!g.can_move_sibling(a, true));
    assert!(!g.can_move_sibling(d, false));
    assert!(g.can_move_sibling(b, true));
    assert!(g.move_sibling(b, true, &carry));
    assert_eq!(place_of(&g, b), (160.0, 0.0));
    assert_eq!(place_of(&g, leaf), (320.0, 0.0));
    assert_eq!(place_of(&g, a), (160.0, 100.0));
    assert_eq!(g.siblings_ordered(a), vec![b, a, d]);
    assert!(!g.move_sibling(b, true, &carry));
}

#[test]
fn nesting_and_lifting_say_when_they_can() {
    let (mut g, root, [a, b, _], leaf) = family();
    assert!(!g.can_indent(a));
    assert!(g.can_indent(b));
    assert!(!g.can_outdent(a));
    assert!(g.can_outdent(leaf));
    assert!(g.outdent(leaf));
    assert_eq!(g.parent_of(leaf), Some(root));
}

#[test]
fn cutting_loose_takes_the_edge_and_leaves_the_branch() {
    let (mut g, root, [_, b, _], leaf) = family();
    let edges = g.edges_to(b);
    assert_eq!(edges.len(), 1);
    assert!(g.detach(b));
    assert!(g.edges_to(b).is_empty());
    assert!(!g.edges.contains_key(&edges[0]));
    assert_eq!(g.parent_of(b), None);
    assert_eq!(g.parent_of(leaf), Some(b));
    assert!(!g.detach(b));
    assert!(!g.detach(root));
}

#[test]
fn a_dropped_branch_settles_as_a_whole() {
    let (mut g, _, [_, b, _], leaf) = family();
    g.settle_after_drop(b, c(150.0), c(90.0), &carry);
    assert_eq!(place_of(&g, b), (150.0, 90.0));
    assert_eq!(place_of(&g, leaf), (310.0, 90.0));
    g.carry_subtree(b, (c(0.0), c(0.0)), (c(10.0), c(10.0)), &carry);
    assert_eq!(place_of(&g, leaf), (320.0, 100.0));
    let moved = g.clone();
    assert!(g.positions_match(&moved));
    g.place(b, c(0.0), c(0.0));
    assert!(!g.positions_match(&moved));
    assert_eq!(g.carried_by(&vec![b]), vec![b]);
    g.toggle_collapsed(b);
    assert_eq!(sorted(g.carried_by(&vec![b])), sorted(vec![b, leaf]));
}

#[test]
fn the_tree_is_counted_and_folded_by_its_index() {
    let (mut g, root, [_, b, _], leaf) = family();
    let kids = g.children_index();
    assert_eq!(kids[&root].len(), 3);
    assert_eq!(kids[&b], vec![leaf]);
    assert_eq!(g.child_counts().get(&b), Some(&1));
    assert_eq!(g.child_counts().get(&leaf), None);
    assert!(g.hidden_set_from(&kids).is_empty());
    g.toggle_collapsed(b);
    let hidden: Vec<u64> = g.hidden_set_from(&kids).into_iter().collect();
    assert_eq!(hidden, vec![leaf]);
    g.open_for_content(b);
    assert!(g.hidden_set().is_empty());
}

#[test]
fn a_colour_goes_to_the_whole_selection() {
    let (mut g, _, [a, b, _], _) = family();
    g.set_node_selection(&vec![a, b]);
    assert!(g.is_node_selected(a));
    assert!(g.set_color_of_selection(Some(3)));
    assert!(!g.set_color_of_selection(Some(3)));
    assert_eq!((g.nodes[&a].color, g.nodes[&b].color), (Some(3), Some(3)));
}

#[test]
fn an_edge_label_is_entered_from_its_node() {
    let (mut g, root, [_, b, _], _) = family();
    g.focus(b);
    assert!(g.toggle_edge_edit_on_focused());
    assert_eq!(g.focused_edge, Some(g.edges_to(b)[0]));
    g.clear_edge_focus_only();
    assert_eq!(g.focused_edge, None);
    g.focus(root);
    assert!(!g.toggle_edge_edit_on_focused());
    assert_eq!(g.focused_edge, None);
}

#[test]
fn a_test_of_what_is_hit_leaves_out_what_it_is_told_to() {
    let (mut g, _, [a, b, _], leaf) = family();
    let near = |_: u64, n: &Node| Some(c((f(n.x) - 320.0).abs() + (f(n.y) - 100.0).abs()));
    assert_eq!(g.hit_test_with(&near), Some(leaf));
    let skip: HashSet<u64> = [leaf].into_iter().collect();
    assert_eq!(g.hit_test_excluding(&skip, &near), Some(b));
    let hidden: HashSet<u64> = [b].into_iter().collect();
    assert_ne!(g.hit_test_masked(&skip, &hidden, &near), Some(b));
    let high = |_: u64, n: &Node| f(n.y) < 150.0 && f(n.x) > 100.0;
    assert_eq!(sorted(g.nodes_in_rect_masked(&hidden, &high)), sorted(vec![a, leaf]));
    g.toggle_collapsed(b);
    assert_eq!(g.hit_test_with(&near), Some(b));
}

#[test]
fn the_pointer_tells_what_it_is_over() {
    assert_eq!(hover(Some(3), Some(9)), Some(Hover::Node(3)));
    assert_eq!(hover(None, Some(9)), Some(Hover::Edge(9)));
    assert_eq!(hover(None, None), None);

    let (mut g, root, [a, _, _], _) = family();
    g.focus(a);
    assert_eq!(look(&g, None, true), Look::ClosedHand);
    assert_eq!(look(&g, None, false), Look::Crosshair);
    assert_eq!(look(&g, Some(Hover::Node(a)), false), Look::PointingHand);
    g.enter_edit();
    assert_eq!(look(&g, Some(Hover::Node(a)), false), Look::Beam);
    assert_eq!(look(&g, Some(Hover::Node(root)), false), Look::PointingHand);
}

#[test]
fn a_grip_is_hit_only_where_it_shows() {
    let (g, _, [a, b, d], _) = family();
    let mut e = Editor::new(g);
    e.set_picture(a, "p.png", c(40.0), c(30.0));
    e.set_picture(b, "q.png", c(40.0), c(30.0));
    e.graph.focus(d);
    let near = |_: u64, n: &Node| Some(c(f(n.y)));
    let seen: HashSet<u64> = HashSet::new();
    assert_eq!(hit_grip(&e.graph, None, &seen, &near), None);
    assert_eq!(hit_grip(&e.graph, Some(Hover::Node(b)), &seen, &near), Some(b));
    e.graph.focus(a);
    assert_eq!(hit_grip(&e.graph, Some(Hover::Node(b)), &seen, &near), Some(a));
    let hidden: HashSet<u64> = [a].into_iter().collect();
    assert_eq!(hit_grip(&e.graph, Some(Hover::Node(b)), &hidden, &near), Some(b));
}

#[test]
fn a_bubble_is_hit_only_on_a_label_with_something_under_it() {
    let (g, root, [_, b, _], _) = family();
    let mut e = Editor::new(g);
    let near = |_: u64, n: &Node| Some(c((f(n.x) - 320.0).abs()));
    assert_eq!(hit_bubble(&e.graph, &near), Some(b));
    e.set_picture(b, "p.png", c(40.0), c(30.0));
    assert_eq!(hit_bubble(&e.graph, &near), Some(root));
}

#[test]
fn an_edit_is_tagged_by_what_it_is_about() {
    let (g, _, [a, b, _], _) = family();
    let mut e = Editor::new(g);
    e.graph.focus(a);
    assert_eq!(e.text_tag(), Tag::Text(a));
    let one = e.move_tag();
    e.graph.focus(b);
    assert_ne!(e.move_tag(), one);
    e.graph.focus(a);
    assert_eq!(e.move_tag(), one);
    assert!(e.graph.toggle_edge_edit_on_focused());
    assert_eq!(e.text_tag(), Tag::EdgeText(e.graph.edges_to(a)[0]));
}

#[test]
fn an_editor_grows_and_folds_in_steps() {
    let (g, _, [_, b, _], leaf) = family();
    let mut e = Editor::new(g);
    e.graph.focus(leaf);
    let place = |g: &Graph, p: u64, _: Direction| (c(f(g.nodes[&p].x) + 160.0), g.nodes[&p].y);
    let made = e.create(Direction::Right, &place).unwrap();
    assert_eq!(place_of(&e.graph, made), (480.0, 100.0));
    assert_eq!(e.graph.parent_of(made), Some(leaf));
    assert_eq!(e.toggle_fold_of(b), Fold::Folded(2));
    assert_eq!(e.toggle_fold_of(b), Fold::Unfolded);
    assert_eq!(e.history.depth(), 3);
    assert!(e.undo() && e.undo() && e.undo());
    assert!(!e.graph.nodes.contains_key(&made));
}

#[test]
fn a_binding_is_live_in_its_modes() {
    assert!(is_live(Where::Browse, KeyMode::Browse) && !is_live(Where::Browse, KeyMode::Edit));
    assert!(is_live(Where::Driving, KeyMode::Edit) && !is_live(Where::Driving, KeyMode::Find));
    assert!(is_live(Where::Session, KeyMode::Find) && !is_live(Where::Session, KeyMode::Help));
    assert!(is_live(Where::Anywhere, KeyMode::Help));
}

#[test]
fn a_chord_is_spelt_in_a_fixed_order() {
    let press = Press { key: "m".to_string(), cmd: true, ctrl: true, alt: true, shift: true };
    assert_eq!(spell(&press), "cmd-ctrl-alt-shift-m");
    let press = Press { key: "f".to_string(), cmd: true, ctrl: false, alt: false, shift: false };
    assert_eq!(spell(&press), "cmd-f");
}

#[test]
fn settling_a_document_drops_what_cannot_be_used() {
    let pose = Pose { x: c(f32::NAN), y: c(0.0), zoom: c(1.0) };
    let mut doc = Doc::new(Graph::new("root"), Some(pose), false, None);
    doc.settle();
    assert!(doc.camera.is_none());
    let pose = Pose { x: c(3.0), y: c(4.0), zoom: c(2.0) };
    let mut doc = Doc::new(Graph::new("root"), Some(pose), false, None);
    doc.settle();
    assert_eq!(doc.camera.map(|p| (f(p.x), f(p.y), f(p.zoom))), Some((3.0, 4.0, 2.0)));
}

#[test]
fn siblings_at_one_height_trade_places_too() {
    let mut g = Graph::new("r");
    let root = g.root_id;
    let two = g.create_child_at(root, c(-160.0), c(-56.0), "b").unwrap();
    let four = g.create_child_at(root, c(160.0), c(-56.0), "d").unwrap();
    let six = g.create_child_at(root, c(320.0), c(-56.0), "f").unwrap();
    let leaf = g.create_child_at(four, c(480.0), c(-56.0), "leaf").unwrap();
    assert_eq!((two, four), (2, 4));
    assert!(g.move_sibling(4, true, &carry));
    assert_eq!(g.siblings_ordered(4), vec![4, 2, six]);
    assert_eq!(place_of(&g, four).0, -160.0);
    assert_eq!(place_of(&g, leaf).0, 160.0);
    assert!(g.move_sibling(six, true, &carry));
    assert_eq!(g.siblings_ordered(4), vec![4, six, 2]);
    assert!(g.move_sibling(4, false, &carry));
    assert_eq!(g.siblings_ordered(4), vec![six, 4, 2]);
}

#[test]
fn the_caret_stays_on_a_boundary_where_there_is_no_sibling() {
    let mut g = Graph::new("r");
    assert_eq!(g.create_child_at(1, c(160.0), c(0.0), "é"), Some(2));
    g.focus(2);
    g.focus_edge(3);
    g.enter_edit();
    g.set_focused_text("abc".to_string());
    g.set_caret(1);
    assert!(!g.focus_sibling(1));
    assert_eq!(g.active_text(), "é");
    assert!(g.active_text().is_char_boundary(g.caret));
}

#[test]
fn a_fold_far_up_hides_what_is_under_it() {
    let mut g = Graph::new("r");
    let top = g.create_child_at(1, c(0.0), c(0.0), "top").unwrap();
    let mut last = top;
    for _ in 0..600 {
        last = g.create_child_at(last, c(0.0), c(0.0), "x").unwrap();
    }
    assert_eq!(g.hidden_count(1), 0, "nothing is folded");
    assert!(g.toggle_collapsed(top));
    assert_eq!(g.hidden_count(top), 600);
    assert!(g.is_hidden(last));
    assert!(g.hidden_set().contains(&last));
    assert!(g.create_child_at(last, c(0.0), c(0.0), "new").is_some());
    assert!(!g.is_collapsed(top), "what was made there can be seen");
    assert!(g.toggle_collapsed(top));
    let other = g.create_child_at(1, c(0.0), c(0.0), "other").unwrap();
    assert!(g.reparent(other, last));
    assert!(!g.is_collapsed(top));
}

#[test]
fn marks_nest_an_outline() {
    let mut g = Graph::new("r");
    let at = |_: &Graph, _: u64, _: Direction| (c(0.0), c(0.0));
    assert_eq!(g.paste_outline(1, "# a\n## b", &at), Some(2));
    assert_eq!(g.nodes[&2].text, "a");
    assert_eq!(g.nodes[&2].parent, Some(1));
    assert_eq!(g.nodes[&4].text, "b");
    assert_eq!(g.nodes[&4].parent, Some(2));
    let first = g.paste_outline(1, "- c\n  - d\ne", &at).unwrap();
    assert_eq!(g.nodes[&first].parent, Some(1));
    assert_eq!(g.nodes[&(first + 2)].parent, Some(first));
    assert_eq!(g.nodes[&(first + 4)].parent, Some(1));
}
