//! What the window decides.

use mindmap::coord::Coord;
use mindmap::graph::{Direction, Graph, Node};
use mindmap::store::{Doc, Load};
use mindmap::ui::clock::{beat, interval, under_way, Beat, Due, Pull, Toast};
use mindmap::ui::context::{menu_height, run_menu, MenuCmd, MenuRow, Over};
use mindmap::ui::document::{
    after_write, doc_stem, is_open, open_document, plural, save_now, startup, window_title,
    Opening, SaveNow,
};
use mindmap::ui::editor::travel::Placed;
use mindmap::ui::editor::writing::flatten;
use mindmap::ui::editor::{Coloured, Deleted, Editor, Fold};
use mindmap::ui::find::{shorten, Search};
use mindmap::ui::frame::{overview, plan_frame, Hover, Watch};
use mindmap::ui::gesture::{Begun, Button, Drag, Held, Hit, Press, Rung};
use mindmap::ui::help::{help_matches, keep_rows, Section};
use mindmap::ui::input;
use mindmap::ui::input::{aim, typed, Aim};
use mindmap::ui::keys::rebind;
use mindmap::ui::keys::rebind::{
    bind_rebindable, capture, chord_for, rebindable, show, Captured, Keymap, VERBS,
};
use mindmap::ui::keys::{bind_fixed, key_mode, look_up, passes_panel, Action, Chord, Key, KeyMode};
use mindmap::ui::label::{bands, caret_spot, lines, shown, Band, Spot};
use mindmap::ui::menus::{menus, Command, Item, Row};
use mindmap::ui::motion::Motion;

const NODE_HALF_W: f32 = 48.0;
const NODE_HALF_H: f32 = 13.0;
const MIN_GAP: f32 = 28.0;
const STEP_RIGHT: f32 = 160.0;
const STEP_DOWN: f32 = 56.0;

fn c(v: f32) -> Coord {
    Coord { bits: v.to_bits() }
}

fn f(v: Coord) -> f32 {
    f32::from_bits(v.bits)
}

fn boxes_intersect(a: (f32, f32), b: (f32, f32)) -> bool {
    let (w, h) = (NODE_HALF_W * 2.0 + MIN_GAP, NODE_HALF_H * 2.0 + MIN_GAP);
    let (ax, ay) = (a.0 - w / 2.0, a.1 - h / 2.0);
    let (bx, by) = (b.0 - w / 2.0, b.1 - h / 2.0);
    !(ax + w <= bx || bx + w <= ax || ay + h <= by || by + h <= ay)
}

/// A place near `desired` that is clear of what is in sight.
fn resolve(g: &Graph, desired: (f32, f32)) -> (f32, f32) {
    let hidden = g.hidden_set();
    let mut ids: Vec<u64> = g.nodes.keys().copied().filter(|id| !hidden.contains(id)).collect();
    ids.sort_unstable();
    let others: Vec<(f32, f32)> = ids.iter().map(|id| (f(g.nodes[id].x), f(g.nodes[id].y))).collect();
    let mut p = desired;
    for _ in 0..24 {
        let mut moved = false;
        for o in &others {
            if !boxes_intersect(p, *o) {
                continue;
            }
            let (dx, dy) = (p.0 - o.0, p.1 - o.1);
            let (min_dx, min_dy) = (NODE_HALF_W * 2.0 + MIN_GAP, NODE_HALF_H * 2.0 + MIN_GAP);
            if dx.abs() < 1e-4 && dy.abs() < 1e-4 {
                p.0 += min_dx;
                moved = true;
                continue;
            }
            let (pen_x, pen_y) = (min_dx - dx.abs(), min_dy - dy.abs());
            if pen_x > 0.0 && pen_y > 0.0 {
                if pen_x < pen_y {
                    p.0 += if dx >= 0.0 { pen_x } else { -pen_x };
                } else {
                    p.1 += if dy >= 0.0 { pen_y } else { -pen_y };
                }
                moved = true;
            }
        }
        if !moved {
            break;
        }
    }
    p
}

/// Where a child of `parent` goes.
fn place(g: &Graph, parent: u64, direction: Direction) -> (Coord, Coord) {
    let Some(p) = g.nodes.get(&parent) else {
        return (c(0.0), c(0.0));
    };
    let (px, py) = (f(p.x), f(p.y));
    let same_axis = g
        .children_of(parent)
        .iter()
        .filter(|id| {
            let (kx, ky) = (f(g.nodes[id].x), f(g.nodes[id].y));
            match direction {
                Direction::Right => kx > px + 20.0,
                Direction::Left => kx < px - 20.0,
                Direction::Up => ky < py - 20.0,
                Direction::Down => ky > py + 20.0,
            }
        })
        .count() as f32;
    let mut at = match direction {
        Direction::Right => (px + STEP_RIGHT, py),
        Direction::Left => (px - STEP_RIGHT, py),
        Direction::Up => (px, py - STEP_DOWN),
        Direction::Down => (px, py + STEP_DOWN),
    };
    match direction {
        Direction::Right | Direction::Left => at.1 += same_axis * (NODE_HALF_H * 2.0 + MIN_GAP),
        Direction::Up | Direction::Down => at.0 += same_axis * (NODE_HALF_W * 2.0 + MIN_GAP),
    }
    let (x, y) = resolve(g, at);
    (c(x), c(y))
}

/// Something at `v` carried along from one place to another.
fn carry(v: Coord, from: Coord, to: Coord) -> Coord {
    c(f(v) + (f(to) - f(from)))
}

fn editor() -> Editor {
    let mut g = Graph::new("root");
    let root = g.root_id;
    g.create_child(root, Direction::Right, "ideas", &place);
    g.create_child(root, Direction::Up, "goals", &place);
    g.create_child(root, Direction::Down, "notes", &place);
    let ideas = by_text(&g, "ideas");
    g.create_child(ideas, Direction::Right, "ship", &place);
    g.focus(root);
    g.leave_edit();
    Editor::new(g)
}

fn by_text(g: &Graph, text: &str) -> u64 {
    *g.nodes.iter().find(|(_, n)| n.text == text).unwrap().0
}

fn press(hit: Hit) -> Press {
    Press {
        button: Button::Left,
        shift: false,
        platform: false,
        control: false,
        clicks: 1,
        hit,
        menu: false,
    }
}

// ---- verbs -----------------------------------------------------------------

#[test]
fn a_verb_can_be_taken_back_and_done_again() {
    let mut e = editor();
    let n = e.graph.nodes.len();
    assert!(e.create_child(&place).is_some());
    assert_eq!(e.graph.nodes.len(), n + 1);
    assert!(e.undo());
    assert_eq!(e.graph.nodes.len(), n);
    assert!(e.redo());
    assert_eq!(e.graph.nodes.len(), n + 1);
    assert!(!e.redo());
}

#[test]
fn deleting_says_what_it_came_to() {
    let mut e = editor();
    assert_eq!(e.delete(), Deleted::RootStays);
    assert_eq!(e.history.depth(), 0, "a refused delete leaves no step");
    e.graph.deselect_all();
    assert_eq!(e.delete(), Deleted::Nothing);
    let ideas = by_text(&e.graph, "ideas");
    e.graph.focus(ideas);
    assert_eq!(e.delete(), Deleted::Gone(2));
    assert!(e.undo());
    let notes = by_text(&e.graph, "notes");
    e.graph.focus(notes);
    let edge = e.graph.edge_to_focused().unwrap();
    e.graph.focus_edge(edge);
    assert_eq!(e.delete(), Deleted::Cut);
    assert_eq!(e.graph.nodes[&notes].parent, None);
}

#[test]
fn a_colour_is_given_only_once() {
    let mut e = editor();
    assert_eq!(e.set_color(Some(4)), Coloured::Changed);
    assert_eq!(e.graph.focused().color, Some(4));
    assert_eq!(e.set_color(Some(4)), Coloured::Same);
    assert_eq!(e.history.depth(), 1);
    e.graph.deselect_all();
    e.graph.focused_edge = None;
    e.graph.nodes.clear();
    assert_eq!(e.set_color(Some(1)), Coloured::Nothing);
}

#[test]
fn folding_counts_what_it_hides() {
    let mut e = editor();
    let ideas = by_text(&e.graph, "ideas");
    let ship = by_text(&e.graph, "ship");
    e.graph.focus(ideas);
    assert_eq!(e.toggle_fold(), Fold::Folded(1));
    assert_eq!(e.toggle_fold(), Fold::Unfolded);
    e.graph.focus(ship);
    assert_eq!(e.toggle_fold(), Fold::NothingBelow);
    assert_eq!(e.history.depth(), 2);
}

#[test]
fn siblings_trade_places() {
    let mut e = editor();
    let goals = by_text(&e.graph, "goals");
    let ideas = by_text(&e.graph, "ideas");
    let before = (e.graph.nodes[&goals].y, e.graph.nodes[&ideas].y);
    e.graph.focus(goals);
    assert!(!e.reorder(true, &carry), "already the first");
    assert!(e.reorder(false, &carry));
    assert_eq!((e.graph.nodes[&ideas].y, e.graph.nodes[&goals].y), before);
}

#[test]
fn a_node_goes_in_and_comes_out_again() {
    let mut e = editor();
    let ideas = by_text(&e.graph, "ideas");
    let goals = by_text(&e.graph, "goals");
    e.graph.focus(ideas);
    assert!(e.indent());
    assert_eq!(e.graph.nodes[&ideas].parent, Some(goals));
    assert!(e.outdent());
    assert_eq!(e.graph.nodes[&ideas].parent, Some(e.graph.root_id));
    assert!(!e.outdent());
}

#[test]
fn tidying_a_tidy_map_leaves_no_step() {
    let mut e = editor();
    assert!(e.tidy(&carry));
    assert!(!e.tidy(&carry));
    assert_eq!(e.history.depth(), 1);
}

#[test]
fn nudges_of_one_set_are_one_step() {
    let mut e = editor();
    let shift = |x: Coord, y: Coord| (c(f(x) + 20.0), y);
    assert!(e.nudge(&shift));
    assert!(e.nudge(&shift));
    assert_eq!(e.history.depth(), 1);
    assert_eq!(f(e.graph.focused().x), 40.0);
}

#[test]
fn what_is_cut_can_be_pasted() {
    let mut e = editor();
    let ideas = by_text(&e.graph, "ideas");
    e.graph.focus(ideas);
    let n = e.graph.nodes.len();
    let (clip, gone) = e.cut_nodes(&|a: Coord, b: Coord| c(f(a) - f(b)));
    let clip = clip.unwrap();
    assert_eq!(gone, Deleted::Gone(2));
    assert_eq!(e.graph.nodes.len(), n - 2);
    assert_eq!(e.paste_clip(&clip, c(0.0), c(0.0), &|a: Coord, b: Coord| c(f(a) + f(b))), 2);
    assert_eq!(e.graph.nodes.len(), n);
}

#[test]
fn an_outline_grows_under_the_cursor() {
    let mut e = editor();
    let first = e.paste_outline("one\n  two\nthree\n", &place).unwrap();
    assert_eq!(e.graph.nodes[&first].text, "one");
    let two = by_text(&e.graph, "two");
    assert_eq!(e.graph.nodes[&two].parent, Some(first));
    assert_eq!(e.graph.focused_id, first);
    assert_eq!(e.paste_outline("  \n", &place), None);
    assert_eq!(e.history.depth(), 1);
}

#[test]
fn a_node_is_made_where_it_is_asked_for() {
    let mut e = editor();
    assert!(e.new_node_at(c(400.0), c(-200.0)));
    assert_eq!((f(e.graph.focused().x), f(e.graph.focused().y)), (400.0, -200.0));
    e.graph.leave_edit();
    let ideas = by_text(&e.graph, "ideas");
    assert!(e.grow_at(ideas, c(5.0), c(6.0)));
    assert_eq!(e.graph.focused().parent, Some(ideas));
    e.graph.next_id = u64::MAX;
    let depth = e.history.depth();
    assert!(!e.new_node_at(c(0.0), c(0.0)));
    assert!(!e.grow_at(ideas, c(0.0), c(0.0)));
    assert_eq!(e.history.depth(), depth, "nothing is noted when nothing is made");
}

// ---- typing ----------------------------------------------------------------

#[test]
fn typing_is_one_step_until_the_label_is_left() {
    let mut e = editor();
    assert!(!e.type_char('x'), "a stray key rewrites nothing");
    e.commit();
    for ch in " map".chars() {
        assert!(e.type_char(ch));
    }
    assert_eq!(e.graph.focused().text, "root map");
    e.commit();
    assert!(!e.graph.is_editing());
    assert!(e.undo());
    assert_eq!(e.graph.focused().text, "root");
    assert!(!e.undo());
}

#[test]
fn deleting_in_a_label_is_noted_only_where_it_deletes() {
    let mut e = editor();
    e.commit();
    assert!(!e.delete_forward());
    assert_eq!(e.history.depth(), 0);
    assert!(e.backspace());
    assert_eq!(e.graph.focused().text, "roo");
    assert!(e.delete_word());
    assert_eq!(e.graph.focused().text, "");
    assert!(!e.delete_word());
    assert!(!e.backspace());
    assert!(!e.clear());
}

#[test]
fn pasted_words_stay_on_one_line() {
    assert_eq!(flatten("  a \n\t b  "), "a b");
    let mut e = editor();
    e.commit();
    assert!(e.paste_text(" and\nbranch"));
    assert!(!e.graph.focused().text.contains('\n'));
    assert_eq!(e.clipboard_text().unwrap(), e.graph.focused().text);
    e.graph.select_all();
    let all = e.graph.focused().text.clone();
    assert_eq!(e.cut_text(), Some(all));
    assert_eq!(e.graph.focused().text, "");
}

// ---- moving about ----------------------------------------------------------

#[test]
fn the_cursor_goes_to_the_ends_of_the_map() {
    let mut e = editor();
    let notes = by_text(&e.graph, "notes");
    assert_eq!(e.focus_last(), Some(notes));
    e.focus_root();
    assert_eq!(e.graph.focused_id, e.graph.root_id);
    let ideas = by_text(&e.graph, "ideas");
    e.graph.focus(ideas);
    assert!(e.focus_sibling(true));
    assert_ne!(e.graph.focused_id, ideas);
    assert!(e.focus_sibling(false));
    assert_eq!(e.graph.focused_id, ideas);
    e.commit();
    assert!(!e.focus_sibling(true), "not while typing");
}

#[test]
fn everything_can_be_selected() {
    let mut e = editor();
    e.select_all();
    assert_eq!(e.graph.acting_on().len(), 5);
    e.commit();
    e.select_all();
    assert_eq!(e.graph.selected_text(), Some(e.graph.focused().text.as_str()));
}

#[test]
fn a_label_of_an_edge_is_opened_and_left() {
    let mut e = editor();
    assert!(!e.toggle_edge_label(), "no edge leads to the root");
    let ideas = by_text(&e.graph, "ideas");
    e.graph.focus(ideas);
    assert!(e.toggle_edge_label());
    assert!(e.graph.is_editing() && e.graph.focused_edge.is_some());
    assert!(e.toggle_edge_label());
    assert!(e.graph.focused_edge.is_none());
}

#[test]
fn replacing_is_one_step() {
    let mut e = editor();
    assert_eq!(e.replace_all("o", "0"), 3);
    assert_eq!(by_text(&e.graph, "r00t"), e.graph.root_id);
    assert_eq!(e.replace_all("zzz", "y"), 0);
    assert_eq!(e.history.depth(), 1);
    assert!(e.undo());
    assert_eq!(e.graph.nodes[&e.graph.root_id].text, "root");
}

#[test]
fn pictures_that_arrive_together_are_one_step() {
    let mut e = editor();
    let picture = |name: &str, x: f32| Placed {
        name: name.to_string(),
        x: c(x),
        y: c(0.0),
        w: c(100.0),
        h: c(50.0),
    };
    assert_eq!(e.place_images(&vec![picture("a.png", 500.0), picture("b.png", 700.0)]), 2);
    assert_eq!(e.history.depth(), 1);
    assert!(!e.graph.is_editing());
    let first = e.graph.focused();
    assert_eq!(first.image.as_ref().unwrap().name, "a.png");
    assert_eq!(e.place_images(&Vec::new()), 0);
    assert_eq!(e.history.depth(), 1);
}

#[test]
fn a_match_is_brought_out_of_its_fold() {
    let mut e = editor();
    let ideas = by_text(&e.graph, "ideas");
    let ship = by_text(&e.graph, "ship");
    e.graph.toggle_collapsed(ideas);
    assert!(e.go_to(ship));
    assert_eq!(e.graph.focused_id, ship);
    assert!(!e.graph.is_hidden(ship));
    assert!(!e.go_to(ship));
}

// ---- the pointer -----------------------------------------------------------

#[test]
fn a_press_begins_what_it_lands_on() {
    let mut e = editor();
    let ideas = by_text(&e.graph, "ideas");
    let notes = by_text(&e.graph, "notes");
    match e.press(press(Hit::Node(ideas))) {
        Begun::Node(id, list) => {
            assert_eq!(id, ideas);
            assert_eq!(list, vec![ideas]);
        }
        _ => panic!("a drag of the node"),
    }
    assert!(matches!(e.press(press(Hit::Node(ideas))), Begun::Text), "a second press is for text");
    assert!(e.graph.is_editing());
    let shifted = Press { shift: true, ..press(Hit::Node(notes)) };
    assert!(matches!(e.press(shifted), Begun::Picked));
    assert_eq!(e.graph.acting_on().len(), 2);
    let branch = Press { platform: true, ..press(Hit::Node(ideas)) };
    assert!(matches!(e.press(branch), Begun::Picked));
    assert_eq!(e.graph.acting_on().len(), 3);
    assert!(matches!(e.press(press(Hit::Bubble(ideas))), Begun::Grow(_)));
    assert!(matches!(e.press(press(Hit::Grip(ideas))), Begun::Resize(_)));
    assert!(matches!(e.press(Press { control: true, ..press(Hit::Ground) }), Begun::Menu));
    assert!(matches!(e.press(Press { menu: true, ..press(Hit::Ground) }), Begun::Closed));
    assert!(matches!(e.press(Press { button: Button::Middle, ..press(Hit::Ground) }), Begun::Pan));
    assert!(matches!(e.press(Press { clicks: 2, ..press(Hit::Ground) }), Begun::NewNode));
    match e.press(press(Hit::Ground)) {
        Begun::Marquee(base, focus) => {
            assert!(base.is_empty());
            assert_eq!(focus, e.graph.focused_id);
        }
        _ => panic!("a rubber band"),
    }
    let edge = *e.graph.edges.keys().min().unwrap();
    assert!(matches!(e.press(press(Hit::Edge(edge))), Begun::Edge));
    assert!(matches!(e.press(press(Hit::Edge(edge))), Begun::Text));
}

#[test]
fn repeated_presses_take_more() {
    let mut e = Editor::new(Graph::new("ship the whole"));
    e.commit();
    e.graph.set_caret(6);
    e.widen(1);
    assert_eq!(e.graph.selected_text(), None);
    e.widen(2);
    assert_eq!(e.graph.selected_text(), Some("the"));
    e.widen(3);
    assert_eq!(e.graph.selected_text(), Some("ship the whole"));
}

#[test]
fn a_move_that_is_given_up_never_was() {
    let mut e = editor();
    let before = e.graph.focused().x;
    let depth = e.begin_move();
    e.graph.move_selection_by(&|x: Coord, y: Coord| (c(f(x) + 9.0), y));
    e.abort(Drag::Node { moved: true, depth });
    assert_eq!(e.graph.focused().x, before);
    assert!(!e.history.can_undo() && !e.history.can_redo());
}

#[test]
fn a_resize_that_is_given_up_never_was() {
    let mut e = editor();
    let ideas = by_text(&e.graph, "ideas");
    e.set_picture(ideas, "a.png", c(100.0), c(50.0));
    let depth = e.begin_resize(ideas);
    e.set_picture(ideas, "a.png", c(200.0), c(100.0));
    e.abort(Drag::Resize { id: ideas, w: c(100.0), h: c(50.0), moved: true, depth });
    assert_eq!(f(e.graph.nodes[&ideas].image.as_ref().unwrap().w), 100.0);
    assert!(!e.history.can_undo());
}

#[test]
fn a_band_over_nothing_leaves_the_cursor() {
    let mut e = editor();
    let ideas = by_text(&e.graph, "ideas");
    let notes = by_text(&e.graph, "notes");
    let root = e.graph.root_id;
    e.band(&vec![ideas], &vec![notes, ideas], root);
    assert_eq!(e.graph.acting_on().len(), 2);
    e.band(&Vec::new(), &Vec::new(), root);
    assert!(e.graph.acting_on().is_empty());
    assert_eq!(e.graph.focused_id, root);
    e.abort(Drag::Marquee { base: vec![notes], focus: ideas });
    assert_eq!(e.graph.acting_on(), vec![notes]);
    assert_eq!(e.graph.focused_id, ideas);
}

#[test]
fn a_branch_is_dropped_where_it_may_hang() {
    let mut e = editor();
    let ideas = by_text(&e.graph, "ideas");
    let ship = by_text(&e.graph, "ship");
    let notes = by_text(&e.graph, "notes");
    assert_eq!(e.drop_target(&vec![ideas], Some(ship)), None);
    assert_eq!(e.drop_target(&vec![ideas, ship], Some(notes)), Some(notes));
    assert_eq!(e.drop_target(&vec![ideas], None), None);
    let land = |g: &Graph, id: u64| {
        let (x, y) = resolve(g, (f(g.nodes[&id].x) + 500.0, f(g.nodes[&id].y)));
        (c(x), c(y))
    };
    let gap = f(e.graph.nodes[&ship].x) - f(e.graph.nodes[&ideas].x);
    assert_eq!(e.drop_onto(&vec![ideas, ship], notes, &land, &carry), 1);
    assert_eq!(e.graph.nodes[&ideas].parent, Some(notes));
    assert_eq!(f(e.graph.nodes[&ship].x) - f(e.graph.nodes[&ideas].x), gap);
    assert_eq!(e.drop_loose(&vec![ideas]), 1);
    assert_eq!(e.graph.nodes[&ideas].parent, None);
    assert_eq!(e.drop_loose(&vec![ideas]), 0);
}

#[test]
fn escape_climbs_to_the_top() {
    let mut e = editor();
    let ship = by_text(&e.graph, "ship");
    let none = Held { menu: false, find: false, help: false, drag: false };
    e.graph.focus(ship);
    e.commit();
    let all = Held { menu: true, find: true, help: true, drag: true };
    assert_eq!(e.escape(all), Rung::Menu);
    assert_eq!(e.escape(Held { menu: false, ..all }), Rung::Find);
    assert_eq!(e.escape(Held { help: true, ..none }), Rung::Help);
    assert_eq!(e.escape(Held { drag: true, ..none }), Rung::Drag);
    assert_eq!(e.escape(none), Rung::Label);
    assert_eq!(e.escape(none), Rung::Selection);
    assert_eq!(e.escape(none), Rung::Parent);
    assert_eq!(e.graph.focused().text, "ideas");
    assert_eq!(e.escape(none), Rung::Selection);
    assert_eq!(e.escape(none), Rung::Parent);
    assert_eq!(e.escape(none), Rung::Selection);
    assert_eq!(e.escape(none), Rung::Top);
}

// ---- menus and keys --------------------------------------------------------

#[test]
fn the_menu_fits_what_it_is_over() {
    let mut e = editor();
    let ideas = by_text(&e.graph, "ideas");
    let rows = e.open_menu(Over::Node(ideas));
    assert_eq!(rows.len(), 12);
    assert_eq!(e.graph.focused_id, ideas, "a node outside the selection is picked first");
    assert_eq!(menu_height(&rows), 9 * 22 + 3 * 7 + 8);
    assert!(matches!(&rows[5], MenuRow::Item(l, k, MenuCmd::Fold) if l == "Fold branch" && k == "⌘."));
    let rows = e.open_menu(Over::Ground);
    assert_eq!(rows.len(), 6);
    assert!(e.graph.acting_on().is_empty());
    e.select_all();
    assert_eq!(e.open_menu(Over::Node(ideas)).len(), 8);
    let edge = *e.graph.edges.keys().min().unwrap();
    assert_eq!(e.open_menu(Over::Edge(edge)).len(), 1);
    assert_eq!(e.graph.focused_edge, Some(edge));
    assert_eq!(run_menu(MenuCmd::Tidy), Some(Action::TidyLayout));
    assert_eq!(run_menu(MenuCmd::EditLabel), None);
    e.edit_label();
    assert!(e.graph.is_editing());
    e.graph.focus(ideas);
    e.select_branch();
    assert_eq!(e.graph.acting_on().len(), 2);
}

#[test]
fn a_chord_means_what_the_mode_makes_of_it() {
    let plain = |key: Key| Chord { cmd: false, ctrl: false, alt: false, shift: false, key };
    assert_eq!(key_mode(true, true, true), KeyMode::Help);
    assert_eq!(key_mode(false, true, true), KeyMode::Find);
    assert_eq!(key_mode(false, false, true), KeyMode::Edit);
    assert_eq!(look_up(plain(Key::Left), KeyMode::Browse), Some(Action::NudgeLeft));
    let alt = Chord { alt: true, ..plain(Key::Left) };
    assert_eq!(look_up(alt, KeyMode::Browse), Some(Action::NavLeft));
    assert_eq!(look_up(plain(Key::Left), KeyMode::Edit), Some(Action::CaretLeft));
    assert_eq!(look_up(plain(Key::Char('q')), KeyMode::Browse), None);
    assert!(bind_fixed().len() > 50);
}

#[test]
fn a_chord_is_taken_from_the_verb_that_had_it() {
    let mut keymap = Keymap::new();
    let verbs = rebindable();
    assert_eq!(verbs.len(), VERBS);
    assert_eq!(chord_for(verbs[0].name, &keymap), verbs[0].chord);
    let key = |key: &str, cmd: bool| rebind::Press {
        key: key.to_string(),
        cmd,
        ctrl: false,
        alt: false,
        shift: false,
    };
    assert_eq!(capture(&mut keymap, 0, &key("escape", false)), Captured::Cancelled);
    assert_eq!(capture(&mut keymap, 0, &key("", true)), Captured::Waiting);
    assert_eq!(capture(&mut keymap, 0, &key("j", false)), Captured::Refused);
    assert_eq!(capture(&mut keymap, 0, &key("j", true)), Captured::Bound);
    assert_eq!(chord_for(verbs[0].name, &keymap), "cmd-j");
    assert_eq!(capture(&mut keymap, 1, &key("j", true)), Captured::Bound);
    assert_eq!(chord_for(verbs[1].name, &keymap), "cmd-j");
    assert_eq!(show(&keymap, 0, false), "unbound");
    assert_eq!(show(&keymap, 0, true), "press a chord…");
    assert_eq!(bind_rebindable(&keymap).len(), VERBS - 1);
    assert!(keymap.remove(verbs[1].name));
    assert_eq!(chord_for(verbs[1].name, &keymap), verbs[1].chord);
}

#[test]
fn the_menu_bar_lists_the_recent_documents() {
    let all = menus(&vec!["plan.json".to_string()]);
    let file = all.iter().find(|m| m.name == "File").unwrap();
    let recent = file
        .items
        .iter()
        .find_map(|i| match i {
            Item::Sub(name, rows) if name == "Open Recent" => Some(rows),
            _ => None,
        })
        .unwrap();
    assert!(matches!(&recent[0], Row::Item(l, Command::OpenRecent(0)) if l == "plan.json"));
}

// ---- search and help -------------------------------------------------------

#[test]
fn a_search_steps_round_and_survives_its_field() {
    let e = editor();
    let mut s = Search::new();
    s.open(&e.graph);
    let field = s.field.as_mut().unwrap();
    assert!(field.type_char('o'));
    field.refresh(&e.graph);
    assert_eq!(field.count(), "1 of 3");
    let first = field.current();
    field.step(false);
    assert_eq!(field.count(), "3 of 3");
    field.step(true);
    assert_eq!(field.current(), first);
    field.toggle_replace();
    assert!(!field.type_char('x'), "that went into the replacement");
    assert!(!field.backspace());
    field.toggle_replace();
    assert!(s.close() && !s.close());
    s.open(&e.graph);
    assert_eq!(s.field.as_ref().unwrap().query, "o");
    assert_eq!(shorten("äb"), "ä");
}

#[test]
fn help_is_searched_by_title_key_and_text() {
    assert!(help_matches(" ARROW ", "Move", "arrows", "walk the map"));
    assert!(help_matches("", "Move", "arrows", "walk"));
    assert!(!help_matches("zoom", "Move", "arrows", "walk"));
    let section = Section {
        title: "Move".to_string(),
        rows: vec![
            ("arrows".to_string(), "walk the map".to_string()),
            ("home".to_string(), "to the root".to_string()),
        ],
    };
    assert_eq!(keep_rows("root", &section), vec![1]);
    assert_eq!(keep_rows("move", &section), vec![0, 1]);
}

// ---- labels and frames -----------------------------------------------------

#[test]
fn a_selection_is_drawn_line_by_line() {
    let label = "ab\n\ncd";
    assert_eq!(lines(label), vec![(0, 2), (3, 3), (4, 6)]);
    let all = bands(label, Some((1, 5)));
    assert_eq!(all.len(), 3);
    assert_eq!(all[0], Band { row: 0, start: 0, from: 1, to: 2, tail: true });
    assert_eq!(all[1], Band { row: 1, start: 3, from: 3, to: 3, tail: true });
    assert_eq!(all[2], Band { row: 2, start: 4, from: 4, to: 5, tail: false });
    assert!(bands(label, None).is_empty());
    assert_eq!(caret_spot(label, 5), Spot { row: 2, start: 4, at: 5 });
}

#[test]
fn a_frame_holds_what_is_in_sight() {
    let mut e = editor();
    let ideas = by_text(&e.graph, "ideas");
    let ship = by_text(&e.graph, "ship");
    let watch = Watch { hover: Some(Hover::Node(ideas)), onto: None, severing: None };
    let all = plan_frame(&e.graph, watch, None, &|_: u64, _: &Node| true);
    assert_eq!(all.nodes.len(), 5);
    assert_eq!(all.edges.len(), 4);
    assert!(all.nodes.iter().find(|n| n.id == ideas).unwrap().hover);
    e.graph.toggle_collapsed(ideas);
    let folded = plan_frame(&e.graph, watch, None, &|_: u64, _: &Node| true);
    assert_eq!(folded.nodes.len(), 4);
    assert!(folded.nodes.iter().all(|n| n.id != ship));
    assert!(folded.edges.iter().all(|x| x.to != ship));
    assert_eq!(folded.nodes.iter().find(|n| n.id == ideas).unwrap().fold, Some(Some(1)));
    assert_eq!(overview(&e.graph).len(), 5, "the overview shows what is folded too");
}

// ---- time, motion and text -------------------------------------------------

#[test]
fn a_beat_draws_only_what_changed() {
    let idle = Beat {
        eased: false,
        panned: false,
        pinched: false,
        flown: false,
        blinked: true,
        caret: false,
        toast: Toast::Held,
        unsaved: true,
        due: false,
    };
    assert_eq!(beat(idle), Due { redraw: false, save: false });
    assert_eq!(beat(Beat { caret: true, ..idle }), Due { redraw: true, save: false });
    assert_eq!(beat(Beat { toast: Toast::Fading, ..idle }), Due { redraw: true, save: false });
    assert_eq!(beat(Beat { due: true, ..idle }), Due { redraw: true, save: true });
    assert_eq!(beat(Beat { due: true, pinched: true, ..idle }), Due { redraw: true, save: false });
    assert_eq!((interval(false, false, false, false), interval(false, true, false, false)), (16, 8));
    assert!(under_way(Pull::Nodes { moved: true }) && !under_way(Pull::Band { open: false }));
}

#[test]
fn nodes_ease_towards_their_places() {
    let mut e = editor();
    let ideas = by_text(&e.graph, "ideas");
    let was = e.graph.nodes[&ideas].x;
    let mut m = Motion::new();
    m.capture(&e.graph);
    e.graph.place(ideas, c(f(was) + 100.0), e.graph.nodes[&ideas].y);
    m.capture(&e.graph);
    let near = |x: Coord, y: Coord, tx: Coord, ty: Coord| {
        (f(x) - f(tx)).abs() + (f(y) - f(ty)).abs() < 0.5
    };
    let ease = |v: Coord, to: Coord| c(f(v) + (f(to) - f(v)) * 0.5);
    assert_eq!(m.draw_at(ideas, c(0.0), c(0.0)).0, was);
    assert!(m.step(&e.graph, &near, &ease));
    assert_eq!(f(m.draw_at(ideas, c(0.0), c(0.0)).0), f(was) + 50.0);
    let root = e.graph.root_id;
    assert_eq!(f(m.draw_at(root, c(7.0), c(8.0)).0), 7.0, "what did not move has arrived");
    for _ in 0..20 {
        m.step(&e.graph, &near, &ease);
    }
    assert!(!m.step(&e.graph, &near, &ease));
}

#[test]
fn only_plain_keys_are_text() {
    let none = input::Held { platform: false, control: false, function: false };
    assert_eq!(typed(none, Some("a")), Some('a'));
    assert_eq!(typed(none, Some("é")), Some('é'));
    assert_eq!(typed(none, Some("ab")), None);
    assert_eq!(typed(none, Some("\u{7}")), None);
    assert_eq!(typed(none, Some("\u{85}")), None);
    assert_eq!(typed(none, None), None);
    assert_eq!(typed(input::Held { platform: true, ..none }, Some("r")), None);
    assert_eq!(aim(true, true, true), Aim::Help);
    assert_eq!(aim(false, false, true), Aim::Label);
    assert_eq!(aim(false, false, false), Aim::Nowhere);
}

// ---- documents -------------------------------------------------------------

#[test]
fn a_session_begins_with_what_was_found() {
    let start = |demo, empty, found| startup(demo, empty, found, &place, &carry);
    let s = start(true, true, None);
    assert!(s.graph.nodes.len() > 5 && s.path.is_none() && s.warning.is_none());
    let s = start(false, true, None);
    assert_eq!((s.graph.nodes.len(), s.path), (1, None));
    let s = start(false, false, None);
    assert_eq!(s.warning.as_deref(), Some("no home directory to save into"));
    let s = start(false, false, Some(("/m.json".to_string(), Load::Fresh)));
    assert_eq!(s.graph.focused().text, "My first idea");
    assert_eq!(s.path.as_deref(), Some("/m.json"));
    let bad = Load::Unreadable("broken".to_string());
    let s = start(false, false, Some(("/m.json".to_string(), bad)));
    assert_eq!((s.path, s.warning.as_deref()), (None, Some("broken")));
    let doc = Doc::new(Graph::new("mine"), None, true, None);
    let s = start(false, false, Some(("/m.json".to_string(), Load::Opened(doc))));
    assert!(s.theme.dark && s.graph.focused().text == "mine");
}

#[test]
fn another_document_is_never_taken_for_an_empty_one() {
    match open_document("/a.json", Load::Fresh) {
        Opening::Kept(m) => assert_eq!(m, "nothing at /a.json"),
        Opening::Taken(_) => panic!("there is nothing there"),
    }
    assert!(is_open(&Some("/a//b".to_string()), "/a/b") && !is_open(&None, "/a"));
    let e = Editor::adopt(Graph::new(""), true);
    assert!(e.graph.is_editing() && !e.history.can_undo());
}

#[test]
fn saving_says_why_it_cannot() {
    assert!(matches!(save_now(&None, true), SaveNow::Write));
    assert!(matches!(save_now(&None, false), SaveNow::Refused(m) if m.starts_with("scratch map")));
    assert!(matches!(save_now(&Some("why".into()), true), SaveNow::Refused(m) if m == "why"));
    let failed = after_write(Some(Err("full".to_string())), None);
    assert!(failed.unsaved && failed.error.as_deref() == Some("full"));
    let done = after_write(Some(Ok(())), failed.error);
    assert!(!done.unsaved && done.error.is_none());
    assert_eq!(after_write(None, Some("old".into())).error.as_deref(), Some("old"));
}

#[test]
fn the_window_carries_the_documents_name() {
    let path = Some("/maps/plan.json".to_string());
    assert_eq!(window_title(&path, false), "plan");
    assert_eq!(window_title(&path, true), "• plan");
    assert_eq!(window_title(&None, false), "Untitled");
    assert_eq!(doc_stem(&path), "plan");
    assert_eq!(doc_stem(&None), "map");
    assert_eq!((plural(1), plural(0), plural(2)), ("", "s", "s"));
}

#[test]
fn an_empty_label_is_a_dot_until_it_is_written() {
    assert_eq!(shown("idea", true), "idea");
    assert_eq!(shown("", false), "·");
    assert_eq!(shown("", true), " ");
}

fn chord_text(chord: Chord) -> String {
    let mut out = String::new();
    for (held, name) in
        [(chord.cmd, "cmd-"), (chord.ctrl, "ctrl-"), (chord.alt, "alt-"), (chord.shift, "shift-")]
    {
        if held {
            out.push_str(name);
        }
    }
    match chord.key {
        Key::Char(ch) => out.push(ch),
        named => out.push_str(&format!("{named:?}").to_lowercase()),
    }
    out
}

#[test]
fn the_fixed_bindings_are_these() {
    let mut have: Vec<String> = bind_fixed()
        .iter()
        .map(|b| format!("{} {:?} {:?}", chord_text(b.chord), b.action, b.when))
        .collect();
    let mut want = vec![
        "cmd-right CreateRight Driving",
        "cmd-left CreateLeft Driving",
        "cmd-up CreateUp Driving",
        "cmd-down CreateDown Driving",
        "cmd-shift-backspace DeleteNode Driving",
        "enter FindNext Find",
        "shift-enter FindPrev Find",
        "cmd-g FindNext Anywhere",
        "cmd-shift-g FindPrev Anywhere",
        "backspace FindBackspace Find",
        "tab FindToggleReplace Find",
        "cmd-enter FindReplaceAll Find",
        "left NudgeLeft Browse",
        "right NudgeRight Browse",
        "up NudgeUp Browse",
        "down NudgeDown Browse",
        "shift-left NudgeLeftBig Browse",
        "shift-right NudgeRightBig Browse",
        "shift-up NudgeUpBig Browse",
        "shift-down NudgeDownBig Browse",
        "left CaretLeft Edit",
        "right CaretRight Edit",
        "up CaretUp Edit",
        "down CaretDown Edit",
        "alt-left NavLeft Browse",
        "alt-right NavRight Browse",
        "alt-up NavUp Browse",
        "alt-down NavDown Browse",
        "escape Escape Anywhere",
        "tab CreateChild Browse",
        "shift-tab CreateSibling Browse",
        "cmd-enter CreateChild Driving",
        "cmd-shift-enter CreateSibling Driving",
        "alt-shift-up MoveSiblingUp Browse",
        "alt-shift-down MoveSiblingDown Browse",
        "alt-shift-left Outdent Browse",
        "alt-shift-right Indent Browse",
        "home FocusRoot Browse",
        "end FocusLast Browse",
        "cmd-alt-left NudgeLeft Driving",
        "cmd-alt-right NudgeRight Driving",
        "cmd-alt-up NudgeUp Driving",
        "cmd-alt-down NudgeDown Driving",
        "alt-left CaretWordLeft Edit",
        "alt-right CaretWordRight Edit",
        "shift-left SelectLeft Edit",
        "shift-right SelectRight Edit",
        "shift-up SelectUp Edit",
        "shift-down SelectDown Edit",
        "alt-shift-left SelectWordLeft Edit",
        "alt-shift-right SelectWordRight Edit",
        "shift-home SelectHome Edit",
        "shift-end SelectEnd Edit",
        "cmd-a SelectAll Edit",
        "cmd-a SelectAllNodes Browse",
        "cmd-x CutText Edit",
        "cmd-c CopyText Edit",
        "cmd-v PasteText Edit",
        "cmd-x CutNodes Browse",
        "cmd-c CopyNodes Browse",
        "cmd-v PasteNodes Browse",
        "cmd-shift-= ZoomIn Session",
        "enter Commit Driving",
        "shift-enter InsertNewline Edit",
        "backspace Backspace Edit",
        "delete DeleteForward Edit",
        "backspace DeleteNode Browse",
        "delete DeleteNode Browse",
        "alt-backspace DeleteWordLeft Edit",
        "cmd-backspace ClearFocusText Edit",
        "home CaretHome Edit",
        "end CaretEnd Edit",
        "cmd-z Undo Session",
        "cmd-shift-z Redo Session",
        "0 SetColor0 Browse",
        "1 SetColor1 Browse",
        "2 SetColor2 Browse",
        "3 SetColor3 Browse",
        "4 SetColor4 Browse",
        "5 SetColor5 Browse",
        "6 SetColor6 Browse",
        "backspace HelpBackspace Help",
        "cmd-q Quit Anywhere",
        "cmd-h HideApp Anywhere",
        "cmd-alt-h HideOthers Anywhere",
        "cmd-m MinimizeWindow Anywhere",
        "cmd-ctrl-f ToggleFullScreen Anywhere",
        "cmd-w CloseWindow Anywhere",
        "cmd-, ToggleHelp Session",
    ];
    have.sort();
    want.sort();
    assert_eq!(have, want);
}

#[test]
fn the_menu_bar_reads_like_this() {
    fn row(r: &Row) -> String {
        match r {
            Row::Rule => "-".to_string(),
            Row::Item(title, Command::Do(action)) => format!("{title} = {action:?}"),
            Row::Item(title, Command::OpenRecent(slot)) => format!("{title} = {slot}"),
        }
    }
    let mut have = Vec::new();
    for menu in menus(&vec!["a.json".to_string(), "b.json".to_string()]) {
        have.push(format!("{}:", menu.name));
        for item in &menu.items {
            match item {
                Item::Plain(r) => have.push(row(r)),
                Item::Services => have.push("(services)".to_string()),
                Item::Sub(name, rows) => {
                    have.push(format!("{name} >"));
                    have.extend(rows.iter().map(row));
                }
            }
        }
    }
    let want = vec![
        "mind67:",
        "About mind67 = About",
        "-",
        "Settings… = ToggleHelp",
        "-",
        "(services)",
        "-",
        "Hide mind67 = HideApp",
        "Hide Others = HideOthers",
        "Show All = ShowAll",
        "-",
        "Quit mind67 = Quit",
        "File:",
        "New = NewDocument",
        "Duplicate = DuplicateDocument",
        "-",
        "Open… = OpenDocument",
        "Open Recent >",
        "a.json = 0",
        "b.json = 1",
        "-",
        "Clear Menu = ClearRecents",
        "-",
        "Close Window = CloseWindow",
        "-",
        "Save Now = SaveNow",
        "Save As… = SaveAs",
        "Revert to Saved = RevertDocument",
        "Reveal in Finder = RevealInFinder",
        "-",
        "Import >",
        "Markdown… = ImportMarkdown",
        "OPML… = ImportOpml",
        "Export >",
        "Image (SVG)… = ExportSvg",
        "Markdown… = ExportMarkdown",
        "OPML… = ExportOpml",
        "Plain Outline… = ExportOutline",
        "Edit:",
        "Undo = Undo",
        "Redo = Redo",
        "-",
        "Cut = CutNodes",
        "Copy = CopyNodes",
        "Paste = PasteNodes",
        "Duplicate = DuplicateNodes",
        "Select All Nodes = SelectAllNodes",
        "Colour >",
        "None  0 = SetColor0",
        "Red  1 = SetColor1",
        "Amber  2 = SetColor2",
        "Green  3 = SetColor3",
        "Teal  4 = SetColor4",
        "Blue  5 = SetColor5",
        "Violet  6 = SetColor6",
        "-",
        "Find = OpenFind",
        "-",
        "Fold / Unfold = ToggleFold",
        "-",
        "New Child  ⇥ = MenuNewChild",
        "New Sibling  ⇧⇥ = MenuNewSibling",
        "-",
        "Select Siblings = SelectSiblings",
        "Move Up  ⌥⇧↑ = MoveSiblingUp",
        "Move Down  ⌥⇧↓ = MoveSiblingDown",
        "Promote  ⌥⇧← = Outdent",
        "Demote  ⌥⇧→ = Indent",
        "-",
        "Create Right = CreateRight",
        "Create Left = CreateLeft",
        "Create Up = CreateUp",
        "Create Down = CreateDown",
        "Delete Node = DeleteNode",
        "-",
        "Edge Label = ToggleEdgeLabel",
        "Edit / Done  ↩ = MenuCommit",
        "-",
        "Deselect / Cancel = Escape",
        "View:",
        "Zoom In = ZoomIn",
        "Zoom Out = ZoomOut",
        "Fit Map = ZoomFit",
        "Actual Size = ZoomReset",
        "-",
        "Minimap = ToggleMinimap",
        "Paper / Night = ToggleTheme",
        "-",
        "Tidy Layout = TidyLayout",
        "-",
        "Next Sibling = FocusNextSibling",
        "Previous Sibling = FocusPrevSibling",
        "Window:",
        "Minimize = MinimizeWindow",
        "Zoom = ZoomWindow",
        "-",
        "Enter Full Screen = ToggleFullScreen",
        "Help:",
        "mind67 Shortcuts = ToggleHelp",
    ];
    assert_eq!(have, want);
}

#[test]
fn the_shortcut_panel_lets_few_actions_through() {
    for a in [
        Action::Escape,
        Action::ToggleHelp,
        Action::HelpBackspace,
        Action::OpenFind,
        Action::FindNext,
        Action::FindPrev,
        Action::Quit,
    ] {
        assert!(passes_panel(a), "{a:?}");
    }
    for a in [Action::CreateChild, Action::DeleteNode, Action::TidyLayout, Action::FindBackspace] {
        assert!(!passes_panel(a), "{a:?}");
    }
}
