//! Documents: where they are kept, and what survives being written and read.

use mindmap::coord::Coord;
use mindmap::graph::{Direction, Graph};
use mindmap::store::{
    classify, data_dir, home_path, images_root, keymap_path, new_document_path, promote,
    recent_label, recents_path, save_failure, startup_path, Doc, Failure, Load, Pose, WindowRect,
    MAX_RECENTS,
};

const NODE_HALF_W: f32 = 48.0;
const NODE_HALF_H: f32 = 13.0;
const MIN_GAP: f32 = 28.0;
const STEP_RIGHT: f32 = 160.0;
const STEP_DOWN: f32 = 56.0;

fn c(v: f32) -> Coord {
    Coord { bits: v.to_bits() }
}

fn f(v: Coord) -> f32 {
    f32::from_bits(v.bits)
}

fn boxes_intersect(a: (f32, f32), b: (f32, f32)) -> bool {
    let (w, h) = (NODE_HALF_W * 2.0 + MIN_GAP, NODE_HALF_H * 2.0 + MIN_GAP);
    let (ax, ay) = (a.0 - w / 2.0, a.1 - h / 2.0);
    let (bx, by) = (b.0 - w / 2.0, b.1 - h / 2.0);
    !(ax + w <= bx || bx + w <= ax || ay + h <= by || by + h <= ay)
}

/// A place near `desired` that is clear of what is in sight.
fn resolve(g: &Graph, desired: (f32, f32)) -> (f32, f32) {
    let hidden = g.hidden_set();
    let mut ids: Vec<u64> = g.nodes.keys().copied().filter(|id| !hidden.contains(id)).collect();
    ids.sort_unstable();
    let others: Vec<(f32, f32)> = ids.iter().map(|id| (f(g.nodes[id].x), f(g.nodes[id].y))).collect();
    let mut p = desired;
    for _ in 0..24 {
        let mut moved = false;
        for o in &others {
            if !boxes_intersect(p, *o) {
                continue;
            }
            let (dx, dy) = (p.0 - o.0, p.1 - o.1);
            let (min_dx, min_dy) = (NODE_HALF_W * 2.0 + MIN_GAP, NODE_HALF_H * 2.0 + MIN_GAP);
            if dx.abs() < 1e-4 && dy.abs() < 1e-4 {
                p.0 += min_dx;
                moved = true;
                continue;
            }
            let (pen_x, pen_y) = (min_dx - dx.abs(), min_dy - dy.abs());
            if pen_x > 0.0 && pen_y > 0.0 {
                if pen_x < pen_y {
                    p.0 += if dx >= 0.0 { pen_x } else { -pen_x };
                } else {
                    p.1 += if dy >= 0.0 { pen_y } else { -pen_y };
                }
                moved = true;
            }
        }
        if !moved {
            break;
        }
    }
    p
}

/// Where a child of `parent` goes.
fn place(g: &Graph, parent: u64, direction: Direction) -> (Coord, Coord) {
    let Some(p) = g.nodes.get(&parent) else {
        return (c(0.0), c(0.0));
    };
    let (px, py) = (f(p.x), f(p.y));
    let same_axis = g
        .children_of(parent)
        .iter()
        .filter(|id| {
            let (kx, ky) = (f(g.nodes[id].x), f(g.nodes[id].y));
            match direction {
                Direction::Right => kx > px + 20.0,
                Direction::Left => kx < px - 20.0,
                Direction::Up => ky < py - 20.0,
                Direction::Down => ky > py + 20.0,
            }
        })
        .count() as f32;
    let mut at = match direction {
        Direction::Right => (px + STEP_RIGHT, py),
        Direction::Left => (px - STEP_RIGHT, py),
        Direction::Up => (px, py - STEP_DOWN),
        Direction::Down => (px, py + STEP_DOWN),
    };
    match direction {
        Direction::Right | Direction::Left => at.1 += same_axis * (NODE_HALF_H * 2.0 + MIN_GAP),
        Direction::Up | Direction::Down => at.0 += same_axis * (NODE_HALF_W * 2.0 + MIN_GAP),
    }
    let (x, y) = resolve(g, at);
    (c(x), c(y))
}

/// Something at `v` carried along from one place to another.
fn carry(v: Coord, from: Coord, to: Coord) -> Coord {
    c(f(v) + (f(to) - f(from)))
}

fn pose(x: f32, y: f32, zoom: f32) -> Pose {
    Pose { x: c(x), y: c(y), zoom: c(zoom) }
}

fn rect(x: f32, y: f32, w: f32, h: f32) -> WindowRect {
    WindowRect { x: c(x), y: c(y), w: c(w), h: c(h) }
}

/// A document as it is opened again after it was written.
fn reopened(doc: &Doc) -> Doc {
    match classify("/map.json", Ok(doc.to_write())) {
        Load::Opened(back) => back,
        _ => panic!("not opened"),
    }
}

#[test]
fn the_recents_list_promotes_without_duplicating_and_stays_bounded() {
    let p = |s: &str| s.to_string();
    let list = promote(&vec![p("/a"), p("/b"), p("/c")], "/c");
    assert_eq!(list, vec![p("/c"), p("/a"), p("/b")]);

    let mut list = Vec::new();
    for i in 0..(MAX_RECENTS + 5) {
        list = promote(&list, &format!("/map{i}"));
    }
    assert_eq!(list.len(), MAX_RECENTS);
    assert_eq!(list[0], p(&format!("/map{}", MAX_RECENTS + 4)));
}

#[test]
fn roundtrip_preserves_map_and_camera() {
    let mut g = Graph::demo(&place, &carry);
    g.enter_edit();
    g.set_focused_text("edited root".into());
    let doc = Doc::new(g.clone(), Some(pose(12.5, -3.0, 1.75)), true, None);

    let back = reopened(&doc);
    assert_eq!(back.graph.nodes.len(), g.nodes.len());
    assert_eq!(back.graph.edges.len(), g.edges.len());
    assert_eq!(back.graph.focused().text, "edited root");
    assert!(back.dark);
    let cam = back.camera.expect("camera");
    assert!((f(cam.zoom) - 1.75).abs() < 1e-6);
}

#[test]
fn missing_file_is_not_an_error_state() {
    let missing = Failure { missing: true, message: "no such file".to_string() };
    assert!(matches!(classify("/nope.json", Err(missing)), Load::Fresh));
}

#[test]
fn corrupt_file_is_rejected_not_panicked_on() {
    let corrupt = Failure { missing: false, message: "expected value".to_string() };
    assert!(matches!(classify("/corrupt.json", Err(corrupt)), Load::Unreadable(_)));
}

#[test]
fn an_unreadable_file_is_never_treated_as_a_fresh_start() {
    let missing = Failure { missing: true, message: String::new() };
    assert!(matches!(classify("/m.json", Err(missing)), Load::Fresh), "missing -> Fresh");
    let corrupt = Failure { missing: false, message: "oops".to_string() };
    match classify("/m.json", Err(corrupt)) {
        Load::Unreadable(msg) => {
            assert!(msg.contains("could not read"));
            assert_eq!(msg, "could not read /m.json: oops");
        }
        _ => panic!("corrupt file must report Unreadable, not Fresh/Opened"),
    }
}

#[test]
fn a_dropped_bookkeeping_field_still_loads() {
    let mut g = Graph::new("kept");
    g.next_id = 0;
    g.root_id = 0;
    g.focused_id = 0;
    g.selected.clear();
    match classify("/partial.json", Ok(Doc::new(g, None, false, None))) {
        Load::Opened(doc) => {
            assert_eq!(doc.graph.nodes.len(), 1);
            assert_eq!(doc.graph.focused().text, "kept");
            assert_eq!(doc.graph.root_id, 1);
        }
        _ => panic!("partial file loads"),
    }
}

#[test]
fn the_window_frame_survives_a_round_trip_and_a_bad_one_does_not() {
    let good = rect(120.0, 64.0, 1400.0, 900.0);
    let back = reopened(&Doc::new(Graph::new("root"), None, false, Some(good)))
        .window
        .expect("a frame");
    assert_eq!((f(back.x), f(back.y), f(back.w), f(back.h)), (120.0, 64.0, 1400.0, 900.0));

    for bad in [
        rect(0.0, 0.0, 1.0, 1.0),
        rect(f32::NAN, 0.0, 900.0, 700.0),
        rect(0.0, 0.0, 900.0, f32::INFINITY),
    ] {
        let doc = Doc::new(Graph::new("root"), None, false, Some(bad));
        assert!(reopened(&doc).window.is_none(), "{bad:?} was kept");
    }
}

#[test]
fn a_non_finite_pose_never_reaches_the_file() {
    let doc = Doc::new(
        Graph::new("root"),
        Some(pose(f32::INFINITY, f32::NAN, 1.0)),
        false,
        None,
    );
    assert!(doc.to_write().camera.is_none(), "the pose was written");
    assert!(reopened(&doc).camera.is_none(), "the bad pose was dropped, not written");
}

#[test]
fn a_non_finite_node_position_never_reaches_the_file() {
    let mut g = Graph::new("root");
    g.nodes.get_mut(&g.root_id).unwrap().x = c(f32::NAN);
    let doc = Doc::new(g, None, false, None);
    assert!(doc.to_write().graph.nodes.values().all(|n| n.x.is_finite()));
    assert!(reopened(&doc).graph.nodes.values().all(|n| n.x.is_finite()));
}

#[test]
fn hand_edited_file_is_sanitized_on_load() {
    let mut g = Graph::new("root");
    g.create_from_focused(Direction::Right, "child", &place);
    g.edges.get_mut(&3).unwrap().to = 9999;
    g.focused_id = 4242;
    let back = match classify("/edited.json", Ok(Doc::new(g, None, false, None))) {
        Load::Opened(doc) => doc,
        _ => panic!("load"),
    };
    assert_eq!(back.graph.focused_id, back.graph.root_id, "focus repaired");
    assert_eq!(back.graph.edges.len(), 1, "dangling edge replaced, not just dropped");
    let e = back.graph.edges.values().next().unwrap();
    assert_eq!(e.from, back.graph.root_id);
    assert_eq!(back.graph.nodes[&e.to].parent, Some(back.graph.root_id));
}

#[test]
fn everything_persisted_hangs_off_one_directory() {
    let mac = "/Users/a/Library/Application Support/jotmind";
    assert_eq!(data_dir("/Users/a", true, false), mac);
    assert_eq!(data_dir("/home/a", false, true), "/home/a/.local/share/jotmind-dev");
    assert_eq!(images_root("/Users/a", true, false), mac);
    assert_eq!(home_path("/Users/a", true, false), format!("{mac}/map.json"));
    assert_eq!(recents_path("/Users/a", true, false), format!("{mac}/recent.json"));
    assert_eq!(keymap_path("/Users/a", true, false), format!("{mac}/keymap.json"));
}

#[test]
fn a_new_document_takes_the_first_free_name() {
    assert_eq!(new_document_path(Some("/d"), &|_: &String| false).unwrap(), "/d/untitled.json");
    let taken = |s: &String| s == "/d/untitled.json" || s == "/d/untitled-2.json";
    assert_eq!(new_document_path(Some("/d"), &taken).unwrap(), "/d/untitled-3.json");
    // The names go on for as long as they are taken.
    let long = std::cell::Cell::new(0u64);
    let many = |_: &String| {
        long.set(long.get() + 1);
        long.get() < 20_000
    };
    assert_eq!(new_document_path(Some("/d"), &many).unwrap(), "/d/untitled-20000.json");
    assert_eq!(new_document_path(None, &|_: &String| false), None);
}

#[test]
fn a_launch_opens_what_was_open() {
    let recents = vec!["/gone.json".to_string(), "/there.json".to_string()];
    let there = |s: &String| s == "/there.json";
    let home = "/home.json".to_string();
    assert_eq!(startup_path(None, &recents, home.clone(), &there), "/there.json");
    assert_eq!(startup_path(None, &recents, home.clone(), &|_: &String| false), "/home.json");
    assert_eq!(startup_path(Some("/asked.json".into()), &recents, home, &there), "/asked.json");
}

#[test]
fn a_recent_row_says_where_the_file_is() {
    assert_eq!(recent_label("/maps/plan.json"), "plan.json  —  maps");
    assert_eq!(recent_label("/plan.json"), "plan.json");
    assert_eq!(recent_label("/"), "/");
}

#[test]
fn promoting_knows_one_path_in_two_spellings() {
    let list = promote(&vec!["/a//b".to_string()], "/a/b");
    assert_eq!(list, vec!["/a/b".to_string()]);
}

#[test]
fn a_view_must_show_something() {
    assert!(pose(0.0, 0.0, 0.5).usable());
    assert!(!pose(0.0, 0.0, 0.0).usable());
    assert!(!pose(0.0, f32::NAN, 1.0).usable());
    assert!(rect(0.0, 0.0, 320.0, 240.0).usable());
    assert!(!rect(0.0, 0.0, 319.0, 240.0).usable());
    assert!(rect(0.0, 0.0, 20000.0, 20000.0).usable());
    assert!(!rect(0.0, 0.0, 20001.0, 20000.0).usable());
    // Where no display is.
    assert!(!rect(1.0e9, 0.0, 800.0, 600.0).usable());
    assert!(!rect(0.0, -1.0e9, 800.0, 600.0).usable());
    assert!(rect(-20000.0, 20000.0, 800.0, 600.0).usable());
    assert!(!rect(-20001.0, 0.0, 800.0, 600.0).usable());
}

#[test]
fn a_failed_save_says_so() {
    assert_eq!(save_failure("disk full"), "could not save: disk full");
}
