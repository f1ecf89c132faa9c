//! Maps as Markdown, OPML and outlines, and back.

use mindmap::convert::md::{from_markdown, to_markdown, to_outline};
use mindmap::convert::opml::{from_opml, to_opml};
use mindmap::coord::Coord;
use mindmap::graph::{Direction, Graph};

const NODE_HALF_W: f32 = 48.0;
const NODE_HALF_H: f32 = 13.0;
const MIN_GAP: f32 = 28.0;
const STEP_RIGHT: f32 = 160.0;
const STEP_DOWN: f32 = 56.0;

fn c(v: f32) -> Coord {
    Coord { bits: v.to_bits() }
}

fn f(v: Coord) -> f32 {
    f32::from_bits(v.bits)
}

fn boxes_intersect(a: (f32, f32), b: (f32, f32)) -> bool {
    let (w, h) = (NODE_HALF_W * 2.0 + MIN_GAP, NODE_HALF_H * 2.0 + MIN_GAP);
    let (ax, ay) = (a.0 - w / 2.0, a.1 - h / 2.0);
    let (bx, by) = (b.0 - w / 2.0, b.1 - h / 2.0);
    !(ax + w <= bx || bx + w <= ax || ay + h <= by || by + h <= ay)
}

/// A place near `desired` that is clear of what is in sight.
fn resolve(g: &Graph, desired: (f32, f32)) -> (f32, f32) {
    let hidden = g.hidden_set();
    let mut ids: Vec<u64> = g.nodes.keys().copied().filter(|id| !hidden.contains(id)).collect();
    ids.sort_unstable();
    let others: Vec<(f32, f32)> = ids.iter().map(|id| (f(g.nodes[id].x), f(g.nodes[id].y))).collect();
    let mut p = desired;
    for _ in 0..24 {
        let mut moved = false;
        for o in &others {
            if !boxes_intersect(p, *o) {
                continue;
            }
            let (dx, dy) = (p.0 - o.0, p.1 - o.1);
            let (min_dx, min_dy) = (NODE_HALF_W * 2.0 + MIN_GAP, NODE_HALF_H * 2.0 + MIN_GAP);
            if dx.abs() < 1e-4 && dy.abs() < 1e-4 {
                p.0 += min_dx;
                moved = true;
                continue;
            }
            let (pen_x, pen_y) = (min_dx - dx.abs(), min_dy - dy.abs());
            if pen_x > 0.0 && pen_y > 0.0 {
                if pen_x < pen_y {
                    p.0 += if dx >= 0.0 { pen_x } else { -pen_x };
                } else {
                    p.1 += if dy >= 0.0 { pen_y } else { -pen_y };
                }
                moved = true;
            }
        }
        if !moved {
            break;
        }
    }
    p
}

/// Where a child of `parent` goes.
fn place(g: &Graph, parent: u64, direction: Direction) -> (Coord, Coord) {
    let Some(p) = g.nodes.get(&parent) else {
        return (c(0.0), c(0.0));
    };
    let (px, py) = (f(p.x), f(p.y));
    let same_axis = g
        .children_of(parent)
        .iter()
        .filter(|id| {
            let (kx, ky) = (f(g.nodes[id].x), f(g.nodes[id].y));
            match direction {
                Direction::Right => kx > px + 20.0,
                Direction::Left => kx < px - 20.0,
                Direction::Up => ky < py - 20.0,
                Direction::Down => ky > py + 20.0,
            }
        })
        .count() as f32;
    let mut at = match direction {
        Direction::Right => (px + STEP_RIGHT, py),
        Direction::Left => (px - STEP_RIGHT, py),
        Direction::Up => (px, py - STEP_DOWN),
        Direction::Down => (px, py + STEP_DOWN),
    };
    match direction {
        Direction::Right | Direction::Left => at.1 += same_axis * (NODE_HALF_H * 2.0 + MIN_GAP),
        Direction::Up | Direction::Down => at.0 += same_axis * (NODE_HALF_W * 2.0 + MIN_GAP),
    }
    let (x, y) = resolve(g, at);
    (c(x), c(y))
}

/// Something at `v` carried along from one place to another.
fn carry(v: Coord, from: Coord, to: Coord) -> Coord {
    c(f(v) + (f(to) - f(from)))
}

/// Depths and labels, siblings sorted by label: the tree rather than the order it
/// is drawn in.
fn shape(g: &Graph) -> Vec<(usize, String)> {
    fn go(g: &Graph, id: u64, depth: usize, out: &mut Vec<(usize, String)>) {
        out.push((depth, g.nodes[&id].text.clone()));
        let mut kids = g.ordered_children(id);
        kids.sort_by(|&a, &b| g.nodes[&a].text.cmp(&g.nodes[&b].text));
        for k in kids {
            go(g, k, depth + 1, out);
        }
    }
    let mut out = Vec::new();
    go(g, g.root_id, 0, &mut out);
    out
}

#[test]
fn markdown_round_trips_the_demo() {
    let g = Graph::demo(&place, &carry);
    let g2 = from_markdown(&to_markdown(&g));
    assert_eq!(shape(&g), shape(&g2));
}

#[test]
fn a_second_round_trip_changes_nothing() {
    let once = from_markdown(&to_markdown(&Graph::demo(&place, &carry)));
    let text = to_markdown(&once);
    assert_eq!(text, to_markdown(&from_markdown(&text)));

    let once = from_opml(&to_opml(&Graph::demo(&place, &carry)));
    let text = to_opml(&once);
    assert_eq!(text, to_opml(&from_opml(&text)));
}

#[test]
fn imported_nodes_are_laid_out_not_piled_up() {
    let g = from_markdown(&to_markdown(&Graph::demo(&place, &carry)));
    let mut seen: Vec<(u64, f32, f32)> = Vec::new();
    for (&id, n) in &g.nodes {
        for &(other, x, y) in &seen {
            let (dx, dy) = ((f(n.x) - x).abs(), (f(n.y) - y).abs());
            assert!(
                dx > 1.0 || dy > 1.0,
                "{id} and {other} landed on the same spot: ({}, {})",
                f(n.x),
                f(n.y)
            );
        }
        seen.push((id, f(n.x), f(n.y)));
    }
    let kids = g.ordered_children(g.root_id);
    assert!(kids.iter().any(|k| f(g.nodes[k].x) < 0.0), "nothing on the left");
    assert!(kids.iter().any(|k| f(g.nodes[k].x) > 0.0), "nothing on the right");
}

#[test]
fn opml_round_trips_the_demo() {
    let g = Graph::demo(&place, &carry);
    let g2 = from_opml(&to_opml(&g));
    assert_eq!(shape(&g), shape(&g2));
}

#[test]
fn opml_escapes_and_unescapes_special_chars() {
    let mut g = Graph::new("root & <tag>");
    let root = g.root_id;
    g.create_child(root, Direction::Right, "quote \"here\" & <b>", &place)
        .unwrap();

    let xml = to_opml(&g);
    assert!(xml.contains("&amp;"));
    assert!(xml.contains("&lt;"));
    assert!(xml.contains("&quot;"));
    assert!(!xml.contains("<tag>"));

    let back = from_opml(&xml);
    assert_eq!(shape(&g), shape(&back));
    assert_eq!(back.nodes[&back.root_id].text, "root & <tag>");
    let kid = back.ordered_children(back.root_id)[0];
    assert_eq!(back.nodes[&kid].text, "quote \"here\" & <b>");
}

#[test]
fn markdown_snippet_imports_to_the_expected_tree() {
    let md = "\
# Project
- alpha
  - alpha one
  - alpha two
- beta
";
    let g = from_markdown(md);
    assert_eq!(
        shape(&g),
        vec![
            (0, "Project".to_string()),
            (1, "alpha".to_string()),
            (2, "alpha one".to_string()),
            (2, "alpha two".to_string()),
            (1, "beta".to_string()),
        ]
    );
}

#[test]
fn markdown_without_h1_gets_an_empty_root() {
    let g = from_markdown("- lonely\n- pair\n");
    assert_eq!(g.nodes[&g.root_id].text, "");
    assert_eq!(
        shape(&g),
        vec![
            (0, "".to_string()),
            (1, "lonely".to_string()),
            (1, "pair".to_string()),
        ]
    );
}

#[test]
fn opml_with_multiple_top_level_items_gets_an_empty_root() {
    let opml = "\
<opml version=\"2.0\"><body>
  <outline text=\"one\"/>
  <outline text=\"two\"><outline text=\"two-a\"/></outline>
</body></opml>";
    let g = from_opml(opml);
    assert_eq!(
        shape(&g),
        vec![
            (0, "".to_string()),
            (1, "one".to_string()),
            (1, "two".to_string()),
            (2, "two-a".to_string()),
        ]
    );
}

#[test]
fn truncated_multibyte_opml_does_not_panic() {
    let _ = from_opml("<opml><body><outline text=\"café");
    let _ = from_opml("<outline text=\"naïve");
    let g = from_opml("<outline text=\"café\"/>");
    assert!(g.nodes.values().any(|n| n.text == "café"));
}

#[test]
fn output_ordering_is_deterministic_and_stable() {
    let g = Graph::demo(&place, &carry);
    assert_eq!(to_outline(&g), to_outline(&g));
    assert_eq!(to_markdown(&g), to_markdown(&g));
    assert_eq!(to_opml(&g), to_opml(&g));

    let mut h = Graph::new("root");
    let r = h.root_id;
    let a = h.create_child(r, Direction::Right, "a", &place).unwrap();
    let b = h.create_child(r, Direction::Right, "b", &place).unwrap();
    h.nodes.get_mut(&a).unwrap().y = c(50.0);
    h.nodes.get_mut(&b).unwrap().y = c(-50.0);
    assert_eq!(to_outline(&h), "root\n  b\n  a\n");
}

#[test]
fn an_imported_map_keeps_what_is_written_in_it() {
    let text = "# Root\n- one\n  - two\n";
    let g = from_markdown(text);
    assert_eq!(to_markdown(&g), text);
    assert_eq!(to_outline(&g), "Root\n  one\n    two\n");
}

#[test]
fn a_label_is_written_as_it_is() {
    let g = Graph::new("two\nlines");
    assert_eq!(to_markdown(&g), "# two\nlines\n");
}

#[test]
fn an_empty_text_imports_an_empty_map() {
    for g in [from_markdown(""), from_opml(""), from_opml("<opml></opml>")] {
        assert_eq!(g.nodes.len(), 1);
        assert_eq!(g.nodes[&g.root_id].text, "");
    }
}

#[test]
fn escaping_is_undone_by_unescaping() {
    let chars: Vec<char> = "a & b < c > d \" e ' f &amp; g".chars().collect();
    let back = mindmap::convert::escape::xml_unescape(&mindmap::convert::escape::xml_escape(&chars));
    assert_eq!(back, chars);
}

#[test]
fn five_characters_are_escaped() {
    let chars: Vec<char> = "it's <b> & \"q\"".chars().collect();
    let out: String = mindmap::convert::escape::xml_escape(&chars).into_iter().collect();
    assert_eq!(out, "it&apos;s &lt;b&gt; &amp; &quot;q&quot;");
}

#[test]
fn an_imported_map_stays_as_it_is() {
    for text in [
        "# r\n- a\n- b\n- c\n- d\n",
        "# r\n- a\n- b\n- c\n- d\n- B\n  - x\n  - y\n",
        "# r\n- Y\n- X\n- X\n- Z\n",
        "# r\n- fat\n  - 1\n  - 2\n  - 3\n- t\n- u\n- v\n- w\n",
    ] {
        let text = to_markdown(&from_markdown(text));
        assert_eq!(to_markdown(&from_markdown(&text)), text);
        let text = to_opml(&from_markdown(&text));
        assert_eq!(to_opml(&from_opml(&text)), text);
    }
    let even = "# r\n- a\n- b\n- c\n- d\n";
    assert_eq!(to_markdown(&from_markdown(even)), even);
}
