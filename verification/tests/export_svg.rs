//! Maps as SVG.

use mindmap::coord::Coord;
use mindmap::export_svg::{escape, to_svg, Chip, Extent, Frame, Stroke};
use mindmap::graph::{Direction, Graph};

const NODE_HALF_W: f32 = 48.0;
const NODE_HALF_H: f32 = 13.0;
const MIN_GAP: f32 = 28.0;
const STEP_RIGHT: f32 = 160.0;
const STEP_DOWN: f32 = 56.0;

fn c(v: f32) -> Coord {
    Coord { bits: v.to_bits() }
}

fn f(v: Coord) -> f32 {
    f32::from_bits(v.bits)
}

fn boxes_intersect(a: (f32, f32), b: (f32, f32)) -> bool {
    let (w, h) = (NODE_HALF_W * 2.0 + MIN_GAP, NODE_HALF_H * 2.0 + MIN_GAP);
    let (ax, ay) = (a.0 - w / 2.0, a.1 - h / 2.0);
    let (bx, by) = (b.0 - w / 2.0, b.1 - h / 2.0);
    !(ax + w <= bx || bx + w <= ax || ay + h <= by || by + h <= ay)
}

/// A place near `desired` that is clear of what is in sight.
fn resolve(g: &Graph, desired: (f32, f32)) -> (f32, f32) {
    let hidden = g.hidden_set();
    let mut ids: Vec<u64> = g.nodes.keys().copied().filter(|id| !hidden.contains(id)).collect();
    ids.sort_unstable();
    let others: Vec<(f32, f32)> = ids.iter().map(|id| (f(g.nodes[id].x), f(g.nodes[id].y))).collect();
    let mut p = desired;
    for _ in 0..24 {
        let mut moved = false;
        for o in &others {
            if !boxes_intersect(p, *o) {
                continue;
            }
            let (dx, dy) = (p.0 - o.0, p.1 - o.1);
            let (min_dx, min_dy) = (NODE_HALF_W * 2.0 + MIN_GAP, NODE_HALF_H * 2.0 + MIN_GAP);
            if dx.abs() < 1e-4 && dy.abs() < 1e-4 {
                p.0 += min_dx;
                moved = true;
                continue;
            }
            let (pen_x, pen_y) = (min_dx - dx.abs(), min_dy - dy.abs());
            if pen_x > 0.0 && pen_y > 0.0 {
                if pen_x < pen_y {
                    p.0 += if dx >= 0.0 { pen_x } else { -pen_x };
                } else {
                    p.1 += if dy >= 0.0 { pen_y } else { -pen_y };
                }
                moved = true;
            }
        }
        if !moved {
            break;
        }
    }
    p
}

/// Where a child of `parent` goes.
fn place(g: &Graph, parent: u64, direction: Direction) -> (Coord, Coord) {
    let Some(p) = g.nodes.get(&parent) else {
        return (c(0.0), c(0.0));
    };
    let (px, py) = (f(p.x), f(p.y));
    let same_axis = g
        .children_of(parent)
        .iter()
        .filter(|id| {
            let (kx, ky) = (f(g.nodes[id].x), f(g.nodes[id].y));
            match direction {
                Direction::Right => kx > px + 20.0,
                Direction::Left => kx < px - 20.0,
                Direction::Up => ky < py - 20.0,
                Direction::Down => ky > py + 20.0,
            }
        })
        .count() as f32;
    let mut at = match direction {
        Direction::Right => (px + STEP_RIGHT, py),
        Direction::Left => (px - STEP_RIGHT, py),
        Direction::Up => (px, py - STEP_DOWN),
        Direction::Down => (px, py + STEP_DOWN),
    };
    match direction {
        Direction::Right | Direction::Left => at.1 += same_axis * (NODE_HALF_H * 2.0 + MIN_GAP),
        Direction::Up | Direction::Down => at.0 += same_axis * (NODE_HALF_W * 2.0 + MIN_GAP),
    }
    let (x, y) = resolve(g, at);
    (c(x), c(y))
}

/// Something at `v` carried along from one place to another.
fn carry(v: Coord, from: Coord, to: Coord) -> Coord {
    c(f(v) + (f(to) - f(from)))
}

fn half_extent(e: Extent) -> (f32, f32) {
    let font = if e.root { 17.0f32 } else { 15.0 };
    let w = e.widest as f32 * font * 0.6;
    let h = e.lines as f32 * font * 1.2;
    ((w * 0.5).max(font * 0.5), (h * 0.5).max(font * 0.5))
}

fn frame(all: &Vec<Extent>) -> Frame {
    let (mut x0, mut y0, mut x1, mut y1) = (f32::MAX, f32::MAX, f32::MIN, f32::MIN);
    for e in all {
        let (hw, hh) = half_extent(*e);
        x0 = x0.min(f(e.x) - hw);
        x1 = x1.max(f(e.x) + hw);
        y0 = y0.min(f(e.y) - hh);
        y1 = y1.max(f(e.y) + hh);
    }
    if !(x0.is_finite() && y0.is_finite() && x1.is_finite() && y1.is_finite()) {
        (x0, y0, x1, y1) = (-100.0, -100.0, 100.0, 100.0);
    }
    let (vx, vy) = (x0 - 40.0, y0 - 40.0);
    let (vw, vh) = ((x1 - x0 + 80.0).max(1.0), (y1 - y0 + 80.0).max(1.0));
    Frame {
        x: format!("{vx:.2}"),
        y: format!("{vy:.2}"),
        w: format!("{vw:.2}"),
        h: format!("{vh:.2}"),
        width: format!("{vw:.0}"),
        height: format!("{vh:.0}"),
    }
}

fn box_exit(center: (f32, f32), toward: (f32, f32), hw: f32, hh: f32) -> (f32, f32) {
    let (dx, dy) = (toward.0 - center.0, toward.1 - center.1);
    let len = (dx * dx + dy * dy).sqrt();
    if len < 1e-6 {
        return center;
    }
    let (ux, uy) = (dx / len, dy / len);
    let tx = if ux.abs() < 1e-6 { f32::INFINITY } else { hw / ux.abs() };
    let ty = if uy.abs() < 1e-6 { f32::INFINITY } else { hh / uy.abs() };
    let t = tx.min(ty).min(len);
    (center.0 + ux * t, center.1 + uy * t)
}

fn line(a: Extent, b: Extent) -> Option<Stroke> {
    let (ac, bc) = ((f(a.x), f(a.y)), (f(b.x), f(b.y)));
    let (ah, bh) = (half_extent(a), half_extent(b));
    let p0 = box_exit(ac, bc, ah.0, ah.1);
    let p1 = box_exit(bc, ac, bh.0, bh.1);
    let (dx, dy) = (p1.0 - p0.0, p1.1 - p0.1);
    if (dx * dx + dy * dy).sqrt() < 1.0 {
        return None;
    }
    Some(Stroke {
        x1: format!("{:.2}", p0.0),
        y1: format!("{:.2}", p0.1),
        x2: format!("{:.2}", p1.0),
        y2: format!("{:.2}", p1.1),
    })
}

fn chip(a: Extent, b: Extent, chars: usize) -> Chip {
    let (mx, my) = ((f(a.x) + f(b.x)) * 0.5, (f(a.y) + f(b.y)) * 0.5);
    let lw = chars as f32 * 12.0 * 0.6;
    Chip {
        x: format!("{:.2}", mx - lw * 0.5 - 2.0),
        y: format!("{:.2}", my - 6.0 - 1.0),
        w: format!("{:.2}", lw + 4.0),
        h: format!("{:.2}", 14.0),
        mid_x: format!("{mx:.2}"),
        mid_y: format!("{my:.2}"),
    }
}

fn row(e: Extent, i: usize) -> (String, String) {
    let font = if e.root { 17.0f32 } else { 15.0 };
    let dy = (i as f32 - (e.lines as f32 - 1.0) * 0.5) * font * 1.2;
    (format!("{:.2}", f(e.x)), format!("{:.2}", f(e.y) + dy))
}

fn svg_of(g: &Graph) -> String {
    to_svg(g, &frame, &line, &chip, &row)
}

#[test]
fn demo_svg_is_wellformed() {
    let g = Graph::demo(&place, &carry);
    let svg = svg_of(&g);
    let root_text = escape(&g.nodes[&g.root_id].text);
    assert!(svg.starts_with("<svg"), "document opens with <svg");
    assert!(svg.ends_with("</svg>"), "and closes cleanly");
    assert!(svg.contains("<text"), "has at least one label");
    assert!(
        svg.contains(&format!(">{root_text}<")),
        "the root's label is rendered as text content"
    );
    assert!(svg.contains("<line"), "has at least one edge line");
}

#[test]
fn multi_line_label_exports_each_line() {
    let g = Graph::new("first\nsecond");
    let svg = svg_of(&g);
    assert!(svg.contains(">first<"), "top line is its own text element");
    assert!(svg.contains(">second<"), "bottom line too");
    assert!(!svg.contains("first\nsecond") && !svg.contains("first second"));
}

#[test]
fn text_is_xml_escaped() {
    let g = Graph::new("a & b < c > d");
    let svg = svg_of(&g);
    assert!(
        svg.contains("a &amp; b &lt; c &gt; d"),
        "special chars are entity-escaped"
    );
    assert!(!svg.contains("a & b"), "no raw ampersand");
    assert!(!svg.contains("b < c"), "no raw less-than");
    assert!(!svg.contains("c > d"), "no raw greater-than");
}

#[test]
fn single_node_viewbox_is_finite() {
    let svg = svg_of(&Graph::new("solo"));
    let start = svg.find("viewBox=\"").expect("has a viewBox") + "viewBox=\"".len();
    let end = svg[start..].find('"').expect("viewBox closes") + start;
    let nums: Vec<f32> = svg[start..end]
        .split_whitespace()
        .map(|t| t.parse::<f32>().expect("viewBox holds numbers"))
        .collect();
    assert_eq!(nums.len(), 4, "minx miny w h");
    assert!(nums.iter().all(|v| v.is_finite()), "no NaN/inf: {nums:?}");
    assert!(nums[2] > 0.0 && nums[3] > 0.0, "positive extent");
    assert!(svg.contains(">solo<"), "the lone label is drawn");
}

#[test]
fn every_node_and_descendant_renders() {
    let mut g = Graph::new("root");
    let child = g.create_from_focused(Direction::Right, "child", &place).unwrap();
    g.focus(child);
    g.create_from_focused(Direction::Right, "grandchild", &place).unwrap();
    let svg = svg_of(&g);
    assert!(svg.contains(">root<"));
    assert!(svg.contains(">child<"));
    assert!(svg.contains(">grandchild<"));
}

#[test]
fn a_labelled_edge_is_drawn_with_its_label() {
    let mut g = Graph::new("root");
    let child = g.create_from_focused(Direction::Right, "child", &place).unwrap();
    let eid = g.edge_to_focused().unwrap();
    g.edges.get_mut(&eid).unwrap().label = "so & so".to_string();
    assert_eq!(g.focused_id, child);
    let svg = svg_of(&g);
    assert!(svg.contains(">so &amp; so<"));
    assert_eq!(svg.matches("<line").count(), 1);
    assert_eq!(svg.matches("<rect").count(), 2);
}

#[test]
fn the_smallest_document_is_written_to_the_letter() {
    assert_eq!(
        svg_of(&Graph::new("a")),
        "<svg xmlns=\"http://www.w3.org/2000/svg\" viewBox=\"-48.50 -50.20 97.00 100.40\" \
width=\"97\" height=\"100\" font-family=\"Lilex, monospace\">\n  \
<rect x=\"-48.50\" y=\"-50.20\" width=\"97.00\" height=\"100.40\" fill=\"#fafafa\"/>\n  \
<text x=\"0.00\" y=\"0.00\" text-anchor=\"middle\" dominant-baseline=\"central\" \
font-size=\"17.00\" font-weight=\"bold\" fill=\"#1a1a1a\">a</text>\n</svg>"
    );
}

#[test]
fn a_map_without_nodes_has_a_frame_all_the_same() {
    let mut g = Graph::new("root");
    g.nodes.clear();
    let svg = svg_of(&g);
    assert!(svg.contains("viewBox=\"-140.00 -140.00 280.00 280.00\" width=\"280\" height=\"280\""));
}
