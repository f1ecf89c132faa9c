//! A map as a standalone SVG document, in its own coordinates: an edge is a thin
//! line from one label to another, and a node is its label.
//!
//! What is drawn, in which order and as which elements is decided here. The
//! numbers are worked out by whoever asks for the document, from how far each
//! label reaches, and come back as text.

pub mod laws;

use vstd::prelude::*;
use crate::convert::escape;
use crate::coord::Coord;
use crate::graph::model::{EdgeModel, GraphModel, NodeModel};
use crate::graph::{Edge, Graph, Node};
use crate::ids;
use crate::paint;
use crate::text;

verus! {

broadcast use {vstd::std_specs::hash::group_hash_axioms, vstd::std_specs::btree::group_btree_axioms};

// ---------------------------------------------------------------------------
// How far a label reaches
// ---------------------------------------------------------------------------

/// Where a node is, and how far its label reaches.
#[derive(Clone, Copy, Debug, PartialEq, Eq, Structural)]
pub struct Extent {
    pub x: Coord,
    pub y: Coord,
    /// The characters of its longest line.
    pub widest: usize,
    /// How many lines it has.
    pub lines: usize,
    /// The root is set larger than the rest.
    pub root: bool,
}

/// The length of the longest of some rows.
pub open spec fn longest(rows: Seq<Seq<char>>) -> nat
    decreases rows.len(),
{
    if rows.len() == 0 {
        0
    } else {
        let rest = longest(rows.drop_last());
        if rows.last().len() > rest {
            rows.last().len()
        } else {
            rest
        }
    }
}

/// How far the label of a node reaches.
pub open spec fn extent_of(n: NodeModel, root: bool) -> Extent {
    Extent {
        x: n.x,
        y: n.y,
        widest: longest(text::rows_of(n.text)) as usize,
        lines: text::rows_of(n.text).len() as usize,
        root,
    }
}

/// How far the label of node `id` reaches.
pub open spec fn extent_in(g: GraphModel, id: u64) -> Extent {
    extent_of(g.nodes[id], id == g.root)
}

/// How many characters a text has.
pub fn char_count(s: &str) -> (r: usize)
    ensures
        r == s@.len(),
{
    text::chars(s).len()
}

fn extent(n: &Node, root: bool) -> (r: Extent)
    ensures
        r == extent_of(n@, root),
{
    let lines = paint::label_lines(n.text.as_str());
    let ghost rows = text::rows_of(n@.text);
    let count: usize = lines.len();
    let mut widest: usize = 0;
    let mut i: usize = 0;
    assert(rows.len() == lines@.map_values(|s: String| s@).len());
    assert(rows.take(0) =~= seq![]);
    while i < count
        invariant
            i <= count,
            count == lines@.len(),
            count == rows.len(),
            rows == lines@.map_values(|s: String| s@),
            widest == longest(rows.take(i as int)),
        decreases count - i,
    {
        let len: usize = char_count(lines[i].as_str());
        assert(rows.take(i + 1).drop_last() =~= rows.take(i as int));
        assert(rows.take(i + 1).last() == lines@[i as int]@);
        if len > widest {
            widest = len;
        }
        i = i + 1;
    }
    assert(rows.take(count as int) =~= rows);
    Extent { x: n.x, y: n.y, widest, lines: count, root }
}

// ---------------------------------------------------------------------------
// What is drawn
// ---------------------------------------------------------------------------

/// The frame of the drawing: what the view shows, and its size in whole pixels.
pub struct Frame {
    pub x: String,
    pub y: String,
    pub w: String,
    pub h: String,
    pub width: String,
    pub height: String,
}

/// The ends of a line.
pub struct Stroke {
    pub x1: String,
    pub y1: String,
    pub x2: String,
    pub y2: String,
}

/// The ground under an edge's label, and the middle of the edge.
pub struct Chip {
    pub x: String,
    pub y: String,
    pub w: String,
    pub h: String,
    pub mid_x: String,
    pub mid_y: String,
}

/// An edge: its line, unless it is too short to draw, and its label, unless it
/// has none.
pub struct DrawnEdge {
    pub line: Option<Stroke>,
    pub label: Option<(Chip, String)>,
}

/// A line of a label, and where it stands.
pub struct Row {
    pub x: String,
    pub y: String,
    pub text: String,
}

/// A label.
pub struct DrawnLabel {
    pub root: bool,
    pub rows: Vec<Row>,
}

/// A drawing. The edges come first, so that the labels sit on top of them.
pub struct Drawing {
    pub frame: Frame,
    pub edges: Vec<DrawnEdge>,
    pub labels: Vec<DrawnLabel>,
}

/// Both ends of an edge are there.
pub open spec fn hangs(g: GraphModel, e: u64) -> bool {
    g.has(g.edges[e].from) && g.has(g.edges[e].to)
}

/// The edges that are drawn, by their ids.
pub open spec fn drawn_edges(g: GraphModel) -> Seq<u64> {
    ids::listed(g.edges.dom()).filter(|e: u64| hangs(g, e))
}

/// The edge that is drawn as `d`.
pub open spec fn edge_drawn<
    L: Fn(Extent, Extent) -> Option<Stroke>,
    C: Fn(Extent, Extent, usize) -> Chip,
>(g: GraphModel, e: EdgeModel, d: DrawnEdge, line: &L, chip: &C) -> bool {
    let a = extent_in(g, e.from);
    let b = extent_in(g, e.to);
    &&& line.ensures((a, b), d.line)
    &&& d.label is Some <==> e.label.len() > 0
    &&& d.label matches Some(l) ==> l.1@ == e.label && chip.ensures(
        (a, b, e.label.len() as usize),
        l.0,
    )
}

/// The label of node `id` that is drawn as `d`.
pub open spec fn label_drawn<R: Fn(Extent, usize) -> (String, String)>(
    g: GraphModel,
    id: u64,
    d: DrawnLabel,
    row: &R,
) -> bool {
    let rows = text::rows_of(g.nodes[id].text);
    &&& d.root == (id == g.root)
    &&& d.rows@.len() == rows.len()
    &&& forall|j: int|
        0 <= j < rows.len() ==> (#[trigger] d.rows@[j]).text@ == rows[j] && row.ensures(
            (extent_in(g, id), j as usize),
            (d.rows@[j].x, d.rows@[j].y),
        )
}

/// The frame of a map without nodes: a square about the middle.
pub open spec fn blank(f: Frame) -> bool {
    &&& f.x@ == "-140.00"@ && f.y@ == "-140.00"@
    &&& f.w@ == "280.00"@ && f.h@ == "280.00"@
    &&& f.width@ == "280"@ && f.height@ == "280"@
}

fn blank_frame() -> (f: Frame)
    ensures
        blank(f),
{
    Frame {
        x: "-140.00".to_owned(),
        y: "-140.00".to_owned(),
        w: "280.00".to_owned(),
        h: "280.00".to_owned(),
        width: "280".to_owned(),
        height: "280".to_owned(),
    }
}

/// `d` draws the map `g`: every node, in ascending order, and every edge between
/// two nodes that are there.
pub open spec fn draws<
    F: Fn(&Vec<Extent>) -> Frame,
    L: Fn(Extent, Extent) -> Option<Stroke>,
    C: Fn(Extent, Extent, usize) -> Chip,
    R: Fn(Extent, usize) -> (String, String),
>(g: GraphModel, d: Drawing, frame: &F, line: &L, chip: &C, row: &R) -> bool {
    let nodes = ids::listed(g.nodes.dom());
    let edges = drawn_edges(g);
    &&& if nodes.len() == 0 {
        blank(d.frame)
    } else {
        exists|all: Vec<Extent>|
            all@ == nodes.map_values(|id: u64| extent_in(g, id)) && #[trigger] frame.ensures(
                (&all,),
                d.frame,
            )
    }
    &&& d.labels@.len() == nodes.len()
    &&& forall|i: int| 0 <= i < nodes.len() ==> label_drawn(g, nodes[i], #[trigger] d.labels@[i], row)
    &&& d.edges@.len() == edges.len()
    &&& forall|i: int|
        0 <= i < edges.len() ==> edge_drawn(
            g,
            g.edges[edges[i]],
            #[trigger] d.edges@[i],
            line,
            chip,
        )
}

fn draw_label<R: Fn(Extent, usize) -> (String, String)>(n: &Node, root: bool, row: &R) -> (r:
    DrawnLabel)
    requires
        forall|e: Extent, i: usize| #[trigger] row.requires((e, i)),
    ensures
        r.root == root,
        r.rows@.len() == text::rows_of(n@.text).len(),
        forall|j: int|
            0 <= j < r.rows@.len() ==> (#[trigger] r.rows@[j]).text@ == text::rows_of(n@.text)[j]
                && row.ensures((extent_of(n@, root), j as usize), (r.rows@[j].x, r.rows@[j].y)),
{
    let at = extent(n, root);
    let lines = paint::label_lines(n.text.as_str());
    let ghost rows = text::rows_of(n@.text);
    assert(rows.len() == lines@.map_values(|s: String| s@).len());
    let count: usize = lines.len();
    let mut out: Vec<Row> = Vec::new();
    let mut i: usize = 0;
    while i < count
        invariant
            i <= count,
            count == lines@.len(),
            count == rows.len(),
            at == extent_of(n@, root),
            rows == lines@.map_values(|s: String| s@),
            forall|e: Extent, i: usize| #[trigger] row.requires((e, i)),
            out@.len() == i,
            forall|j: int|
                0 <= j < i ==> (#[trigger] out@[j]).text@ == rows[j] && row.ensures(
                    (at, j as usize),
                    (out@[j].x, out@[j].y),
                ),
        decreases count - i,
    {
        let (x, y) = row(at, i);
        assert(rows[i as int] == lines@[i as int]@);
        out.push(Row { x, y, text: lines[i].clone() });
        i = i + 1;
    }
    DrawnLabel { root, rows: out }
}

/// Draws a map. `frame` fits the drawing around the labels, `line` gives the
/// ends of an edge, or nothing where it is too short, `chip` the ground under a
/// label of so many characters, and `row` the place of a line of a label.
pub fn draw<
    F: Fn(&Vec<Extent>) -> Frame,
    L: Fn(Extent, Extent) -> Option<Stroke>,
    C: Fn(Extent, Extent, usize) -> Chip,
    R: Fn(Extent, usize) -> (String, String),
>(g: &Graph, frame: &F, line: &L, chip: &C, row: &R) -> (r: Drawing)
    requires
        forall|v: Vec<Extent>| #[trigger] frame.requires((&v,)),
        forall|a: Extent, b: Extent| #[trigger] line.requires((a, b)),
        forall|a: Extent, b: Extent, n: usize| #[trigger] chip.requires((a, b, n)),
        forall|e: Extent, i: usize| #[trigger] row.requires((e, i)),
    ensures
        draws(g@, r, frame, line, chip, row),
{
    let nodes = ids::sorted_keys(&g.nodes);
    let ghost m = g@;
    assert(m.nodes.dom() =~= g.nodes@.dom());
    assert(m.edges.dom() =~= g.edges@.dom());
    proof {
        ids::lemma_listed(nodes@, m.nodes.dom());
    }
    let mut all: Vec<Extent> = Vec::new();
    let mut labels: Vec<DrawnLabel> = Vec::new();
    let n: usize = nodes.len();
    let mut i: usize = 0;
    while i < n
        invariant
            i <= n,
            n == nodes@.len(),
            m == g@,
            ids::lists(nodes@, m.nodes.dom()),
            m.nodes.dom() == g.nodes@.dom(),
            forall|e: Extent, i: usize| #[trigger] row.requires((e, i)),
            all@.len() == i,
            labels@.len() == i,
            forall|k: int| 0 <= k < i ==> #[trigger] all@[k] == extent_in(m, nodes@[k]),
            forall|k: int|
                0 <= k < i ==> label_drawn(m, nodes@[k], #[trigger] labels@[k], row),
        decreases n - i,
    {
        let id: u64 = nodes[i];
        assert(nodes@.contains(id));
        let root = id == g.root_id;
        if let Some(node) = g.nodes.get(&id) {
            assert(node@ == m.nodes[id]);
            all.push(extent(node, root));
            labels.push(draw_label(node, root, row));
        } else {
            assert(false);
        }
        i = i + 1;
    }
    assert(all@ =~= ids::listed(m.nodes.dom()).map_values(|id: u64| extent_in(m, id)));
    let view = if n == 0 {
        blank_frame()
    } else {
        frame(&all)
    };
    let links = ids::sorted_keys(&g.edges);
    proof {
        ids::lemma_listed(links@, m.edges.dom());
    }
    let mut edges: Vec<DrawnEdge> = Vec::new();
    let count: usize = links.len();
    let mut k: usize = 0;
    let ghost keep = |e: u64| hangs(m, e);
    assert(links@.take(0) =~= seq![]);
    assert(links@.take(0).filter(keep) =~= seq![]) by {
        reveal(Seq::filter);
    }
    while k < count
        invariant
            k <= count,
            count == links@.len(),
            m == g@,
            keep == (|e: u64| hangs(m, e)),
            ids::lists(links@, m.edges.dom()),
            m.edges.dom() == g.edges@.dom(),
            m.nodes.dom() == g.nodes@.dom(),
            forall|a: Extent, b: Extent| #[trigger] line.requires((a, b)),
            forall|a: Extent, b: Extent, n: usize| #[trigger] chip.requires((a, b, n)),
            edges@.len() == links@.take(k as int).filter(keep).len(),
            forall|i: int|
                0 <= i < edges@.len() ==> edge_drawn(
                    m,
                    m.edges[links@.take(k as int).filter(keep)[i]],
                    #[trigger] edges@[i],
                    line,
                    chip,
                ),
        decreases count - k,
    {
        let id: u64 = links[k];
        assert(links@.contains(id));
        let ghost before = links@.take(k as int).filter(keep);
        proof {
            assert(links@.take(k + 1).drop_last() =~= links@.take(k as int));
            assert(links@.take(k + 1).last() == id);
            reveal(Seq::filter);
        }
        let ghost was = edges@;
        if let Some(e) = g.edges.get(&id) {
            assert(e@ == m.edges[id]);
            match (g.nodes.get(&e.from), g.nodes.get(&e.to)) {
                (Some(a), Some(b)) => {
                    assert(hangs(m, id));
                    assert(links@.take(k + 1).filter(keep) == before.push(id));
                    edges.push(draw_edge(g, e, a, b, line, chip));
                    assert forall|i: int| 0 <= i < edges@.len() implies edge_drawn(
                        m,
                        m.edges[before.push(id)[i]],
                        #[trigger] edges@[i],
                        line,
                        chip,
                    ) by {
                        if i < was.len() {
                            assert(edges@[i] == was[i]);
                        }
                    }
                },
                _ => {
                    assert(!hangs(m, id));
                },
            }
        } else {
            assert(false);
        }
        k = k + 1;
    }
    assert(links@.take(count as int) =~= links@);
    assert(links@.filter(keep) == drawn_edges(m));
    let d = Drawing { frame: view, edges, labels };
    proof {
        assert(n > 0 ==> frame.ensures((&all,), d.frame));
        assert(d.labels@.len() == nodes@.len());
        assert forall|i: int| 0 <= i < nodes@.len() implies label_drawn(
            m,
            nodes@[i],
            #[trigger] d.labels@[i],
            row,
        ) by {}
        assert(d.edges@.len() == drawn_edges(m).len());
        assert forall|i: int| 0 <= i < drawn_edges(m).len() implies edge_drawn(
            m,
            m.edges[drawn_edges(m)[i]],
            #[trigger] d.edges@[i],
            line,
            chip,
        ) by {}
    }
    d
}

fn draw_edge<
    L: Fn(Extent, Extent) -> Option<Stroke>,
    C: Fn(Extent, Extent, usize) -> Chip,
>(g: &Graph, e: &Edge, a: &Node, b: &Node, line: &L, chip: &C) -> (r: DrawnEdge)
    requires
        g@.has(e@.from),
        g@.has(e@.to),
        a@ == g@.nodes[e@.from],
        b@ == g@.nodes[e@.to],
        forall|a: Extent, b: Extent| #[trigger] line.requires((a, b)),
        forall|a: Extent, b: Extent, n: usize| #[trigger] chip.requires((a, b, n)),
    ensures
        edge_drawn(g@, e@, r, line, chip),
{
    let p = extent(a, e.from == g.root_id);
    let q = extent(b, e.to == g.root_id);
    let stroke = line(p, q);
    let n: usize = char_count(e.label.as_str());
    let label: Option<(Chip, String)> = if n > 0 {
        Some((chip(p, q, n), e.label.clone()))
    } else {
        None
    };
    DrawnEdge { line: stroke, label }
}

// ---------------------------------------------------------------------------
// The document
// ---------------------------------------------------------------------------

/// A text as it is written in the document.
pub open spec fn written(s: Seq<char>) -> Seq<char> {
    escape::escaped(s)
}

/// A text as it is written in the document.
pub fn escape(s: &str) -> (r: String)
    ensures
        r@ == written(s@),
{
    let spelled = escape::xml_escape(&text::chars(s));
    assert(spelled@.subrange(0, spelled@.len() as int) =~= spelled@);
    text::join(&spelled, 0, spelled.len())
}

pub open spec fn header(f: Frame) -> Seq<char> {
    "<svg xmlns=\"http://www.w3.org/2000/svg\" viewBox=\""@ + f.x@ + " "@ + f.y@ + " "@ + f.w@
        + " "@ + f.h@ + "\" width=\""@ + f.width@ + "\" height=\""@ + f.height@
        + "\" font-family=\"Lilex, monospace\">\n"@ + rect(f.x@, f.y@, f.w@, f.h@)
}

/// A plate of the ground's colour.
pub open spec fn rect(x: Seq<char>, y: Seq<char>, w: Seq<char>, h: Seq<char>) -> Seq<char> {
    "  <rect x=\""@ + x + "\" y=\""@ + y + "\" width=\""@ + w + "\" height=\""@ + h
        + "\" fill=\"#fafafa\"/>\n"@
}

pub open spec fn stroke_text(s: Stroke) -> Seq<char> {
    "  <line x1=\""@ + s.x1@ + "\" y1=\""@ + s.y1@ + "\" x2=\""@ + s.x2@ + "\" y2=\""@ + s.y2@
        + "\" stroke=\"#555\" stroke-width=\"1\"/>\n"@
}

/// A text element, up to the size of its letters.
pub open spec fn text_at(x: Seq<char>, y: Seq<char>) -> Seq<char> {
    "  <text x=\""@ + x + "\" y=\""@ + y
        + "\" text-anchor=\"middle\" dominant-baseline=\"central\" font-size=\""@
}

pub open spec fn edge_label_text(c: Chip, label: Seq<char>) -> Seq<char> {
    rect(c.x@, c.y@, c.w@, c.h@) + text_at(c.mid_x@, c.mid_y@) + "12.00\" fill=\"#555\">"@
        + written(label) + "</text>\n"@
}

pub open spec fn edge_text(e: DrawnEdge) -> Seq<char> {
    (match e.line {
        Some(s) => stroke_text(s),
        None => seq![],
    }) + (match e.label {
        Some(l) => edge_label_text(l.0, l.1@),
        None => seq![],
    })
}

pub open spec fn row_text(r: Row, root: bool) -> Seq<char> {
    text_at(r.x@, r.y@) + (if root {
        "17.00\" font-weight=\"bold\" fill=\"#1a1a1a\">"@
    } else {
        "15.00\" fill=\"#1a1a1a\">"@
    }) + written(r.text@) + "</text>\n"@
}

pub open spec fn edges_text(edges: Seq<DrawnEdge>) -> Seq<char>
    decreases edges.len(),
{
    if edges.len() == 0 {
        seq![]
    } else {
        edges_text(edges.drop_last()) + edge_text(edges.last())
    }
}

pub open spec fn rows_text(rows: Seq<Row>, root: bool) -> Seq<char>
    decreases rows.len(),
{
    if rows.len() == 0 {
        seq![]
    } else {
        rows_text(rows.drop_last(), root) + row_text(rows.last(), root)
    }
}

pub open spec fn labels_text(labels: Seq<DrawnLabel>) -> Seq<char>
    decreases labels.len(),
{
    if labels.len() == 0 {
        seq![]
    } else {
        labels_text(labels.drop_last()) + rows_text(labels.last().rows@, labels.last().root)
    }
}

/// The document of a drawing.
pub open spec fn document(d: Drawing) -> Seq<char> {
    header(d.frame) + edges_text(d.edges@) + labels_text(d.labels@) + "</svg>"@
}

fn put_rect(out: &mut String, x: &str, y: &str, w: &str, h: &str)
    ensures
        final(out)@ == old(out)@ + rect(x@, y@, w@, h@),
{
    let ghost was = out@;
    out.push_str("  <rect x=\"");
    out.push_str(x);
    out.push_str("\" y=\"");
    out.push_str(y);
    out.push_str("\" width=\"");
    out.push_str(w);
    out.push_str("\" height=\"");
    out.push_str(h);
    out.push_str("\" fill=\"#fafafa\"/>\n");
    assert(out@ =~= was + rect(x@, y@, w@, h@));
}

fn put_text_at(out: &mut String, x: &str, y: &str)
    ensures
        final(out)@ == old(out)@ + text_at(x@, y@),
{
    let ghost was = out@;
    out.push_str("  <text x=\"");
    out.push_str(x);
    out.push_str("\" y=\"");
    out.push_str(y);
    out.push_str("\" text-anchor=\"middle\" dominant-baseline=\"central\" font-size=\"");
    assert(out@ =~= was + text_at(x@, y@));
}

fn put_header(out: &mut String, f: &Frame)
    ensures
        final(out)@ == old(out)@ + header(*f),
{
    let ghost was = out@;
    out.push_str("<svg xmlns=\"http://www.w3.org/2000/svg\" viewBox=\"");
    out.push_str(f.x.as_str());
    out.push_str(" ");
    out.push_str(f.y.as_str());
    out.push_str(" ");
    out.push_str(f.w.as_str());
    out.push_str(" ");
    out.push_str(f.h.as_str());
    out.push_str("\" width=\"");
    out.push_str(f.width.as_str());
    out.push_str("\" height=\"");
    out.push_str(f.height.as_str());
    out.push_str("\" font-family=\"Lilex, monospace\">\n");
    put_rect(out, f.x.as_str(), f.y.as_str(), f.w.as_str(), f.h.as_str());
    assert(out@ =~= was + header(*f));
}

fn put_edge(out: &mut String, e: &DrawnEdge)
    ensures
        final(out)@ == old(out)@ + edge_text(*e),
{
    let ghost was = out@;
    if let Some(s) = &e.line {
        out.push_str("  <line x1=\"");
        out.push_str(s.x1.as_str());
        out.push_str("\" y1=\"");
        out.push_str(s.y1.as_str());
        out.push_str("\" x2=\"");
        out.push_str(s.x2.as_str());
        out.push_str("\" y2=\"");
        out.push_str(s.y2.as_str());
        out.push_str("\" stroke=\"#555\" stroke-width=\"1\"/>\n");
        assert(out@ =~= was + stroke_text(*s));
    }
    let ghost then = out@;
    if let Some((c, label)) = &e.label {
        put_rect(out, c.x.as_str(), c.y.as_str(), c.w.as_str(), c.h.as_str());
        put_text_at(out, c.mid_x.as_str(), c.mid_y.as_str());
        out.push_str("12.00\" fill=\"#555\">");
        let label_text = escape(label.as_str());
        out.push_str(label_text.as_str());
        out.push_str("</text>\n");
        assert(out@ =~= then + edge_label_text(*c, label@));
    }
    assert(out@ =~= was + edge_text(*e));
}

fn put_row(out: &mut String, r: &Row, root: bool)
    ensures
        final(out)@ == old(out)@ + row_text(*r, root),
{
    let ghost was = out@;
    put_text_at(out, r.x.as_str(), r.y.as_str());
    if root {
        out.push_str("17.00\" font-weight=\"bold\" fill=\"#1a1a1a\">");
    } else {
        out.push_str("15.00\" fill=\"#1a1a1a\">");
    }
    let row = escape(r.text.as_str());
    out.push_str(row.as_str());
    out.push_str("</text>\n");
    assert(out@ =~= was + row_text(*r, root));
}

fn put_label(out: &mut String, label: &DrawnLabel)
    ensures
        final(out)@ == old(out)@ + rows_text(label.rows@, label.root),
{
    let ghost was = out@;
    let n: usize = label.rows.len();
    let mut i: usize = 0;
    let ghost rows = label.rows@;
    assert(rows.take(0) =~= seq![]);
    assert(out@ =~= was + rows_text(rows.take(0), label.root));
    while i < n
        invariant
            i <= n,
            n == rows.len(),
            rows == label.rows@,
            out@ == was + rows_text(rows.take(i as int), label.root),
        decreases n - i,
    {
        put_row(out, &label.rows[i], label.root);
        assert(rows.take(i + 1).drop_last() =~= rows.take(i as int));
        assert(out@ =~= was + rows_text(rows.take(i + 1), label.root));
        i = i + 1;
    }
    assert(rows.take(n as int) =~= rows);
}

/// The document of a drawing.
pub fn render(d: &Drawing) -> (r: String)
    ensures
        r@ == document(*d),
{
    let mut out = String::new();
    put_header(&mut out, &d.frame);
    let ghost head = header(d.frame);
    assert(out@ =~= head);
    let n: usize = d.edges.len();
    let mut i: usize = 0;
    let ghost edges = d.edges@;
    assert(edges.take(0) =~= seq![]);
    assert(out@ =~= head + edges_text(edges.take(0)));
    while i < n
        invariant
            i <= n,
            n == edges.len(),
            edges == d.edges@,
            out@ == head + edges_text(edges.take(i as int)),
        decreases n - i,
    {
        put_edge(&mut out, &d.edges[i]);
        assert(edges.take(i + 1).drop_last() =~= edges.take(i as int));
        assert(out@ =~= head + edges_text(edges.take(i + 1)));
        i = i + 1;
    }
    assert(edges.take(n as int) =~= edges);
    let ghost upper = out@;
    let count: usize = d.labels.len();
    let mut k: usize = 0;
    let ghost labels = d.labels@;
    assert(labels.take(0) =~= seq![]);
    assert(out@ =~= upper + labels_text(labels.take(0)));
    while k < count
        invariant
            k <= count,
            count == labels.len(),
            labels == d.labels@,
            out@ == upper + labels_text(labels.take(k as int)),
        decreases count - k,
    {
        put_label(&mut out, &d.labels[k]);
        assert(labels.take(k + 1).drop_last() =~= labels.take(k as int));
        assert(out@ =~= upper + labels_text(labels.take(k + 1)));
        k = k + 1;
    }
    assert(labels.take(count as int) =~= labels);
    out.push_str("</svg>");
    out
}

/// A map as a complete SVG document. The numbers are worked out as for [`draw`].
pub fn to_svg<
    F: Fn(&Vec<Extent>) -> Frame,
    L: Fn(Extent, Extent) -> Option<Stroke>,
    C: Fn(Extent, Extent, usize) -> Chip,
    R: Fn(Extent, usize) -> (String, String),
>(g: &Graph, frame: &F, line: &L, chip: &C, row: &R) -> (r: String)
    requires
        forall|v: Vec<Extent>| #[trigger] frame.requires((&v,)),
        forall|a: Extent, b: Extent| #[trigger] line.requires((a, b)),
        forall|a: Extent, b: Extent, n: usize| #[trigger] chip.requires((a, b, n)),
        forall|e: Extent, i: usize| #[trigger] row.requires((e, i)),
    ensures
        exists|d: Drawing| #[trigger] draws(g@, d, frame, line, chip, row) && r@ == document(d),
{
    let d = draw(g, frame, line, chip, row);
    render(&d)
}

/// Nothing that is written of a text can be taken for markup.
pub proof fn written_text_is_safe(s: Seq<char>)
    ensures
        forall|i: int|
            0 <= i < written(s).len() ==> (#[trigger] written(s)[i]) != '<' && written(s)[i] != '>'
                && written(s)[i] != '"' && written(s)[i] != '\'',
{
    escape::escaped_is_safe(s);
}

} // verus!
