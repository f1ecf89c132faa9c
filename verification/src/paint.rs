//! What a frame looks like: which inks, washes and marks the state of a node or
//! an edge calls for. Where they go on the screen is not decided here.

use vstd::prelude::*;
use vstd::string::StringSliceAdditionalSpecFns;
use crate::markdown;
use crate::markdown::MdStyle;
use crate::markdown::{cover, grammar};
use crate::text;
use crate::theme::Theme;

verus! {

// ---------------------------------------------------------------------------
// Colour tags
// ---------------------------------------------------------------------------

/// The colour of a tag: red, amber, green, teal, blue and violet, from one to
/// six.
pub open spec fn color_of(tag: Option<u8>) -> Option<u32> {
    match tag {
        Some(1) => Some(0xD14343),
        Some(2) => Some(0xC78A1E),
        Some(3) => Some(0x2E9E54),
        Some(4) => Some(0x1F9E9E),
        Some(5) => Some(0x3B6FE0),
        Some(6) => Some(0x8A5CD6),
        _ => None,
    }
}

/// The colour of a tag. No tag, and anything out of range, is plain ink.
pub fn tag_color(tag: Option<u8>) -> (r: Option<u32>)
    ensures
        r == color_of(tag),
{
    match tag {
        Some(1) => Some(0xD14343),
        Some(2) => Some(0xC78A1E),
        Some(3) => Some(0x2E9E54),
        Some(4) => Some(0x1F9E9E),
        Some(5) => Some(0x3B6FE0),
        Some(6) => Some(0x8A5CD6),
        _ => None,
    }
}

/// A tag has a colour exactly when it is one of the six, and no two tags share
/// one.
pub proof fn tags_are_told_apart(a: u8, b: u8)
    ensures
        color_of(Some(a)) is Some <==> 1 <= a <= 6,
        color_of(Some(a)) is Some && color_of(Some(a)) == color_of(Some(b)) ==> a == b,
{
}

// ---------------------------------------------------------------------------
// Rows and runs of a label
// ---------------------------------------------------------------------------

/// The visual lines of a label: it is split at the hard line breaks, and empty
/// text is one empty line.
pub fn label_lines(label: &str) -> (r: Vec<String>)
    ensures
        r@.map_values(|s: String| s@) == text::rows_of(label@),
        r@.len() >= 1,
{
    let chars = text::chars(label);
    let rows = text::rows(&chars);
    let mut out: Vec<String> = Vec::new();
    let n: usize = rows.len();
    let mut i: usize = 0;
    let ghost all = text::rows_of(label@);
    while i < n
        invariant
            i <= n,
            n == rows@.len(),
            n == all.len(),
            chars@ == label@,
            all == text::rows_of(chars@),
            forall|k: int|
                0 <= k < rows@.len() ==> {
                    let (from, to) = #[trigger] rows@[k];
                    from <= to <= chars@.len() && chars@.subrange(from as int, to as int)
                        == text::rows_of(chars@)[k]
                },
            out@.len() == i,
            forall|k: int| 0 <= k < i ==> (#[trigger] out@[k])@ == all[k],
        decreases n - i,
    {
        let (from, to) = rows[i];
        out.push(text::join(&chars, from, to));
        i = i + 1;
    }
    proof {
        text::lemma_rows(label@);
    }
    assert(out@.map_values(|s: String| s@) =~= all);
    out
}

/// The ink of a run of a label.
#[derive(Clone, Copy, Debug, PartialEq, Eq, Structural)]
pub enum Ink {
    /// The ink of the label itself.
    Base,
    Soft,
    Accent,
    Dim,
}

/// How a run of a label is drawn. None of it changes how wide the run is.
#[derive(Clone, Copy, Debug, PartialEq, Eq, Structural)]
pub struct Attrs {
    /// Bold, whatever the weight of the label.
    pub bold: bool,
    pub italic: bool,
    pub ink: Ink,
    pub underline: bool,
    pub strike: bool,
}

/// How a markdown role is drawn.
pub open spec fn attrs_of(style: MdStyle) -> Attrs {
    Attrs {
        bold: style is Heading || style is Bold || style is BoldItalic,
        italic: style is Italic || style is BoldItalic,
        ink: if style is Strikethrough || style is Code {
            Ink::Soft
        } else if style is LinkText || style is LinkUrl || style is TaskDone {
            Ink::Accent
        } else if style is HeadingMarker || style is Marker || style is Fence || style is ListMarker
            || style is QuoteMarker || style is Separator || style is TaskOpen {
            Ink::Dim
        } else {
            Ink::Base
        },
        underline: style is LinkUrl,
        strike: style is Strikethrough,
    }
}

/// How a markdown role is drawn.
pub fn md_attrs(style: MdStyle) -> (r: Attrs)
    ensures
        r == attrs_of(style),
{
    let plain = Attrs { bold: false, italic: false, ink: Ink::Base, underline: false, strike: false };
    match style {
        MdStyle::Text | MdStyle::Quote | MdStyle::CodeBlock => plain,
        MdStyle::Heading(_) | MdStyle::Bold => Attrs { bold: true, ..plain },
        MdStyle::Italic => Attrs { italic: true, ..plain },
        MdStyle::BoldItalic => Attrs { bold: true, italic: true, ..plain },
        MdStyle::Strikethrough => Attrs { ink: Ink::Soft, strike: true, ..plain },
        MdStyle::Code => Attrs { ink: Ink::Soft, ..plain },
        MdStyle::LinkText => Attrs { ink: Ink::Accent, ..plain },
        MdStyle::LinkUrl => Attrs { ink: Ink::Accent, underline: true, ..plain },
        MdStyle::TaskDone => Attrs { ink: Ink::Accent, ..plain },
        MdStyle::HeadingMarker(_) | MdStyle::Marker | MdStyle::Fence | MdStyle::ListMarker
        | MdStyle::QuoteMarker | MdStyle::Separator | MdStyle::TaskOpen => Attrs {
            ink: Ink::Dim,
            ..plain
        },
    }
}

/// A run of a line: so many bytes, drawn in one way.
#[derive(Clone, Copy, Debug, PartialEq, Eq, Structural)]
pub struct TextRun {
    pub len: usize,
    pub attrs: Attrs,
}

/// The runs of a line from its spans. A line without spans is one plain run.
pub open spec fn runs_of(spans: Seq<grammar::Run>, len: nat) -> Seq<(int, Attrs)> {
    if spans.len() == 0 {
        seq![(len as int, attrs_of(MdStyle::Text))]
    } else {
        styled(spans)
    }
}

/// The runs of some spans.
pub open spec fn styled(spans: Seq<grammar::Run>) -> Seq<(int, Attrs)> {
    spans.map_values(|s: grammar::Run| (s.end - s.start, attrs_of(s.style)))
}

/// Runs in mathematical integers.
pub open spec fn run_views(runs: Seq<TextRun>) -> Seq<(int, Attrs)> {
    runs.map_values(|r: TextRun| (r.len as int, r.attrs))
}

/// The runs that one line of a label is drawn in.
pub fn line_runs(line: &str) -> (r: Vec<TextRun>)
    ensures
        run_views(r@) == runs_of(
            grammar::line(line.spec_bytes(), false),
            line.spec_bytes().len(),
        ),
        covered(run_views(r@)) == line.spec_bytes().len(),
{
    let spans = markdown::highlight_line(line, false);
    let n: usize = spans.len();
    let mut out: Vec<TextRun> = Vec::new();
    let ghost rs = grammar::runs(spans@);
    let ghost len = line.spec_bytes().len();
    if n == 0 {
        out.push(TextRun { len: line.as_bytes().len(), attrs: md_attrs(MdStyle::Text) });
        assert(run_views(out@) =~= runs_of(rs, len));
        assert(covered(run_views(out@)) == len) by {
            reveal_with_fuel(covered, 2);
        }
        return out;
    }
    let mut i: usize = 0;
    while i < n
        invariant
            i <= n,
            n == spans@.len(),
            rs == grammar::runs(spans@),
            cover::tiles(rs, 0, len as int),
            n > 0,
            out@.len() == i,
            forall|k: int|
                0 <= k < i ==> run_views(out@)[k] == #[trigger] runs_of(rs, len)[k],
        decreases n - i,
    {
        assert(rs[i as int].start < rs[i as int].end);
        let s = spans[i];
        let ghost was = run_views(out@);
        out.push(TextRun { len: s.end - s.start, attrs: md_attrs(s.style) });
        assert(run_views(out@) =~= was.push((s.end - s.start, attrs_of(s.style))));
        i = i + 1;
    }
    assert(run_views(out@) =~= runs_of(rs, len));
    proof {
        lemma_covered(rs, 0, len as int);
    }
    out
}

/// How many bytes some runs are together.
pub open spec fn covered(runs: Seq<(int, Attrs)>) -> int
    decreases runs.len(),
{
    if runs.len() == 0 {
        0
    } else {
        covered(runs.drop_last()) + runs.last().0
    }
}

proof fn lemma_covered(rs: Seq<grammar::Run>, lo: int, hi: int)
    requires
        cover::tiles(rs, lo, hi),
        rs.len() > 0,
    ensures
        covered(styled(rs)) == hi - lo,
    decreases rs.len(),
{
    let rest = rs.drop_last();
    assert(styled(rs).drop_last() =~= styled(rest));
    reveal_with_fuel(covered, 2);
    if rest.len() > 0 {
        assert(rest.last() == rs[rs.len() - 2]);
        assert(rs[rs.len() - 2].end == rs[rs.len() - 1].start);
        assert forall|i: int, j: int| 0 <= i && j == i + 1 && j < rest.len() implies (
        #[trigger] rest[i]).end == (#[trigger] rest[j]).start by {
            assert(rs[i].end == rs[j].start);
        }
        assert forall|i: int| 0 <= i < rest.len() implies (#[trigger] rest[i]).start
            < rest[i].end by {
            assert(rs[i].start < rs[i].end);
        }
        lemma_covered(rest, lo, rest.last().end);
    }
}

// ---------------------------------------------------------------------------
// Edges
// ---------------------------------------------------------------------------

/// What is known of an edge that is to be drawn.
#[derive(Clone, Copy, Debug, PartialEq, Eq, Structural)]
pub struct EdgeState {
    pub focus: bool,
    pub hover: bool,
    /// A drag has pulled far enough that letting go will cut it.
    pub severing: bool,
    pub labelled: bool,
    /// Its label is big enough on the screen to be read.
    pub readable: bool,
}

/// Where an edge opens a gap, and for what.
#[derive(Clone, Copy, Debug, PartialEq, Eq, Structural)]
pub enum Gap {
    Closed,
    /// Wide enough for its label.
    ForLabel,
    /// Wide enough for one letter.
    ForLetter,
}

/// How an edge is drawn.
#[derive(Clone, Copy, Debug, PartialEq, Eq, Structural)]
pub enum EdgeLook {
    /// A dashed, faded break without a label.
    Severed { ink: u32 },
    Channel {
        ink: u32,
        /// A quarter thicker than its place in the tree makes it.
        thick: bool,
        gap: Gap,
        /// A faint caret that offers a place to type.
        hint: bool,
        /// The ink of the label, or of the blank where one is typed.
        label: Option<u32>,
    },
}

/// How an edge is drawn.
pub open spec fn edge_look_of(e: EdgeState, theme: Theme) -> EdgeLook {
    if e.severing {
        EdgeLook::Severed { ink: theme.ink_faint }
    } else {
        let hint = e.readable && e.hover && !e.labelled && !e.focus;
        EdgeLook::Channel {
            ink: if e.focus {
                theme.edge_accent
            } else if e.hover {
                theme.hover
            } else {
                theme.line
            },
            thick: e.focus,
            gap: if !e.readable {
                Gap::Closed
            } else if e.labelled {
                Gap::ForLabel
            } else if e.focus || hint {
                Gap::ForLetter
            } else {
                Gap::Closed
            },
            hint,
            label: if e.readable && (e.labelled || e.focus) {
                Some(
                    if e.focus {
                        theme.edge_accent
                    } else {
                        theme.ink_soft
                    },
                )
            } else {
                None
            },
        }
    }
}

/// How an edge is drawn.
pub fn edge_look(e: EdgeState, theme: &Theme) -> (r: EdgeLook)
    ensures
        r == edge_look_of(e, *theme),
{
    if e.severing {
        return EdgeLook::Severed { ink: theme.ink_faint };
    }
    let ink: u32 = if e.focus {
        theme.edge_accent
    } else if e.hover {
        theme.hover
    } else {
        theme.line
    };
    // Hovering a bare line offers a place to type: it opens the gap that a label
    // would and drops a faint caret into it.
    let hint = e.readable && e.hover && !e.labelled && !e.focus;
    let gap = if e.readable && (e.labelled || e.focus || hint) {
        if e.labelled {
            Gap::ForLabel
        } else {
            Gap::ForLetter
        }
    } else {
        Gap::Closed
    };
    let label: Option<u32> = if e.readable && (e.labelled || e.focus) {
        if e.focus {
            Some(theme.edge_accent)
        } else {
            Some(theme.ink_soft)
        }
    } else {
        None
    };
    EdgeLook::Channel { ink, thick: e.focus, gap, hint, label }
}

// ---------------------------------------------------------------------------
// Nodes
// ---------------------------------------------------------------------------

/// What is known of a node's picture.
#[derive(Clone, Copy, Debug, PartialEq, Eq, Structural)]
pub enum Picture {
    /// It has none.
    Absent,
    /// It can be drawn.
    Resident,
    /// It is being decoded, or too small to bother with.
    Waiting,
    /// The file is not there.
    Missing,
}

/// What is known of a node that is to be drawn.
#[derive(Clone, Copy, Debug, PartialEq, Eq, Structural)]
pub struct NodeState {
    /// Its text is big enough on the screen to be read.
    pub readable: bool,
    pub picture: Picture,
    pub root: bool,
    /// The keyboard cursor is here.
    pub focus: bool,
    pub hover: bool,
    /// What delete, drag and nudge would act on.
    pub selected: bool,
    /// Letting go here would hang the dragged branch under this node.
    pub drop_target: bool,
    /// Nothing if there is nothing to fold; whether it is folded otherwise.
    pub fold: Option<bool>,
    pub empty: bool,
    pub color: Option<u8>,
    /// A find is running and this is no match.
    pub dim: bool,
    /// A find is running and this is a match; whether it is the current one.
    pub find_hit: Option<bool>,
    /// The map is being typed into.
    pub editing: bool,
}

/// A colour laid thinly over the ground, in hundredths.
#[derive(Clone, Copy, Debug, PartialEq, Eq, Structural)]
pub struct Wash {
    pub ink: u32,
    pub strength: u8,
}

/// What stands in the place of a picture.
#[derive(Clone, Copy, Debug, PartialEq, Eq, Structural)]
pub enum Plate {
    /// The picture, under a wash if a find has filtered it out.
    Shown { over: Option<Wash> },
    /// A plate of its size.
    Blank { wash: Wash },
    /// A heavier plate, crossed out: it will never arrive.
    Crossed { wash: Wash, cross: u32 },
}

/// How a node is drawn.
#[derive(Clone, Copy, Debug, PartialEq, Eq)]
pub enum NodeLook {
    /// Too small to read: a mark, so the shape of the map survives.
    Mark { ink: u32 },
    /// A picture stands in for the label entirely.
    Framed {
        drop: Option<Wash>,
        plate: Plate,
        /// The ink of the frame around it; it has a grip exactly when it has one.
        frame: Option<u32>,
    },
    Label {
        drop: Option<Wash>,
        /// The state, as a wash under the letters.
        wash: Option<Wash>,
        /// The ring of the fold control, and whether it is filled.
        fold: Option<(Wash, bool)>,
        find: Option<Wash>,
        ink: u32,
        /// Filtered out by a find.
        dim: bool,
        heavy: bool,
    },
}

pub open spec fn wash(ink: u32, strength: u8) -> Wash {
    Wash { ink, strength }
}

/// What stands in the place of a node's picture.
pub open spec fn plate_of(n: NodeState, theme: Theme) -> Plate {
    match n.picture {
        Picture::Resident => Plate::Shown {
            over: if n.dim {
                Some(wash(theme.bg, 65))
            } else {
                None
            },
        },
        Picture::Missing => Plate::Crossed {
            wash: wash(theme.ink_faint, 30),
            cross: theme.ink_faint,
        },
        _ => Plate::Blank { wash: wash(theme.ink_faint, 14) },
    }
}

/// The state of a node as a wash under its letters. The dark ground takes
/// stronger ones. A bare cursor shows only while typing.
pub open spec fn state_wash(n: NodeState, theme: Theme) -> Option<Wash> {
    if n.selected && n.focus {
        Some(
            wash(
                theme.accent,
                if theme.dark {
                    32
                } else {
                    20
                },
            ),
        )
    } else if n.selected {
        Some(
            wash(
                theme.accent,
                if theme.dark {
                    20
                } else {
                    12
                },
            ),
        )
    } else if n.focus && n.editing {
        Some(
            wash(
                theme.ink,
                if theme.dark {
                    15
                } else {
                    11
                },
            ),
        )
    } else if n.hover {
        Some(
            wash(
                theme.ink,
                if theme.dark {
                    8
                } else {
                    5
                },
            ),
        )
    } else {
        None
    }
}

/// The wash behind a match, stronger for the current one.
pub open spec fn find_wash(n: NodeState, theme: Theme) -> Option<Wash> {
    match n.find_hit {
        Some(current) => Some(
            wash(
                theme.accent,
                if current {
                    if theme.dark {
                        34
                    } else {
                        22
                    }
                } else if theme.dark {
                    18
                } else {
                    12
                },
            ),
        ),
        None => None,
    }
}

/// The ink of a node's letters: a colour tag wins over plain ink.
pub open spec fn letter_ink(n: NodeState, theme: Theme) -> u32 {
    match color_of(n.color) {
        Some(rgb) => rgb,
        None => if n.selected {
            theme.accent
        } else if n.empty {
            theme.ink_faint
        } else {
            theme.ink
        },
    }
}

/// How a node is drawn.
pub open spec fn node_look_of(n: NodeState, theme: Theme) -> NodeLook {
    if !n.readable {
        NodeLook::Mark {
            ink: if n.focus {
                theme.accent
            } else {
                theme.ink_faint
            },
        }
    } else if n.picture != Picture::Absent {
        NodeLook::Framed {
            drop: if n.drop_target {
                Some(wash(theme.accent, 35))
            } else {
                None
            },
            plate: plate_of(n, theme),
            frame: if n.selected || n.focus {
                Some(theme.accent)
            } else if n.hover {
                Some(theme.ink_faint)
            } else {
                None
            },
        }
    } else {
        NodeLook::Label {
            drop: if n.drop_target {
                Some(wash(theme.accent, 16))
            } else {
                None
            },
            wash: state_wash(n, theme),
            fold: match n.fold {
                Some(folded) => Some(
                    (
                        if n.selected {
                            wash(theme.accent, 90)
                        } else {
                            wash(theme.ink, 55)
                        },
                        folded,
                    ),
                ),
                None => None,
            },
            find: find_wash(n, theme),
            ink: letter_ink(n, theme),
            dim: n.dim,
            heavy: n.root,
        }
    }
}

fn wash_if(on: bool, ink: u32, strength: u8) -> (r: Option<Wash>)
    ensures
        r == if on {
            Some(wash(ink, strength))
        } else {
            None
        },
{
    if on {
        Some(Wash { ink, strength })
    } else {
        None
    }
}

/// How a node is drawn.
pub fn node_look(n: NodeState, theme: &Theme) -> (r: NodeLook)
    ensures
        r == node_look_of(n, *theme),
{
    if !n.readable {
        let ink: u32 = if n.focus {
            theme.accent
        } else {
            theme.ink_faint
        };
        return NodeLook::Mark { ink };
    }
    if n.picture != Picture::Absent {
        let plate = match n.picture {
            Picture::Resident => Plate::Shown { over: wash_if(n.dim, theme.bg, 65) },
            Picture::Missing => Plate::Crossed {
                wash: Wash { ink: theme.ink_faint, strength: 30 },
                cross: theme.ink_faint,
            },
            _ => Plate::Blank { wash: Wash { ink: theme.ink_faint, strength: 14 } },
        };
        let frame: Option<u32> = if n.selected || n.focus {
            Some(theme.accent)
        } else if n.hover {
            Some(theme.ink_faint)
        } else {
            None
        };
        return NodeLook::Framed { drop: wash_if(n.drop_target, theme.accent, 35), plate, frame };
    }
    let dark = theme.dark;
    let under: Option<Wash> = if n.selected && n.focus {
        Some(
            Wash {
                ink: theme.accent,
                strength: if dark {
                    32
                } else {
                    20
                },
            },
        )
    } else if n.selected {
        // Selected, but not the one the arrows start from: lighter, so the
        // primary still reads as primary.
        Some(
            Wash {
                ink: theme.accent,
                strength: if dark {
                    20
                } else {
                    12
                },
            },
        )
    } else if n.focus && n.editing {
        Some(
            Wash {
                ink: theme.ink,
                strength: if dark {
                    15
                } else {
                    11
                },
            },
        )
    } else if n.hover {
        Some(
            Wash {
                ink: theme.ink,
                strength: if dark {
                    8
                } else {
                    5
                },
            },
        )
    } else {
        None
    };
    let fold: Option<(Wash, bool)> = match n.fold {
        Some(folded) => {
            let ring = if n.selected {
                Wash { ink: theme.accent, strength: 90 }
            } else {
                Wash { ink: theme.ink, strength: 55 }
            };
            Some((ring, folded))
        },
        None => None,
    };
    let find: Option<Wash> = match n.find_hit {
        Some(current) => {
            let strength: u8 = match (current, dark) {
                (true, true) => 34,
                (true, false) => 22,
                (false, true) => 18,
                (false, false) => 12,
            };
            Some(Wash { ink: theme.accent, strength })
        },
        None => None,
    };
    let ink: u32 = match tag_color(n.color) {
        Some(rgb) => rgb,
        None => if n.selected {
            theme.accent
        } else if n.empty {
            theme.ink_faint
        } else {
            theme.ink
        },
    };
    NodeLook::Label {
        drop: wash_if(n.drop_target, theme.accent, 16),
        wash: under,
        fold,
        find,
        ink,
        dim: n.dim,
        heavy: n.root,
    }
}

/// A node that nothing is the matter with costs the ink of its letters and no
/// more.
pub proof fn a_quiet_node_is_its_label(n: NodeState, theme: Theme)
    requires
        n.readable,
        n.picture == Picture::Absent,
        !n.selected && !n.hover && !n.drop_target && n.find_hit is None && n.fold is None,
        !n.editing || !n.focus,
    ensures
        node_look_of(n, theme) matches NodeLook::Label { drop, wash, fold, find, .. } && drop is None
            && wash is None && fold is None && find is None,
{
}

// ---------------------------------------------------------------------------
// The minimap
// ---------------------------------------------------------------------------

/// The group of a dot: its colour tag, or zero for plain ink.
pub open spec fn group_of(tag: Option<u8>) -> int {
    match tag {
        Some(t) => if 1 <= t <= 6 {
            t as int
        } else {
            0
        },
        None => 0,
    }
}

/// The dots of group `k`, in order.
pub open spec fn dots_in(tags: Seq<Option<u8>>, k: int) -> Seq<int>
    decreases tags.len(),
{
    if tags.len() == 0 {
        seq![]
    } else {
        let rest = dots_in(tags.drop_last(), k);
        if group_of(tags.last()) == k {
            rest.push(tags.len() - 1)
        } else {
            rest
        }
    }
}

/// The dots of the minimap by colour, so that each colour is drawn at one go:
/// first those in plain ink, then those of each tag. Each is told by its place.
pub fn dot_groups(tags: &Vec<Option<u8>>) -> (r: Vec<Vec<usize>>)
    ensures
        r@.len() == 7,
        forall|k: int|
            0 <= k < 7 ==> (#[trigger] r@[k])@.map_values(|i: usize| i as int) == dots_in(tags@, k),
{
    let mut out: Vec<Vec<usize>> = Vec::new();
    let mut g: usize = 0;
    assert(tags@.take(0) =~= seq![]);
    while g < 7
        invariant
            g <= 7,
            out@.len() == g,
            forall|k: int| 0 <= k < g ==> (#[trigger] out@[k])@.len() == 0,
        decreases 7 - g,
    {
        let none: Vec<usize> = Vec::new();
        out.push(none);
        g = g + 1;
    }
    let n: usize = tags.len();
    let mut i: usize = 0;
    assert forall|k: int| 0 <= k < 7 implies (#[trigger] out@[k])@.map_values(|i: usize| i as int)
        == dots_in(tags@.take(0), k) by {
        assert(out@[k]@.map_values(|i: usize| i as int) =~= seq![]);
    }
    while i < n
        invariant
            i <= n,
            n == tags@.len(),
            out@.len() == 7,
            forall|k: int|
                0 <= k < 7 ==> (#[trigger] out@[k])@.map_values(|i: usize| i as int) == dots_in(
                    tags@.take(i as int),
                    k,
                ),
        decreases n - i,
    {
        let at: usize = match tags[i] {
            Some(t) => if 1 <= t && t <= 6 {
                t as usize
            } else {
                0
            },
            None => 0,
        };
        let ghost was = out@;
        assert(tags@.take(i + 1).drop_last() =~= tags@.take(i as int));
        out[at].push(i);
        assert forall|k: int| 0 <= k < 7 implies (#[trigger] out@[k])@.map_values(
            |i: usize| i as int,
        ) == dots_in(tags@.take(i + 1), k) by {
            let before = was[k]@.map_values(|i: usize| i as int);
            assert(before == dots_in(tags@.take(i as int), k));
            if k == at {
                assert(out@[k]@ == was[k]@.push(i));
                assert(out@[k]@.map_values(|i: usize| i as int) =~= before.push(i as int));
            } else {
                assert(out@[k] == was[k]);
            }
        }
        i = i + 1;
    }
    assert(tags@.take(n as int) =~= tags@);
    out
}

/// Every dot is in the group of its tag and in no other, and the dots of a group are in
/// order.
pub proof fn every_dot_is_in_one_group(tags: Seq<Option<u8>>, k: int, i: int)
    ensures
        dots_in(tags, k).contains(i) <==> 0 <= i < tags.len() && group_of(tags[i]) == k,
        forall|a: int, b: int|
            0 <= a < b < dots_in(tags, k).len() ==> #[trigger] dots_in(tags, k)[a]
                < #[trigger] dots_in(tags, k)[b],
        forall|a: int| 0 <= a < dots_in(tags, k).len() ==> 0 <= #[trigger] dots_in(tags, k)[a]
            < tags.len(),
        forall|t: u8| 1 <= t <= 6 ==> #[trigger] group_of(Some(t)) == t,
        group_of(None) == 0,
    decreases tags.len(),
{
    if tags.len() > 0 {
        let less = tags.drop_last();
        every_dot_is_in_one_group(less, k, i);
        let rest = dots_in(less, k);
        let all = dots_in(tags, k);
        let n = tags.len() - 1;
        assert(tags.last() == tags[n]);
        if group_of(tags[n]) == k {
            assert(all == rest.push(n));
            if all.contains(i) {
                let a = choose|a: int| 0 <= a < all.len() && all[a] == i;
                if a < rest.len() {
                    assert(rest[a] == i);
                    assert(rest.contains(i));
                    assert(less[i] == tags[i]);
                }
            }
            if 0 <= i < n && group_of(tags[i]) == k {
                assert(less[i] == tags[i]);
                let a = choose|a: int| 0 <= a < rest.len() && rest[a] == i;
                assert(all[a] == i);
            }
            if i == n {
                assert(all[rest.len() as int] == i);
            }
        } else {
            assert(all == rest);
            if 0 <= i < n {
                assert(less[i] == tags[i]);
            }
        }
    }
}

/// A role is set bold, slanted, struck or underlined where its name says so, and nowhere
/// else.
pub proof fn a_role_looks_like_its_name(style: MdStyle, level: u8)
    ensures
        attrs_of(style).bold <==> style == MdStyle::Bold || style == MdStyle::BoldItalic
            || style is Heading,
        attrs_of(style).italic <==> style == MdStyle::Italic || style == MdStyle::BoldItalic,
        attrs_of(style).strike <==> style == MdStyle::Strikethrough,
        attrs_of(style).underline <==> style == MdStyle::LinkUrl,
        attrs_of(MdStyle::Marker).ink == Ink::Dim,
        attrs_of(MdStyle::Text).ink == Ink::Base,
        attrs_of(MdStyle::LinkText).ink == Ink::Accent,
{
}

/// An edge that is about to be cut shows nothing else. Of the others, a label is shown exactly
/// where it can be read and there is one or one is typed, a place to type is offered only where
/// there is neither, and the edge is open exactly where something stands in it.
pub proof fn an_edge_opens_for_what_stands_in_it(e: EdgeState, theme: Theme)
    ensures
        e.severing <==> edge_look_of(e, theme) is Severed,
        edge_look_of(e, theme) matches EdgeLook::Channel { ink, thick, gap, hint, label } ==> {
            &&& thick == e.focus
            &&& label is Some <==> e.readable && (e.labelled || e.focus)
            &&& hint <==> e.readable && e.hover && !e.labelled && !e.focus
            &&& gap is Closed <==> label is None && !hint
            &&& gap is ForLabel <==> e.readable && e.labelled
            &&& e.focus ==> ink == theme.edge_accent && (label is Some ==> label
                == Some(theme.edge_accent))
            &&& !e.focus && e.hover ==> ink == theme.hover
            &&& !e.focus && !e.hover ==> ink == theme.line
            &&& !e.focus && label is Some ==> label == Some(theme.ink_soft)
        },
{
}

/// What is selected is washed in the accent and what is only typed into or pointed at in
/// plain ink. The wash is the stronger the nearer a node is to hand, and it is stronger on
/// the dark ground. A node that is none of these has none.
pub proof fn what_is_nearer_to_hand_is_stronger(n: NodeState, theme: Theme)
    requires
        !n.selected,
        !n.focus,
        !n.hover,
    ensures
        ({
            let both = state_wash(NodeState { selected: true, focus: true, ..n }, theme);
            let picked = state_wash(NodeState { selected: true, ..n }, theme);
            let typed = state_wash(NodeState { focus: true, editing: true, ..n }, theme);
            let under = state_wash(NodeState { hover: true, ..n }, theme);
            &&& both is Some && picked is Some && typed is Some && under is Some
            &&& both->0.ink == theme.accent && picked->0.ink == theme.accent
            &&& typed->0.ink == theme.ink && under->0.ink == theme.ink
            &&& both->0.strength > picked->0.strength > typed->0.strength > under->0.strength > 0
            &&& state_wash(n, theme) is None
            &&& state_wash(NodeState { focus: true, editing: false, ..n }, theme) is None
        }),
        ({
            let m = NodeState { selected: true, ..n };
            let day = Theme { dark: false, ..theme };
            let night = Theme { dark: true, ..theme };
            &&& state_wash(m, night)->0.strength > state_wash(m, day)->0.strength
            &&& find_wash(n, night)->0.strength > find_wash(n, day)->0.strength || n.find_hit is None
        }),
        ({
            let there = find_wash(NodeState { find_hit: Some(true), ..n }, theme);
            let other = find_wash(NodeState { find_hit: Some(false), ..n }, theme);
            &&& there is Some && other is Some && there->0.strength > other->0.strength > 0
            &&& there->0.ink == theme.accent && other->0.ink == theme.accent
            &&& find_wash(NodeState { find_hit: None, ..n }, theme) is None
        }),
{
}

/// A tag colours the letters whatever else is so. Without one they are in the accent while
/// selected, faint where there is nothing to read, and in plain ink otherwise.
pub proof fn a_tag_wins_over_plain_ink(n: NodeState, theme: Theme)
    requires
        n.readable,
        n.picture == Picture::Absent,
    ensures
        node_look_of(n, theme) matches NodeLook::Label { ink, heavy, dim, fold, drop, .. } && {
            &&& n.color is Some && 1 <= n.color->0 <= 6 ==> Some(ink) == color_of(n.color)
            &&& n.color is None && n.selected ==> ink == theme.accent
            &&& n.color is None && !n.selected && n.empty ==> ink == theme.ink_faint
            &&& n.color is None && !n.selected && !n.empty ==> ink == theme.ink
            &&& heavy == n.root
            &&& dim == n.dim
            &&& fold is Some <==> n.fold is Some
            &&& fold matches Some((_, folded)) ==> Some(folded) == n.fold
            &&& drop is Some <==> n.drop_target
        },
{
}

/// What is too small to read is a mark, in the accent under the cursor. A picture is framed
/// while something points at it, and what stands in it says how far it has come.
pub proof fn a_picture_says_how_far_it_has_come(n: NodeState, theme: Theme)
    ensures
        !n.readable ==> node_look_of(n, theme) == (NodeLook::Mark {
            ink: if n.focus {
                theme.accent
            } else {
                theme.ink_faint
            },
        }),
        n.readable && n.picture != Picture::Absent ==> (node_look_of(n, theme) matches NodeLook::Framed {
            drop,
            plate,
            frame,
        } && {
            &&& plate is Shown <==> n.picture == Picture::Resident
            &&& plate is Crossed <==> n.picture == Picture::Missing
            &&& frame is None <==> !n.selected && !n.focus && !n.hover
            &&& n.selected || n.focus ==> frame == Some(theme.accent)
            &&& drop is Some <==> n.drop_target
        }),
{
}

} // verus!
