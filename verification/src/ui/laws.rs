//! What the window's decisions come to for whoever uses it.

use vstd::prelude::*;
use crate::coord::Coord;
use crate::cursor;
use crate::graph::edit_laws;
use crate::graph::model;
use crate::graph::model::GraphModel;
use crate::graph::clip::Clip;
use crate::graph::{Direction, Graph, Mode, Selection};
use crate::history::Tag;
use crate::paths;
use crate::text;
use crate::ui::context;
use crate::ui::context::{MenuCmd, MenuRowModel, Over};
use crate::ui::document;
use crate::ui::editor;
use crate::ui::editor::travel;
use crate::ui::editor::travel::Placed;
use crate::ui::editor::writing;
use crate::ui::editor::{Coloured, Deleted, EditorModel, Fold};
use crate::ui::find::{FindModel, SearchModel};
use crate::ui::frame;
use crate::ui::frame::{Hover, Watch};
use crate::ui::gesture;
use crate::ui::gesture::{BegunModel, Button, Drag, Held, Hit, Press, Rung};
use crate::ui::help;
use crate::ui::help::Section;
use crate::ui::keys;
use crate::ui::keys::laws as key_laws;
use crate::ui::keys::{Action, Chord, Key};
use crate::ui::label;
use crate::ui::label::Band;
use crate::ui::menus;
use crate::ui::menus::{Command, RowModel};
use crate::ui::pointer;

verus! {

// ---------------------------------------------------------------------------
// Find
// ---------------------------------------------------------------------------

/// What is typed goes to the end of the query, or of the replacement while the keyboard
/// points at that, and taking it back leaves the field as it was.
pub proof fn typing_into_the_field(f: FindModel, c: char)
    ensures
        !f.replacing ==> f.typed(c).query == f.query + seq![c] && f.typed(c).replace == f.replace,
        f.replacing ==> f.typed(c).replace == f.replace + seq![c] && f.typed(c).query == f.query,
        f.typed(c).untyped() == f,
        f.query.len() == 0 && !f.replacing ==> f.untyped() == f,
        f.replace.len() == 0 && f.replacing ==> f.untyped() == f,
{
    assert(f.query.push(c) =~= f.query + seq![c]);
    assert(f.replace.push(c) =~= f.replace + seq![c]);
    assert(f.query.push(c).drop_last() =~= f.query);
    assert(f.replace.push(c).drop_last() =~= f.replace);
}

/// Going on leads to the next match and from the last to the first, and going back the
/// other way round. Without matches it leads nowhere.
pub proof fn stepping_goes_round(f: FindModel)
    requires
        f.sound(),
        f.matches.len() <= usize::MAX,
    ensures
        f.matches.len() == 0 ==> f.stepped(true) == f && f.stepped(false) == f,
        f.matches.len() > 0 ==> {
            let n = f.matches.len();
            &&& f.stepped(true).at == (if f.at + 1 < n {
                f.at + 1
            } else {
                0
            })
            &&& f.stepped(false).at == (if f.at > 0 {
                f.at - 1
            } else {
                n - 1
            })
            &&& f.stepped(true).current() is Some
            &&& f.stepped(true).matches == f.matches
            &&& f.stepped(true).query == f.query
        },
{
    if f.matches.len() > 0 {
        let n = f.matches.len() as int;
        let a = f.at as int;
        assert((a + 1) % n == (if a + 1 < n {
            a + 1
        } else {
            0
        })) by (nonlinear_arith)
            requires
                0 <= a < n,
        ;
        assert((a - 1) % n == (if a > 0 {
            a - 1
        } else {
            n - 1
        })) by (nonlinear_arith)
            requires
                0 <= a < n,
        ;
    }
}

/// A search begins at the first node that is found, in the order of their ids, and holds
/// every node that is found.
pub proof fn a_search_holds_what_is_found(f: FindModel, g: GraphModel, id: u64)
    requires
        g.nodes.dom().finite(),
    ensures
        f.searched(g).matches.contains(id) <==> g.found(f.query).contains(id),
        f.searched(g).at == 0,
        f.searched(g).sound(),
        forall|i: int, j: int|
            0 <= i < j < f.searched(g).matches.len() ==> #[trigger] f.searched(g).matches[i]
                < #[trigger] f.searched(g).matches[j],
{
    let s = g.found(f.query);
    assert(s.subset_of(g.nodes.dom()));
    vstd::set_lib::lemma_set_subset_finite(g.nodes.dom(), s);
    crate::ids::lemma_has_list(s);
}

/// The field says which of how many matches it stands on, counted from one, and says so
/// where there are none. A blank query says nothing.
pub proof fn the_field_counts_its_matches(f: FindModel)
    ensures
        text::trimmed(f.query).len() == 0 ==> f.count().len() == 0,
        text::trimmed(f.query).len() > 0 && f.matches.len() == 0 ==> f.count() == "no matches"@,
        text::trimmed(f.query).len() > 0 && f.matches.len() > 0 ==> f.count()
            == text::decimal_chars(f.at as nat + 1) + " of "@ + text::decimal_chars(f.matches.len()),
{
}

// ---------------------------------------------------------------------------
// The shortcut panel
// ---------------------------------------------------------------------------

/// A search of the panel keeps exactly the rows that it finds, in order: those of which
/// the title, the key or what it does holds the query, whatever the case.
pub proof fn the_panel_keeps_what_is_found(query: Seq<char>, section: Section, n: nat, k: int)
    requires
        n <= section.rows@.len(),
    ensures
        help::kept(query, section, n).contains(k) <==> 0 <= k < n && {
            let q = text::lowered(text::trimmed(query));
            ||| q.len() == 0
            ||| text::occurs(text::lowered(section.title@), q)
            ||| text::occurs(text::lowered(section.rows@[k].0@), q)
            ||| text::occurs(text::lowered(section.rows@[k].1@), q)
        },
        forall|i: int, j: int|
            0 <= i < j < help::kept(query, section, n).len() ==> #[trigger] help::kept(
                query,
                section,
                n,
            )[i] < #[trigger] help::kept(query, section, n)[j],
        forall|i: int|
            0 <= i < help::kept(query, section, n).len() ==> 0 <= #[trigger] help::kept(
                query,
                section,
                n,
            )[i] < n,
    decreases n,
{
    if n > 0 {
        let m = (n - 1) as nat;
        the_panel_keeps_what_is_found(query, section, m, k);
        let rest = help::kept(query, section, m);
        let all = help::kept(query, section, n);
        if all.len() > rest.len() {
            assert(all == rest.push(m as int));
            if all.contains(k) {
                let i = choose|i: int| 0 <= i < all.len() && all[i] == k;
                if i < rest.len() {
                    assert(rest[i] == k);
                    assert(rest.contains(k));
                }
            }
            if rest.contains(k) {
                let i = choose|i: int| 0 <= i < rest.len() && rest[i] == k;
                assert(all[i] == k);
            }
            if k == m {
                assert(all[rest.len() as int] == k);
            }
        } else {
            assert(all == rest);
        }
    }
}

// ---------------------------------------------------------------------------
// The lines of a label
// ---------------------------------------------------------------------------

/// The lines of a label cover it: the first begins at its beginning, each begins after
/// the break that ends the one before it, the last ends at its end, and none holds a
/// break.
pub proof fn lines_cover_a_label(b: Seq<u8>)
    ensures
        ({
            let all = label::ranges(b);
            &&& all.len() >= 1
            &&& all[0].0 == 0
            &&& all.last().1 == b.len()
            &&& forall|i: int|
                0 <= i < all.len() - 1 ==> (#[trigger] all[i]).1 < b.len() && b[all[i].1] == 0x0a
                    && all[i + 1].0 == all[i].1 + 1
            &&& forall|i: int|
                0 <= i < all.len() ==> 0 <= (#[trigger] all[i]).0 <= all[i].1 <= b.len()
                    && forall|k: int| all[i].0 <= k < all[i].1 ==> #[trigger] b[k] != 0x0a
        }),
{
    lemma_ranges(b, 0);
}

proof fn lemma_ranges(b: Seq<u8>, from: int)
    requires
        0 <= from <= b.len(),
    ensures
        ({
            let all = label::ranges_from(b, from);
            &&& all.len() >= 1
            &&& all[0].0 == from
            &&& all.last().1 == b.len()
            &&& forall|i: int|
                0 <= i < all.len() - 1 ==> (#[trigger] all[i]).1 < b.len() && b[all[i].1] == 0x0a
                    && all[i + 1].0 == all[i].1 + 1
            &&& forall|i: int|
                0 <= i < all.len() ==> from <= (#[trigger] all[i]).0 <= all[i].1 <= b.len()
                    && forall|k: int| all[i].0 <= k < all[i].1 ==> #[trigger] b[k] != 0x0a
        }),
    decreases b.len() - from,
{
    edit_laws::a_line_is_between_its_breaks(b, from);
    let end = model::line_end_of(b, from);
    let all = label::ranges_from(b, from);
    if end < b.len() {
        lemma_ranges(b, end + 1);
        let rest = label::ranges_from(b, end + 1);
        assert(all == seq![(from, end)] + rest);
        assert(all.last() == rest.last());
        assert forall|i: int| 0 <= i < all.len() - 1 implies (#[trigger] all[i]).1 < b.len()
            && b[all[i].1] == 0x0a && all[i + 1].0 == all[i].1 + 1 by {
            if i > 0 {
                assert(all[i] == rest[i - 1]);
                assert(all[i + 1] == rest[i]);
            } else {
                assert(all[1] == rest[0]);
            }
        }
        assert forall|i: int| 0 <= i < all.len() implies from <= (#[trigger] all[i]).0 <= all[i].1
            <= b.len() && forall|k: int| all[i].0 <= k < all[i].1 ==> #[trigger] b[k] != 0x0a by {
            if i > 0 {
                assert(all[i] == rest[i - 1]);
            }
        }
    }
}

/// What is selected of a line is what the selection and the line share: from where the
/// later of them begins to where the earlier ends. A line that they share nothing of has
/// no band, unless the selection goes on from before it to past it. The band runs on past
/// the end of the line where the selection does.
pub proof fn a_band_is_what_is_shared(row: int, from: int, to: int, s: int, e: int)
    requires
        0 <= row <= usize::MAX,
        0 <= from <= to <= usize::MAX,
        0 <= s < e <= usize::MAX,
    ensures
        ({
            let first = if s > from {
                s
            } else {
                from
            };
            let last = if e < to {
                e
            } else {
                to
            };
            label::band_of(row, (from, to), s, e) == (if first < last || s <= from && to < e {
                Some(
                    Band {
                        row: row as usize,
                        start: from as usize,
                        from: first as usize,
                        to: last as usize,
                        tail: to < e,
                    },
                )
            } else {
                None
            })
        }),
{
}

/// The bands of some lines are those of each, in order.
pub proof fn every_line_has_its_band(lines: Seq<(int, int)>, s: int, e: int, n: nat)
    requires
        n < lines.len(),
    ensures
        label::band_of(n as int, lines[n as int], s, e) matches Some(band) ==> label::bands_of(
            lines,
            s,
            e,
            n + 1,
        ) == label::bands_of(lines, s, e, n).push(band),
        label::band_of(n as int, lines[n as int], s, e) is None ==> label::bands_of(lines, s, e, n + 1)
            == label::bands_of(lines, s, e, n),
        label::bands_of(lines, s, e, 0).len() == 0,
{
}

/// An empty label is shown as a dot, or while it is typed into as room for the caret. Any
/// other is shown as it is.
pub proof fn a_label_is_shown_as_it_is(t: Seq<char>, writing: bool)
    ensures
        t.len() > 0 ==> label::shown_as(t, writing) == t,
        t.len() == 0 ==> label::shown_as(t, writing) == (if writing {
            " "@
        } else {
            "·"@
        }),
{
}

// ---------------------------------------------------------------------------
// The window
// ---------------------------------------------------------------------------

/// The window is called after the file without its folder and its extension, with a dot
/// in front while there is something to save. Without a file it is untitled.
pub proof fn the_window_is_called_after_the_file(
    dir: Seq<char>,
    name: Seq<char>,
    ext: Seq<char>,
    unsaved: bool,
)
    requires
        name.len() > 0,
        !ext.contains('.'),
        paths::plain_name(name + seq!['.'] + ext),
    ensures
        document::title_of(Some(paths::joined(dir, name + seq!['.'] + ext)), false) == name,
        document::title_of(Some(paths::joined(dir, name + seq!['.'] + ext)), true) == "• "@ + name,
        document::title_of(None, false) == "Untitled"@,
        document::title_of(None, true) == "• "@ + "Untitled"@,
{
    let file = name + seq!['.'] + ext;
    paths::joining_puts_a_name_into_a_folder(dir, file, file);
    paths::an_extension_follows_the_last_dot(name, ext);
}

// ---------------------------------------------------------------------------
// Words that are pasted
// ---------------------------------------------------------------------------

proof fn lemma_gap_at(lead: Seq<char>, rest: Seq<char>)
    requires
        forall|i: int| 0 <= i < lead.len() ==> text::char_whitespace(#[trigger] lead[i]),
        rest.len() > 0 ==> !text::char_whitespace(rest[0]),
    ensures
        writing::gap(lead + rest) == lead.len(),
    decreases lead.len(),
{
    let s = lead + rest;
    if lead.len() == 0 {
        assert(s =~= rest);
    } else {
        assert(s[0] == lead[0]);
        assert(s.skip(1) =~= lead.skip(1) + rest);
        lemma_gap_at(lead.skip(1), rest);
    }
}

proof fn lemma_word_at(w: Seq<char>, rest: Seq<char>)
    requires
        forall|i: int| 0 <= i < w.len() ==> !text::char_whitespace(#[trigger] w[i]),
        rest.len() > 0 ==> text::char_whitespace(rest[0]),
    ensures
        writing::word(w + rest) == w.len(),
    decreases w.len(),
{
    let s = w + rest;
    if w.len() == 0 {
        assert(s =~= rest);
    } else {
        assert(s[0] == w[0]);
        assert(s.skip(1) =~= w.skip(1) + rest);
        lemma_word_at(w.skip(1), rest);
    }
}

/// What is pasted into a label is flattened: the words stay as they are and in order, and
/// whatever white space was between two of them becomes one space. White space around
/// goes.
pub proof fn pasted_words_have_one_space_between(lead: Seq<char>, w: Seq<char>, rest: Seq<char>)
    requires
        forall|i: int| 0 <= i < lead.len() ==> text::char_whitespace(#[trigger] lead[i]),
        forall|i: int| 0 <= i < w.len() ==> !text::char_whitespace(#[trigger] w[i]),
        w.len() > 0,
        rest.len() > 0 ==> text::char_whitespace(rest[0]),
    ensures
        writing::flattened(lead + w + rest) == (if writing::flattened(rest).len() == 0 {
            w
        } else {
            w + seq![' '] + writing::flattened(rest)
        }),
        writing::flattened(lead).len() == 0,
{
    let s = lead + w + rest;
    assert(s =~= lead + (w + rest));
    assert((w + rest)[0] == w[0]);
    lemma_gap_at(lead, w + rest);
    assert(s.skip(lead.len() as int) =~= w + rest);
    lemma_word_at(w, rest);
    assert((w + rest).take(w.len() as int) =~= w);
    assert((w + rest).skip(w.len() as int) =~= rest);
    let none = Seq::<char>::empty();
    lemma_gap_at(lead, none);
    assert(lead + none =~= lead);
    assert(lead.skip(lead.len() as int) =~= none);
}

// ---------------------------------------------------------------------------
// Escape
// ---------------------------------------------------------------------------

/// Escape lets go of the innermost thing that is held, and of that alone. The map and the
/// history stay unless that is the label, the selection, the edge or the node that one is
/// on.
pub proof fn escape_lets_go_of_the_innermost(e: EditorModel, held: Held)
    ensures
        ({
            let g = e.graph;
            let (after, rung) = gesture::escaped(e, held);
            &&& held.menu ==> rung == Rung::Menu && after == e
            &&& !held.menu && held.find ==> rung == Rung::Find && after == e
            &&& !held.menu && !held.find && held.help ==> rung == Rung::Help && after == e
            &&& !held.menu && !held.find && !held.help && held.drag ==> rung == Rung::Drag && after
                == e
            &&& !held.menu && !held.find && !held.help && !held.drag ==> {
                &&& g.mode == Mode::Edit ==> rung == Rung::Label && after.graph == (GraphModel {
                    mode: Mode::Browse,
                    anchor: None,
                    ..g
                })
                &&& g.mode == Mode::Browse && g.selected != Set::<u64>::empty() ==> rung
                    == Rung::Selection && after.graph == (GraphModel { selected: Set::empty(), ..g })
                &&& g.mode == Mode::Browse && g.selected == Set::<u64>::empty() && g.edge_focus is Some
                    ==> rung == Rung::Edge && after.graph.edge_focus is None && after.graph.focus
                    == g.focus
                &&& g.mode == Mode::Browse && g.selected == Set::<u64>::empty() && g.edge_focus is None
                    ==> (match g.parent_of(g.focus) {
                    Some(p) => rung == Rung::Parent && (g.has(p) ==> after.graph.focus == p),
                    None => rung == Rung::Top && after.graph.focus == g.focus,
                })
            }
            &&& after.graph.nodes == g.nodes && after.graph.edges == g.edges
            &&& after.history.past == e.history.past
        }),
{
}

// ---------------------------------------------------------------------------
// Pressing
// ---------------------------------------------------------------------------

/// The right button, or the left one with control, opens a menu and changes nothing. A
/// press beside an open menu closes it and does no more, and the middle button pans.
pub proof fn some_presses_change_nothing(e: EditorModel, p: Press)
    ensures
        ({
            let (after, begun) = gesture::pressed(e, p);
            let menu = p.button == Button::Right || p.button == Button::Left && p.control;
            &&& menu ==> begun is Menu && after == e
            &&& !menu && p.menu ==> begun is Closed && after == e
            &&& !menu && !p.menu && p.button == Button::Middle ==> begun is Pan && after == e
            &&& after.graph.nodes == e.graph.nodes && after.graph.edges == e.graph.edges
            &&& after.history.past == e.history.past
        }),
{
}

/// A plain press on a node: a press on one of several that are selected is about to move
/// all of them, and on any other it selects that one. With shift it is added to the
/// selection or taken out, and with the platform key its whole branch is added. On the
/// one node that is selected already it begins to type.
pub proof fn a_press_on_a_node(e: EditorModel, p: Press, id: u64, k: u64)
    requires
        p.button == Button::Left,
        !p.control,
        !p.menu,
        p.hit == Hit::Node(id),
        e.graph.has(id),
    ensures
        ({
            let g = e.graph;
            let (after, begun) = gesture::pressed(e, p);
            let h = after.graph;
            let alone = id == g.focus && g.edge_focus is None && g.selected == set![id]
                && g.nodes[id].image is None;
            &&& p.shift ==> begun is Picked && (k != id ==> (h.selected.contains(k)
                <==> g.selected.contains(k))) && (h.selected.contains(id) <==> !g.selected.contains(
                id,
            ))
            &&& !p.shift && p.platform ==> begun is Picked && h.focus == id && (h.selected.contains(k)
                <==> g.selected.contains(k) || g.has(k) && g.above(id, k))
            &&& !p.shift && !p.platform && alone ==> begun is Text && h.mode == Mode::Edit && h.focus
                == id
            &&& !p.shift && !p.platform && !alone && g.selected.contains(id) ==> begun
                == BegunModel::Node(id, g.selected) && h.selected == g.selected && h.mode
                == Mode::Browse
            &&& !p.shift && !p.platform && !alone && !g.selected.contains(id) ==> begun
                == BegunModel::Node(id, set![id]) && h.selected == set![id] && h.focus == id && h.mode
                == Mode::Browse
        }),
{
    let b = e.graph.browsing();
    assert(b.subtree(id).contains(k) <==> e.graph.has(k) && e.graph.above(id, k)) by {
        assert(forall|x: u64, n: nat| #[trigger] b.ancestor(x, n) == e.graph.ancestor(x, n)) by {
            assert forall|x: u64, n: nat| #[trigger] b.ancestor(x, n) == e.graph.ancestor(x, n) by {
                lemma_browsing_ancestor(e.graph, x, n);
            }
        }
        assert(b.above(id, k) == e.graph.above(id, k)) by {
            if e.graph.above(id, k) {
                let n = choose|n: nat| e.graph.ancestor(k, n) == Some(id);
                assert(b.ancestor(k, n) == Some(id));
            }
            if b.above(id, k) {
                let n = choose|n: nat| b.ancestor(k, n) == Some(id);
                assert(e.graph.ancestor(k, n) == Some(id));
            }
        }
    }
}

proof fn lemma_browsing_ancestor(g: GraphModel, x: u64, n: nat)
    ensures
        g.browsing().ancestor(x, n) == g.ancestor(x, n),
    decreases n,
{
    if n > 0 {
        lemma_browsing_ancestor(g, x, (n - 1) as nat);
        assert(forall|k: u64| #[trigger] g.browsing().parent_of(k) == g.parent_of(k));
    }
}

/// A press on the ground lets go of what is selected, unless shift is held, and begins a
/// rubber band; a second one there makes a node.
pub proof fn a_press_on_the_ground(e: EditorModel, p: Press)
    requires
        p.button == Button::Left,
        !p.control,
        !p.menu,
        p.hit == Hit::Ground,
    ensures
        ({
            let g = e.graph;
            let (after, begun) = gesture::pressed(e, p);
            let kept = if p.shift {
                g.selected
            } else {
                Set::empty()
            };
            &&& after.graph.selected == kept
            &&& after.graph.focus == g.focus
            &&& after.graph.edge_focus is None
            &&& after.graph.mode == Mode::Browse
            &&& p.clicks >= 2 ==> begun is NewNode
            &&& p.clicks < 2 ==> begun == BegunModel::Marquee(kept, g.focus)
        }),
{
}

/// A rubber band selects exactly what it covers, as far as it is there. Where that is
/// nothing the cursor stays where it was.
pub proof fn a_band_selects_what_it_covers(g: GraphModel, picked: Set<u64>, focus: u64, k: u64)
    requires
        picked.finite(),
        g.has(focus),
    ensures
        ({
            let h = gesture::banded(g, picked, focus);
            &&& h.selected.contains(k) <==> picked.contains(k) && g.has(k)
            &&& (forall|x: u64| #[trigger] picked.contains(x) ==> !g.has(x)) ==> h.focus == focus
            &&& h.nodes == g.nodes && h.edges == g.edges
        }),
{
    let s = picked.intersect(g.nodes.dom());
    if forall|x: u64| #[trigger] picked.contains(x) ==> !g.has(x) {
        assert(s =~= Set::<u64>::empty());
    }
}

// ---------------------------------------------------------------------------
// Verbs
// ---------------------------------------------------------------------------

/// Deleting on an edge cuts the link that it draws and keeps the node, which is then
/// selected. With nothing selected, or only the root, it does nothing at all.
pub proof fn deleting_cuts_or_removes(e: EditorModel, edge: u64)
    requires
        e.graph.nodes.dom().finite(),
    ensures
        e.graph.edge_focus == Some(edge) && e.graph.edges.dom().contains(edge)
            && e.graph.parent_of(e.graph.edges[edge].to) is Some ==> {
            let child = e.graph.edges[edge].to;
            let (after, what) = editor::deleted(e);
            &&& what == Deleted::Cut
            &&& after.graph.nodes.dom() == e.graph.nodes.dom()
            &&& after.graph.nodes[child].parent is None
            &&& after.graph.focus == child
            &&& after.graph.selected == set![child]
            &&& !after.graph.edges.dom().contains(edge)
        },
        e.graph.edge_focus is None && e.graph.selected == Set::<u64>::empty() ==> editor::deleted(e)
            == (e, Deleted::Nothing),
        e.graph.edge_focus is None && e.graph.selected == set![e.graph.root] ==> editor::deleted(e)
            == (e, Deleted::RootStays),
{
    let g = e.graph;
    if g.edge_focus == Some(edge) && g.edges.dom().contains(edge) && g.parent_of(
        g.edges[edge].to,
    ) is Some {
        let child = g.edges[edge].to;
        let h = g.unlinked(child).hung(child, None);
        assert(h.nodes.dom() =~= g.nodes.dom());
        assert(!h.edges.dom().contains(edge));
        assert(h.edge_left().has(child));
    }
    if g.selected == set![g.root] {
        assert(g.selected.contains(g.root));
        assert(g.selected != Set::<u64>::empty());
    }
}

/// Giving a colour is one step where it changes anything, and none where it does not.
pub proof fn a_colour_is_a_step_only_where_it_shows(e: EditorModel, color: Option<u8>, id: u64)
    requires
        e.graph.selected.contains(id),
        e.graph.has(id),
    ensures
        ({
            let (after, what) = editor::painted(e, color);
            &&& e.graph.nodes[id].color != color ==> what == Coloured::Changed
                && after.graph.nodes[id].color == color && after.history == e.history.recorded(
                e.graph,
                crate::history::Tag::Structure,
            )
            &&& (forall|k: u64|
                e.graph.selected.contains(k) && #[trigger] e.graph.has(k) ==> e.graph.nodes[k].color
                    == color) ==> what == Coloured::Same && after == e
        }),
{
    let g = e.graph;
    assert(g.selected != Set::<u64>::empty());
    assert(g.grasped() == g);
}

// ---------------------------------------------------------------------------
// The context menu
// ---------------------------------------------------------------------------

/// A menu over a node that is not selected selects it alone, and over one that is keeps
/// the selection. Over the ground it lets go of everything, and over an edge it looks at
/// that.
pub proof fn a_menu_is_about_what_it_is_over(g: GraphModel, id: u64)
    ensures
        g.selected.contains(id) ==> context::opened(g, Over::Node(id)).0 == g,
        !g.selected.contains(id) && g.has(id) ==> {
            let h = context::opened(g, Over::Node(id)).0;
            h.selected == set![id] && h.focus == id && h.mode == Mode::Browse && h.nodes == g.nodes
        },
        g.edges.dom().contains(id) ==> context::opened(g, Over::Edge(id)).0.edge_focus == Some(id),
        context::opened(g, Over::Ground).0.selected == Set::<u64>::empty(),
        context::opened(g, Over::Ground).0.nodes == g.nodes,
{
}

/// A menu over one node offers to fold it if something hangs under it, and to unfold it if
/// it is folded; over several it offers what can be done to all of them.
pub proof fn a_menu_offers_what_can_be_done(many: bool, fold: Option<bool>, k: int)
    ensures
        ({
            let rows = context::node_rows(many, fold);
            let folds = MenuRowModel::Item("Fold branch"@, "⌘."@, MenuCmd::Fold);
            let unfolds = MenuRowModel::Item("Unfold"@, "⌘."@, MenuCmd::Fold);
            let edits = MenuRowModel::Item("edit label"@, "↩"@, MenuCmd::EditLabel);
            &&& !many && fold == Some(false) ==> rows.contains(folds)
            &&& !many && fold == Some(true) ==> rows.contains(unfolds)
            &&& !many ==> rows.contains(edits) && rows.contains(
                MenuRowModel::Item("Delete"@, "⌫"@, MenuCmd::Delete),
            )
            &&& many ==> rows.contains(
                MenuRowModel::Item("Delete selection"@, "⌫"@, MenuCmd::Delete),
            )
            &&& many || fold is None ==> (0 <= k < rows.len() ==> !(rows[k] matches MenuRowModel::Item(
                _,
                _,
                MenuCmd::Fold,
            )))
            &&& rows.contains(MenuRowModel::Item("new child"@, "⇥"@, MenuCmd::NewChild))
            &&& rows.contains(MenuRowModel::Item("copy"@, "⌘C"@, MenuCmd::Copy))
        }),
{
    let rows = context::node_rows(many, fold);
    let n = rows.len() as int;
    assert(rows[0] == MenuRowModel::Item("new child"@, "⇥"@, MenuCmd::NewChild));
    assert(rows[n - 4] == MenuRowModel::Item("copy"@, "⌘C"@, MenuCmd::Copy));
    if many {
        assert(n == 8);
        assert(rows[7] == MenuRowModel::Item("Delete selection"@, "⌫"@, MenuCmd::Delete));
        if 0 <= k < n {
            assert(k == 0 || k == 1 || k == 2 || k == 3 || k == 4 || k == 5 || k == 6 || k == 7);
        }
    } else {
        assert(rows[3] == MenuRowModel::Item("edit label"@, "↩"@, MenuCmd::EditLabel));
        assert(rows[n - 1] == MenuRowModel::Item("Delete"@, "⌫"@, MenuCmd::Delete));
        if fold == Some(false) {
            assert(rows[5] == MenuRowModel::Item("Fold branch"@, "⌘."@, MenuCmd::Fold));
        } else if fold == Some(true) {
            assert(rows[5] == MenuRowModel::Item("Unfold"@, "⌘."@, MenuCmd::Fold));
        } else {
            assert(n == 11);
            if 0 <= k < n {
                assert(k == 0 || k == 1 || k == 2 || k == 3 || k == 4 || k == 5 || k == 6 || k == 7
                    || k == 8 || k == 9 || k == 10);
            }
        }
    }
}

/// A menu is as tall as its rows together and its edge.
pub proof fn a_menu_is_as_tall_as_its_rows(rows: Seq<MenuRowModel>, r: MenuRowModel)
    ensures
        context::height(rows.push(r)) == context::height(rows) + (if r is Rule {
            context::RULE_HEIGHT
        } else {
            context::ROW_HEIGHT
        }),
        context::height(seq![]) == context::EDGE_HEIGHT,
{
    assert(rows.push(r).drop_last() =~= rows);
}

/// A row of the menu does what the key of that verb does.
pub proof fn a_row_does_what_its_key_does(c: Chord)
    requires
        key_laws::only(c, true, false, false),
    ensures
        c.key == Key::Char('c') ==> keys::browse_meaning(c) == context::action(MenuCmd::Copy),
        c.key == Key::Char('x') ==> keys::browse_meaning(c) == context::action(MenuCmd::Cut),
        c.key == Key::Char('v') ==> keys::browse_meaning(c) == context::action(MenuCmd::Paste),
        c.key == Key::Char('a') ==> keys::browse_meaning(c) == context::action(MenuCmd::SelectAll),
        context::action(MenuCmd::NewChild) == Some(Action::CreateChild),
        context::action(MenuCmd::NewSibling) == Some(Action::CreateSibling),
        context::action(MenuCmd::Delete) == Some(Action::DeleteNode),
        context::action(MenuCmd::Fold) == Some(Action::ToggleFold),
        context::action(MenuCmd::Duplicate) == Some(Action::DuplicateNodes),
        context::action(MenuCmd::Tidy) == Some(Action::TidyLayout),
        context::action(MenuCmd::Fit) == Some(Action::ZoomFit),
{
}

/// The menu of recent files has one row for each, in order, which opens that one, and
/// then one that clears the list.
pub proof fn a_recent_row_opens_its_file(labels: Seq<Seq<char>>, i: int)
    requires
        0 <= i < labels.len() <= usize::MAX,
    ensures
        menus::recent_menu(labels).len() == labels.len() + 2,
        menus::recent_menu(labels)[i] == RowModel::Item(labels[i], Command::OpenRecent(i as usize)),
        menus::recent_menu(labels).last() == RowModel::Item(
            "Clear Menu"@,
            Command::Do(Action::ClearRecents),
        ),
{
}

// ---------------------------------------------------------------------------
// What is drawn
// ---------------------------------------------------------------------------

/// A node that is folded shows how many nodes it hides, one that is not shows that it can
/// be folded, and one that nothing hangs under shows neither. While something is looked
/// for, what is not found is dimmed, and of what is found the current one is told apart.
pub proof fn a_node_shows_its_state(
    g: GraphModel,
    id: u64,
    watch: Watch,
    find: Option<FindModel>,
    c: u64,
)
    requires
        g.has(id),
        g.nodes.dom().finite(),
        g.nodes.dom().len() <= usize::MAX,
    ensures
        ({
            let p = frame::node_plan(g, id, watch, find);
            &&& p.id == id
            &&& p.selected <==> g.selected.contains(id)
            &&& p.focus <==> g.focus == id && g.edge_focus is None
            &&& p.writing <==> g.focus == id && g.edge_focus is None && g.mode == Mode::Edit
            &&& p.root <==> id == g.root
            &&& p.color == g.nodes[id].color
            &&& g.has(c) && g.nodes[c].parent == Some(id) ==> p.fold is Some && (p.fold->0 is Some
                <==> g.nodes[id].collapsed) && (g.nodes[id].collapsed ==> p.fold->0->0
                == g.subtree(id).len() - 1)
            &&& (forall|k: u64| #[trigger] g.has(k) ==> g.nodes[k].parent != Some(id)) ==> p.fold is None
            &&& find is None ==> !p.dim && p.find_hit is None
            &&& find matches Some(f) ==> {
                &&& f.query.len() == 0 ==> !p.dim && p.find_hit is None
                &&& f.query.len() > 0 ==> {
                    &&& p.dim <==> !f.matches.contains(id)
                    &&& f.matches.contains(id) ==> p.find_hit == Some(f.current() == Some(id))
                    &&& !f.matches.contains(id) ==> p.find_hit is None
                }
            }
        }),
{
    if g.has(c) && g.nodes[c].parent == Some(id) {
        assert(g.children(id).contains(c));
    }
    let s = g.subtree(id);
    assert(s.subset_of(g.nodes.dom()));
    vstd::set_lib::lemma_len_subset(s, g.nodes.dom());
    assert(g.ancestor(id, 0) == Some(id));
    assert(g.above(id, id));
    assert(s.contains(id));
    vstd::set_lib::lemma_set_subset_finite(g.nodes.dom(), s);
    assert(s.len() > 0) by {
        if s.len() == 0 {
            assert(s =~= Set::<u64>::empty());
        }
    }
    if forall|k: u64| #[trigger] g.has(k) ==> g.nodes[k].parent != Some(id) {
        assert forall|k: u64| !g.children(id).contains(k) by {
            if g.children(id).contains(k) {
                assert(g.has(k));
            }
        }
    }
}

/// An edge is drawn if both its ends are there, no fold hides either, and one of them is
/// on the screen.
pub proof fn an_edge_is_drawn_while_an_end_is_in_sight(g: GraphModel, sight: Set<u64>, e: u64)
    requires
        g.edges.dom().contains(e),
    ensures
        ({
            let (a, b) = (g.edges[e].from, g.edges[e].to);
            frame::drawn_edges(g, sight).contains(e) <==> g.has(a) && g.has(b) && !g.hidden().contains(
                a,
            ) && !g.hidden().contains(b) && (sight.contains(a) || sight.contains(b))
        }),
{
}

/// Every picture that is placed becomes a floating node of its own, at its place and with
/// its name and size, and nothing that was there changes.
pub proof fn a_picture_becomes_a_node(g: GraphModel, list: Seq<Placed>, p: Placed, k: u64)
    requires
        travel::pictured(g, list).1.len() == list.len(),
        ({
            let h = travel::pictured(g, list).0;
            h.free(h.next_id)
        }),
    ensures
        ({
            let (h, made) = travel::pictured(g, list);
            let (after, all) = travel::pictured(g, list.push(p));
            let id = h.next_id;
            &&& all == made.push(id)
            &&& !h.has(id)
            &&& after.nodes[id].image matches Some(i) && i.name == p.name@ && i.w == p.w && i.h == p.h
            &&& (after.nodes[id].x, after.nodes[id].y) == (p.x, p.y)
            &&& after.nodes[id].parent is None
            &&& h.has(k) ==> after.has(k) && after.nodes[k] == h.nodes[k]
            &&& after.edges == h.edges
            &&& after.mode == Mode::Browse
        }),
{
    assert(list.push(p).drop_last() =~= list);
    assert(list.push(p).last() == p);
}

/// Folding a branch says how many nodes it hides, and unfolding it says so. What nothing
/// hangs under is not folded.
pub proof fn folding_says_how_much_it_hides(g: GraphModel, id: u64, c: u64)
    requires
        g.has(id),
        g.nodes.dom().finite(),
        g.nodes.dom().len() <= usize::MAX,
    ensures
        g.has(c) && g.nodes[c].parent == Some(id) ==> {
            &&& editor::refolded(g, id).nodes[id].collapsed == !g.nodes[id].collapsed
            &&& !g.nodes[id].collapsed ==> editor::fold_outcome(g, id) is Folded
            &&& g.nodes[id].collapsed ==> editor::fold_outcome(g, id) is Unfolded
        },
        (forall|k: u64| #[trigger] g.has(k) ==> g.nodes[k].parent != Some(id)) ==> editor::refolded(
            g,
            id,
        ) == g,
{
    if g.has(c) && g.nodes[c].parent == Some(id) {
        assert(g.children(id).contains(c));
    }
    if forall|k: u64| #[trigger] g.has(k) ==> g.nodes[k].parent != Some(id) {
        assert forall|k: u64| !g.children(id).contains(k) by {
            if g.children(id).contains(k) {
                assert(g.has(k));
            }
        }
    }
}

/// A verb that needs something selected takes the node that the cursor is on where nothing
/// is, and otherwise what is selected.
pub proof fn a_verb_takes_the_cursor_where_nothing_is_selected(g: GraphModel)
    requires
        g.has(g.focus),
        g.edge_focus is None,
    ensures
        g.selected == Set::<u64>::empty() ==> g.grasped().selected == set![g.focus],
        g.selected != Set::<u64>::empty() ==> g.grasped() == g,
        g.grasped().nodes == g.nodes,
{
}

/// Cutting branches loose leaves each of them hanging nowhere, and counts those that hung
/// somewhere. Nothing else is cut.
pub proof fn loosened_branches_hang_nowhere(g: GraphModel, roots: Seq<u64>, k: u64)
    requires
        g.has(k),
    ensures
        ({
            let (h, n) = gesture::loosened(g, roots);
            &&& h.has(k)
            &&& roots.contains(k) ==> h.nodes[k].parent is None
            &&& !roots.contains(k) ==> h.nodes[k] == g.nodes[k]
            &&& h.nodes[k].text == g.nodes[k].text
            &&& n <= roots.len()
        }),
    decreases roots.len(),
{
    if roots.len() > 0 {
        let less = roots.drop_last();
        loosened_branches_hang_nowhere(g, less, k);
        assert(roots.last() == roots[roots.len() - 1]);
        if roots.contains(k) {
            let i = choose|i: int| 0 <= i < roots.len() && roots[i] == k;
            if i < less.len() {
                assert(less[i] == k);
            }
        }
        if less.contains(k) {
            let i = choose|i: int| 0 <= i < less.len() && less[i] == k;
            assert(roots[i] == k);
        }
    }
}

/// A picture shows its grip while it is pointed at, selected or under the cursor, and only
/// a picture has one. Only a label that something hangs under has a control to fold it.
pub proof fn pictures_have_grips_and_branches_have_bubbles(
    g: GraphModel,
    hover: Option<Hover>,
    id: u64,
    c: u64,
)
    requires
        g.has(id),
    ensures
        g.nodes[id].image is None ==> !pointer::has_grip(g, hover, id),
        g.nodes[id].image is Some ==> !pointer::has_bubble(g, id),
        g.nodes[id].image is Some && g.selected.contains(id) ==> pointer::has_grip(g, hover, id),
        g.nodes[id].image is Some && hover == Some(Hover::Node(id)) ==> pointer::has_grip(
            g,
            hover,
            id,
        ),
        g.nodes[id].image is Some && !g.selected.contains(id) && hover != Some(Hover::Node(id))
            && g.focus != id ==> !pointer::has_grip(g, hover, id),
        g.nodes[id].image is None && g.has(c) && g.nodes[c].parent == Some(id)
            ==> pointer::has_bubble(g, id),
        (forall|k: u64| #[trigger] g.has(k) ==> g.nodes[k].parent != Some(id))
            ==> !pointer::has_bubble(g, id),
{
    if g.has(c) && g.nodes[c].parent == Some(id) {
        assert(g.children(id).contains(c));
    }
    if pointer::has_bubble(g, id) {
        let k = choose|k: u64| #[trigger] g.children(id).contains(k);
        assert(g.has(k));
    }
}

/// Branches that are let go of on a node hang under it, each as its turn comes and as far
/// as it may; the others stay where they are. No text changes, nothing comes or goes, and
/// no more are counted than there are.
pub proof fn branches_are_hung_where_they_are_let_go<
    L: Fn(&Graph, u64) -> (Coord, Coord),
    C: Fn(Coord, Coord, Coord) -> Coord,
>(run: Seq<GraphModel>, roots: Seq<u64>, target: u64, land: &L, carry: &C, i: int, k: u64)
    requires
        gesture::rehung(run, roots, target, land, carry),
        0 <= i < roots.len(),
        run[i].has(k),
    ensures
        run[i + 1].has(k),
        run[i + 1].nodes[k].text == run[i].nodes[k].text,
        k == roots[i] && run[i].may_hang(k, target) ==> run[i + 1].nodes[k].parent == Some(target),
        k != roots[i] || !run[i].may_hang(k, target) ==> run[i + 1].nodes[k].parent
            == run[i].nodes[k].parent,
        gesture::hung_count(run, roots, target, (i + 1) as nat) == gesture::hung_count(
            run,
            roots,
            target,
            i as nat,
        ) + (if run[i].may_hang(roots[i], target) {
            1int
        } else {
            0
        }),
{
    let (before, after, id) = (run[i], run[i + 1], roots[i]);
    assert(gesture::hung_step(before, after, id, target, land, carry));
    if before.may_hang(id, target) {
        let hung = choose|hung: Graph|
            hung@ == before.reparented(id, target) && #[trigger] gesture::lands(
                &hung,
                after,
                id,
                land,
                carry,
            );
        assert(hung@.has(k));
        assert(hung@.nodes[k].text == before.nodes[k].text);
        assert(after.has(k) && after.nodes[k].text == hung@.nodes[k].text && after.nodes[k].parent
            == hung@.nodes[k].parent);
    }
}

/// Selecting a word selects the word at the caret, and selecting all selects the label that
/// is typed into from end to end. Neither changes it.
pub proof fn picking_text_changes_none(g: GraphModel)
    requires
        g.active_bytes().len() <= usize::MAX,
    ensures
        g.active_bytes().len() > 0 ==> gesture::all_picked(g).anchor == Some(0usize)
            && gesture::all_picked(g).caret == g.active_bytes().len(),
        g.active_bytes().len() == 0 ==> gesture::all_picked(g) == g,
        gesture::all_picked(g).nodes == g.nodes,
        gesture::word_picked(g).nodes == g.nodes,
        gesture::word_picked(g).edges == g.edges,
        ({
            let (a, b) = cursor::word_range(g.active_text(), g.caret as int);
            0 <= a < b <= usize::MAX ==> gesture::word_picked(g).anchor == Some(a as usize)
                && gesture::word_picked(g).caret == b
        }),
{
}

/// An edge is drawn as it is joined: from what it hangs under to what hangs, in focus while
/// the cursor is on it and as about to be cut while what hangs on it is pulled off.
pub proof fn an_edge_shows_its_state(g: GraphModel, e: u64, watch: Watch, depth: usize)
    ensures
        ({
            let p = frame::edge_plan(g, e, watch, depth);
            &&& p.id == e && p.from == g.edges[e].from && p.to == g.edges[e].to
            &&& p.focus <==> g.edge_focus == Some(e)
            &&& p.hover <==> watch.hover == Some(Hover::Edge(e))
            &&& p.severing <==> watch.severing == Some(g.edges[e].to)
            &&& p.writing <==> g.edge_focus == Some(e) && g.mode == Mode::Edit
        }),
{
}

/// A node that is folded says how many nodes it hides: all that hang under it, however far
/// down, and not itself.
pub proof fn a_fold_counts_what_it_hides(g: GraphModel, id: u64, n: usize)
    requires
        g.has(id),
        editor::fold_outcome(g, id) == Fold::Folded(n),
        editor::refolded(g, id).subtree(id).finite(),
        editor::refolded(g, id).subtree(id).contains(id),
        editor::refolded(g, id).subtree(id).len() <= usize::MAX,
    ensures
        n == editor::refolded(g, id).subtree(id).remove(id).len(),
{
}

/// A node beside another hangs under the same parent and goes below; beside one that hangs
/// nowhere it hangs under that one and goes to the right. It has no text yet.
pub proof fn a_node_beside_is_a_sibling<P: Fn(&Graph, u64, Direction) -> (Coord, Coord)>(
    place: &P,
    from: &Graph,
    id: u64,
    after: GraphModel,
)
    requires
        editor::beside(place, from, Some(id), after),
    ensures
        !from@.has(id),
        after.has(id),
        after.nodes[id].text.len() == 0,
        after.focus == id,
        from@.parent_of(from@.focus) matches Some(p) ==> after.nodes[id].parent == Some(p)
            && place.ensures((from, p, Direction::Down), (after.nodes[id].x, after.nodes[id].y)),
        from@.parent_of(from@.focus) is None ==> after.nodes[id].parent == Some(from@.focus)
            && place.ensures(
            (from, from@.focus, Direction::Right),
            (after.nodes[id].x, after.nodes[id].y),
        ),
{
    reveal_strlit("");
}

/// Typing into one label is one step, and typing into another is another.
pub proof fn every_label_is_a_step_of_its_own(g: GraphModel, h: GraphModel)
    ensures
        g.text_tag() == h.text_tag() <==> g.selection() == h.selection(),
        g.edge_focus matches Some(e) ==> g.edges.dom().contains(e) ==> g.text_tag() == Tag::EdgeText(e),
        g.edge_focus is None ==> g.text_tag() == Tag::Text(g.focus),
{
}

/// A clip holds every node that it is of, each with its distance from the corner.
pub proof fn a_clip_is_measured_from_its_corner<F: Fn(Coord, Coord) -> Coord>(
    g: GraphModel,
    picked: Seq<u64>,
    c: Clip,
    offset: &F,
    i: int,
)
    requires
        editor::clip_of(g, picked, c, offset),
        0 <= i < g.gathered(picked).len(),
    ensures
        c@.len() == g.gathered(picked).len(),
        ({
            let taken = g.gathered(picked);
            let n = g.nodes[taken[i]];
            &&& c@[i].text == n.text
            &&& c@[i].collapsed == n.collapsed && c@[i].color == n.color && c@[i].image == n.image
            &&& offset.ensures((n.x, g.leftmost(taken)), c@[i].dx)
            &&& offset.ensures((n.y, g.topmost(taken)), c@[i].dy)
        }),
{
    let n = c@[i];
}

/// The text clipboard takes the part of a label that is selected, and all of it where none
/// is. Emptying a label leaves nothing in it and nothing else changed.
pub proof fn the_text_clipboard_takes_what_is_selected(g: GraphModel, a: int, b: int)
    requires
        g.selected_range() == Some((a, b)),
        text::boundary(g.active_bytes(), a),
        text::boundary(g.active_bytes(), b),
    ensures
        g.part_selected() == Some(g.active_bytes().subrange(a, b)),
        (GraphModel { anchor: None, ..g }).part_selected() is None,
        g.edge_focus is None && g.has(g.focus) ==> writing::emptied(g).nodes[g.focus].text.len() == 0
            && writing::emptied(g).caret == 0,
        forall|k: u64| #[trigger]
            g.has(k) && Selection::Node(k) != g.selection() ==> writing::emptied(g).nodes[k]
                == g.nodes[k],
{
    assert(vstd::utf8::encode_utf8(Seq::<char>::empty()) =~= Seq::<u8>::empty());
}

/// Giving up the resizing of a picture gives it back the size that it had, and the step that
/// was noted for it is taken back. Nothing else of the map changes.
pub proof fn a_picture_gets_its_size_back(
    e: EditorModel,
    id: u64,
    w: Coord,
    h: Coord,
    depth: usize,
    k: u64,
)
    requires
        e.graph.has(id),
        e.graph.nodes[id].image is Some,
    ensures
        ({
            let after = gesture::given_up(e, Drag::Resize { id, w, h, moved: true, depth });
            let image = after.graph.nodes[id].image;
            &&& image is Some && image->0.w == w && image->0.h == h
            &&& image->0.name == e.graph.nodes[id].image->0.name
            &&& k != id ==> after.graph.nodes[k] == e.graph.nodes[k]
            &&& after.graph.edges == e.graph.edges
            &&& after.history.last is None
            &&& depth > 0 && e.history.past.len() == depth ==> after.history.past
                == e.history.past.drop_last()
            &&& e.history.past.len() != depth ==> after.history.past == e.history.past
            &&& after.history.future == e.history.future
        }),
        gesture::given_up(e, Drag::Resize { id, w, h, moved: false, depth }) == e,
        gesture::given_up(e, Drag::Other) == e,
{
}

/// Giving up a band leaves selected what was selected before it, as far as that is there, and
/// the cursor where it was.
pub proof fn a_band_is_given_up(e: EditorModel, base: Vec<u64>, focus: u64)
    requires
        e.graph.has(focus),
    ensures
        ({
            let after = gesture::given_up(e, Drag::Marquee { base, focus });
            &&& after.graph.focus == focus
            &&& forall|k: u64| #[trigger]
                after.graph.selected.contains(k) <==> base@.contains(k) && e.graph.has(k)
            &&& after.graph.nodes == e.graph.nodes
            &&& after.history == e.history
        }),
{
}

/// Pictures that are placed together are one step, which undo takes back whole. The cursor
/// is on the first of them.
pub proof fn pictures_are_placed_in_one_step(e: EditorModel, list: Seq<Placed>)
    requires
        list.len() > 0,
        travel::pictured(e.graph, list).1.len() > 0,
        ({
            let (g, made) = travel::pictured(e.graph, list);
            g.has(made[0])
        }),
    ensures
        ({
            let after = travel::placed(e, list);
            &&& after.graph.focus == travel::pictured(e.graph, list).1[0]
            &&& after.graph.nodes == travel::pictured(e.graph, list).0.nodes
            &&& after.history.past == e.history.recorded(e.graph, Tag::Structure).past
            &&& after.history.last is None
        }),
        travel::placed(e, seq![]) == e,
{
}

/// The find field comes back with the query that it was closed with, standing on the first
/// of its matches and with nothing to replace them by.
pub proof fn the_field_comes_back_with_its_query(s: SearchModel, f: FindModel, g: GraphModel)
    requires
        s.field == Some(f),
    ensures
        s.closed().field is None,
        s.closed().last_query == f.query,
        s.closed().opened(g).field matches Some(again) && again.query == f.query && again.at == 0
            && again.replace.len() == 0 && !again.replacing,
        s.opened(g).field matches Some(still) && still.query == f.query,
{
}

/// Deleting the selection says how many nodes went: all that were selected and all under
/// them, but for the root. None of them is left.
pub proof fn deleting_counts_what_goes(e: EditorModel, k: u64)
    requires
        e.graph.nodes.dom().finite(),
        e.graph.edge_focus is None,
        e.graph.selected.contains(k),
        k != e.graph.root,
        e.graph.doomed(e.graph.selected).len() <= usize::MAX,
    ensures
        editor::deleted(e).1 == Deleted::Gone(
            e.graph.doomed(e.graph.selected).len() as usize,
        ),
        editor::deleted(e).0.history == e.history.recorded(e.graph, Tag::Structure),
        editor::deleted(e).0.graph.selected == Set::<u64>::empty(),
{
    let g = e.graph;
    assert(g.selected != Set::<u64>::empty());
}

} // verus!
