//! What editing does to a text, said of the text itself: what is before the caret, what
//! is selected, and what is after.

use vstd::prelude::*;
use vstd::utf8::*;
use crate::ascii;
use crate::cursor;
use crate::graph::model;
use crate::graph::model::{EdgeModel, GraphModel, NodeModel};
use crate::graph::Selection;
use crate::text;

verus! {

/// The caret stands between `a` and `b` of the active text, with nothing selected.
pub open spec fn between(g: GraphModel, a: Seq<char>, b: Seq<char>) -> bool {
    &&& g.live()
    &&& g.active_text() == a + b
    &&& encode_utf8(a + b).len() <= usize::MAX
    &&& g.caret == encode_utf8(a).len()
    &&& g.anchor is None
}

/// `mid` is selected between `a` and `b`, with the caret at either end of it.
pub open spec fn selecting(g: GraphModel, a: Seq<char>, mid: Seq<char>, b: Seq<char>) -> bool {
    let from = encode_utf8(a).len();
    let to = encode_utf8(a + mid).len();
    &&& g.live()
    &&& g.active_text() == a + mid + b
    &&& encode_utf8(a + mid + b).len() <= usize::MAX
    &&& mid.len() > 0
    &&& g.anchor is Some
    &&& g.caret == from && g.anchor->0 == to || g.caret == to && g.anchor->0 == from
}

/// `h` is `g` with another active text: nothing else of any node or edge has changed.
pub open spec fn retyped(g: GraphModel, h: GraphModel, t: Seq<char>) -> bool {
    &&& h.active_text() == t
    &&& h.selection() == g.selection()
    &&& h.nodes.dom() == g.nodes.dom()
    &&& h.edges.dom() == g.edges.dom()
    &&& forall|id: u64| #[trigger]
        g.nodes.dom().contains(id) ==> h.nodes[id] == (if g.selection() == Selection::Node(id) {
            NodeModel { text: t, ..g.nodes[id] }
        } else {
            g.nodes[id]
        })
    &&& forall|e: u64| #[trigger]
        g.edges.dom().contains(e) ==> h.edges[e] == (if g.selection() == Selection::Edge(e) {
            EdgeModel { label: t, ..g.edges[e] }
        } else {
            g.edges[e]
        })
    &&& h.mode == g.mode && h.selected == g.selected && h.focus == g.focus
}

proof fn lemma_retyped(g: GraphModel, t: Seq<char>, caret: usize, anchor: Option<usize>)
    requires
        g.live(),
    ensures
        retyped(g, GraphModel { caret, anchor, ..g.with_active_text(t) }, t),
{
    let h = GraphModel { caret, anchor, ..g.with_active_text(t) };
    assert(h.nodes.dom() =~= g.nodes.dom());
    assert(h.edges.dom() =~= g.edges.dom());
}

/// Where a text is cut.
proof fn lemma_cut(a: Seq<char>, b: Seq<char>)
    ensures
        cursor::head(a + b, encode_utf8(a).len() as int) == a,
        cursor::tail(a + b, encode_utf8(a).len() as int) == b,
        encode_utf8(a + b).len() == encode_utf8(a).len() + encode_utf8(b).len(),
        text::boundary(encode_utf8(a + b), encode_utf8(a).len() as int),
{
    text::lemma_encode_concat(a, b);
    encode_utf8_decode_utf8(a);
    encode_utf8_decode_utf8(b);
    encode_utf8_valid_utf8(b);
    text::lemma_join_boundary(encode_utf8(a), encode_utf8(b));
    let all = encode_utf8(a) + encode_utf8(b);
    let n = encode_utf8(a).len() as int;
    assert(all.subrange(0, n) =~= encode_utf8(a));
    assert(all.subrange(n, all.len() as int) =~= encode_utf8(b));
}

/// What is typed or pasted stands where the caret was, which is after it then, and
/// everything else stays.
pub proof fn typing_goes_where_the_caret_is(
    g: GraphModel,
    a: Seq<char>,
    b: Seq<char>,
    with: Seq<char>,
)
    requires
        between(g, a, b),
        encode_utf8(a + with).len() <= usize::MAX,
    ensures
        retyped(g, g.inserted(with), a + with + b),
        g.inserted(with).caret == encode_utf8(a + with).len(),
        g.inserted(with).anchor is None,
{
    lemma_cut(a, b);
    text::lemma_encode_concat(a, with);
    let c = g.clamped();
    assert(c.caret == g.caret);
    assert(c.selection_deleted() == c);
    assert(c.active_text() == g.active_text());
    let t = a + with + b;
    assert(model::splice(a + b, g.caret as int, g.caret as int, with) == t);
    lemma_retyped(g, t, (g.caret + encode_utf8(with).len()) as usize, g.anchor);
    assert(g.inserted(with) == (GraphModel {
        caret: (g.caret + encode_utf8(with).len()) as usize,
        anchor: g.anchor,
        ..g.with_active_text(t)
    }));
}

proof fn lemma_selecting(g: GraphModel, a: Seq<char>, mid: Seq<char>, b: Seq<char>)
    requires
        selecting(g, a, mid, b),
    ensures
        g.clamped() == g,
        g.selected_range() == Some(
            (encode_utf8(a).len() as int, encode_utf8(a + mid).len() as int),
        ),
        encode_utf8(a).len() < encode_utf8(a + mid).len(),
        cursor::head(g.active_text(), encode_utf8(a).len() as int) == a,
        cursor::tail(g.active_text(), encode_utf8(a + mid).len() as int) == b,
{
    lemma_cut(a, mid + b);
    lemma_cut(a + mid, b);
    lemma_cut(a, mid);
    assert(a + (mid + b) =~= a + mid + b);
    text::lemma_char_count(mid);
}

/// A selection that is deleted leaves what was around it, with the caret in between.
pub proof fn a_deleted_selection_leaves_what_is_around(
    g: GraphModel,
    a: Seq<char>,
    mid: Seq<char>,
    b: Seq<char>,
)
    requires
        selecting(g, a, mid, b),
    ensures
        retyped(g, g.selection_deleted(), a + b),
        between(g.selection_deleted(), a, b),
        g.backspaced() == g.selection_deleted(),
        g.deleted_forward() == g.selection_deleted(),
        g.word_deleted_left() == g.selection_deleted(),
{
    lemma_selecting(g, a, mid, b);
    lemma_cut(a, b);
    lemma_cut(a, mid);
    lemma_cut(a + mid, b);
    let t = a + b;
    assert(a + Seq::<char>::empty() + b =~= t);
    lemma_retyped(g, t, encode_utf8(a).len() as usize, None);
    let h = g.selection_deleted();
    assert(h == (GraphModel {
        caret: encode_utf8(a).len() as usize,
        anchor: None,
        ..g.with_active_text(t)
    }));
}

/// What is typed over a selection stands in its place.
pub proof fn typing_replaces_the_selection(
    g: GraphModel,
    a: Seq<char>,
    mid: Seq<char>,
    b: Seq<char>,
    with: Seq<char>,
)
    requires
        selecting(g, a, mid, b),
        encode_utf8(a + with).len() <= usize::MAX,
    ensures
        g.inserted(with).active_text() == a + with + b,
        g.inserted(with).caret == encode_utf8(a + with).len(),
        g.inserted(with).anchor is None,
{
    lemma_selecting(g, a, mid, b);
    a_deleted_selection_leaves_what_is_around(g, a, mid, b);
    let h = g.selection_deleted();
    typing_goes_where_the_caret_is(h, a, b, with);
    lemma_cut(a, b);
    assert(h.clamped() == h);
    assert(h.selection_deleted() == h);
    assert(g.inserted(with) == h.inserted(with));
}

/// Backspace takes the last cluster before the caret, and nothing at the beginning. What
/// is before that and what is after the caret stay.
pub proof fn backspace_takes_one_cluster(
    g: GraphModel,
    a: Seq<char>,
    gone: Seq<char>,
    b: Seq<char>,
)
    requires
        between(g, a + gone, b),
    ensures
        cursor::last_cluster(a + gone) == Some(encode_utf8(a).len() as usize) ==> {
            &&& retyped(g, g.backspaced(), a + b)
            &&& g.backspaced().caret == encode_utf8(a).len()
            &&& g.backspaced().anchor is None
        },
        cursor::last_cluster(a + gone) is None ==> g.backspaced() == g,
{
    lemma_cut(a + gone, b);
    lemma_cut(a, gone);
    lemma_cut(a, gone + b);
    assert(a + (gone + b) =~= a + gone + b);
    assert(g.clamped() == g);
    if cursor::last_cluster(a + gone) == Some(encode_utf8(a).len() as usize) {
        let start = encode_utf8(a).len() as usize;
        assert(a + Seq::<char>::empty() + b =~= a + b);
        lemma_retyped(g, a + b, start, g.anchor);
        assert(g.backspaced() == (GraphModel {
            caret: start,
            anchor: g.anchor,
            ..g.with_active_text(a + b)
        }));
    }
}

/// Deleting forward takes the first cluster after the caret, and nothing at the end.
pub proof fn delete_takes_the_next_cluster(
    g: GraphModel,
    a: Seq<char>,
    gone: Seq<char>,
    b: Seq<char>,
)
    requires
        between(g, a, gone + b),
    ensures
        cursor::cluster_end(g.active_text(), g.caret as int) == Some(
            encode_utf8(a + gone).len() as int,
        ) ==> {
            &&& retyped(g, g.deleted_forward(), a + b)
            &&& g.deleted_forward().caret == g.caret
            &&& g.deleted_forward().anchor is None
        },
        cursor::cluster_end(g.active_text(), g.caret as int) is None ==> g.deleted_forward() == g,
{
    lemma_cut(a, gone + b);
    lemma_cut(a + gone, b);
    assert(a + (gone + b) =~= a + gone + b);
    assert(g.clamped() == g);
    if cursor::cluster_end(g.active_text(), g.caret as int) == Some(
        encode_utf8(a + gone).len() as int,
    ) {
        assert(a + Seq::<char>::empty() + b =~= a + b);
        lemma_retyped(g, a + b, g.caret, g.anchor);
        assert(g.deleted_forward() == (GraphModel {
            caret: g.caret,
            anchor: g.anchor,
            ..g.with_active_text(a + b)
        }));
    }
}

/// Deleting a word takes everything back to where the word behind the caret begins.
pub proof fn deleting_a_word_goes_back_to_its_beginning(
    g: GraphModel,
    a: Seq<char>,
    gone: Seq<char>,
    b: Seq<char>,
)
    requires
        between(g, a + gone, b),
        gone.len() > 0,
        cursor::word_start(g.active_text(), g.caret as int) == encode_utf8(a).len(),
    ensures
        retyped(g, g.word_deleted_left(), a + b),
        g.word_deleted_left().caret == encode_utf8(a).len(),
        g.word_deleted_left().anchor is None,
{
    lemma_cut(a + gone, b);
    lemma_cut(a, gone);
    lemma_cut(a, gone + b);
    assert(a + (gone + b) =~= a + gone + b);
    assert(g.clamped() == g);
    text::lemma_char_count(gone);
    let start = encode_utf8(a).len() as usize;
    assert(a + Seq::<char>::empty() + b =~= a + b);
    lemma_retyped(g, a + b, start, g.anchor);
    assert(g.word_deleted_left() == (GraphModel {
        caret: start,
        anchor: g.anchor,
        ..g.with_active_text(a + b)
    }));
}

/// A caret that is moved stands where it was moved to. Dragged along, what is between
/// where it started and where it is now is selected; otherwise nothing is.
pub proof fn a_moved_caret_drags_or_drops_the_selection(g: GraphModel, at: int, extend: bool)
    requires
        0 <= at <= usize::MAX,
    ensures
        ({
            let h = g.caret_placed(at, extend);
            let held = match g.anchor {
                Some(a) => a as int,
                None => g.caret as int,
            };
            &&& h.caret == at
            &&& !extend ==> h.selected_range() is None && h.anchor is None
            &&& extend && held < at ==> h.selected_range() == Some((held, at))
            &&& extend && held > at ==> h.selected_range() == Some((at, held))
            &&& extend && held == at ==> h.selected_range() is None
            &&& h.nodes == g.nodes && h.edges == g.edges && h.active_text() == g.active_text()
        }),
{
}

/// To the left the caret goes one cluster back, and to the right one on. Where something
/// is selected and the selection is not dragged, it goes to that end of it. It stays at
/// the ends of the text.
pub proof fn the_caret_goes_cluster_by_cluster(g: GraphModel, extend: bool)
    requires
        g.caret_ok(),
    ensures
        ({
            let back = cursor::last_cluster(cursor::head(g.active_text(), g.caret as int));
            let on = cursor::cluster_end(g.active_text(), g.caret as int);
            &&& g.selected_range() is None || extend ==> {
                &&& back matches Some(at) ==> g.moved_left(extend) == g.caret_placed(
                    at as int,
                    extend,
                )
                &&& back is None ==> g.moved_left(extend).caret == g.caret
                &&& on matches Some(at) ==> g.moved_right(extend) == g.caret_placed(at, extend)
                &&& on is None ==> g.moved_right(extend).caret == g.caret
            }
            &&& !extend ==> (g.selected_range() matches Some((a, b)) ==> {
                &&& g.moved_left(false) == g.caret_placed(a, false)
                &&& g.moved_right(false) == g.caret_placed(b, false)
            })
        }),
{
    assert(g.clamped() == g);
}

/// A line begins after a line break or at the beginning of the text, and there is no line
/// break between there and where one looks from. It ends before a line break or at the
/// end of the text.
pub proof fn a_line_is_between_its_breaks(b: Seq<u8>, at: int)
    requires
        0 <= at <= b.len(),
    ensures
        ({
            let from = model::line_start_of(b, at);
            let to = model::line_end_of(b, at);
            &&& 0 <= from <= at <= to <= b.len()
            &&& from > 0 ==> b[from - 1] == 0x0a
            &&& to < b.len() ==> b[to] == 0x0a
            &&& forall|i: int| from <= i < to ==> #[trigger] b[i] != 0x0a
        }),
{
    lemma_line_start(b, at);
    lemma_line_end(b, at);
}

proof fn lemma_line_start(b: Seq<u8>, at: int)
    requires
        0 <= at <= b.len(),
    ensures
        0 <= model::line_start_of(b, at) <= at,
        model::line_start_of(b, at) > 0 ==> b[model::line_start_of(b, at) - 1] == 0x0a,
        forall|i: int| model::line_start_of(b, at) <= i < at ==> #[trigger] b[i] != 0x0a,
    decreases at,
{
    if at > 0 && b[at - 1] != ascii::NEWLINE {
        lemma_line_start(b, at - 1);
    }
}

proof fn lemma_line_end(b: Seq<u8>, at: int)
    requires
        0 <= at <= b.len(),
    ensures
        at <= model::line_end_of(b, at) <= b.len(),
        model::line_end_of(b, at) < b.len() ==> b[model::line_end_of(b, at)] == 0x0a,
        forall|i: int| at <= i < model::line_end_of(b, at) ==> #[trigger] b[i] != 0x0a,
    decreases b.len() - at,
{
    if at < b.len() && b[at] != ascii::NEWLINE {
        lemma_line_end(b, at + 1);
    }
}

proof fn lemma_line_start_at(b: Seq<u8>, at: int, from: int)
    requires
        0 <= from <= at <= b.len(),
        from > 0 ==> b[from - 1] == 0x0a,
        forall|i: int| from <= i < at ==> #[trigger] b[i] != 0x0a,
    ensures
        model::line_start_of(b, at) == from,
    decreases at - from,
{
    if from < at {
        assert(b[at - 1] != 0x0a);
        lemma_line_start_at(b, at - 1, from);
    }
}

proof fn lemma_line_end_at(b: Seq<u8>, at: int, to: int)
    requires
        0 <= at <= to <= b.len(),
        to < b.len() ==> b[to] == 0x0a,
        forall|i: int| at <= i < to ==> #[trigger] b[i] != 0x0a,
    ensures
        model::line_end_of(b, at) == to,
    decreases to - at,
{
    if at < to {
        assert(b[at] != 0x0a);
        lemma_line_end_at(b, at + 1, to);
    }
}

/// Home takes the caret to where its line begins, and End to where it ends.
pub proof fn home_and_end_stay_on_the_line(g: GraphModel, from: int, to: int, extend: bool)
    requires
        ({
            let b = g.active_bytes();
            &&& 0 <= from <= g.caret <= to <= b.len()
            &&& from > 0 ==> b[from - 1] == 0x0a
            &&& to < b.len() ==> b[to] == 0x0a
            &&& forall|i: int| from <= i < to ==> #[trigger] b[i] != 0x0a
        }),
    ensures
        g.moved_home(extend) == g.caret_placed(from, extend),
        g.moved_end(extend) == g.caret_placed(to, extend),
{
    let b = g.active_bytes();
    lemma_line_start_at(b, g.caret as int, from);
    lemma_line_end_at(b, g.caret as int, to);
}

/// Up and down keep the column, as far as the other line reaches, on a cluster. From the
/// first line up goes to its beginning, and from the last line down to its end.
pub proof fn up_and_down_keep_the_column(
    g: GraphModel,
    above: int,
    from: int,
    to: int,
    below: int,
    extend: bool,
)
    requires
        g.caret_ok(),
        ({
            let b = g.active_bytes();
            &&& 0 <= from <= g.caret <= to <= b.len()
            &&& from > 0 ==> b[from - 1] == 0x0a
            &&& to < b.len() ==> b[to] == 0x0a
            &&& forall|i: int| from <= i < to ==> #[trigger] b[i] != 0x0a
            &&& from > 0 ==> 0 <= above < from && (above > 0 ==> b[above - 1] == 0x0a) && forall|
                i: int,
            | above <= i < from - 1 ==> #[trigger] b[i] != 0x0a
            &&& to < b.len() ==> to < below <= b.len() && (below < b.len() ==> b[below] == 0x0a)
                && forall|i: int| to < i < below ==> #[trigger] b[i] != 0x0a
        }),
    ensures
        ({
            let b = g.active_bytes();
            let column = g.caret - from;
            &&& from == 0 ==> g.moved_up(extend) == g.caret_placed(0, extend)
            &&& from > 0 ==> g.moved_up(extend) == g.caret_placed(
                g.snapped(
                    if above + column < from - 1 {
                        above + column
                    } else {
                        from - 1
                    },
                ),
                extend,
            )
            &&& to == b.len() ==> g.moved_down(extend) == g.caret_placed(to, extend)
            &&& to < b.len() ==> g.moved_down(extend) == g.caret_placed(
                g.snapped(
                    if to + 1 + column < below {
                        to + 1 + column
                    } else {
                        below
                    },
                ),
                extend,
            )
        }),
{
    let b = g.active_bytes();
    assert(g.clamped() == g);
    lemma_line_start_at(b, g.caret as int, from);
    lemma_line_end_at(b, g.caret as int, to);
    home_and_end_stay_on_the_line(g, from, to, extend);
    if from > 0 {
        lemma_line_start_at(b, from - 1, above);
    }
    if to < b.len() {
        lemma_line_end_at(b, to + 1, below);
    }
}

} // verus!
