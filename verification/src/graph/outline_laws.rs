//! What an indented outline says: which of its lines are items, how deep each lies,
//! and what each is hung under.

use vstd::prelude::*;
use crate::convert::flat::Item;
use crate::convert::md;
use crate::convert::md_laws;
use crate::coord::Coord;
use crate::graph::model::GraphModel;
use crate::graph::outline;
use crate::graph::structure;
use crate::graph::{Direction, Graph};
use crate::text;

verus! {

/// How many of the characters of a text are `c`.
pub open spec fn count(s: Seq<char>, c: char) -> nat {
    s.to_multiset().count(c)
}

proof fn lemma_count_first(s: Seq<char>, c: char)
    requires
        s.len() > 0,
    ensures
        count(s, c) == count(s.skip(1), c) + (if s[0] == c {
            1nat
        } else {
            0
        }),
{
    broadcast use vstd::seq_lib::group_to_multiset_ensures;

    assert(s =~= seq![s[0]] + s.skip(1));
    vstd::seq_lib::lemma_multiset_commutative(seq![s[0]], s.skip(1));
    assert(seq![s[0]] =~= Seq::<char>::empty().push(s[0]));
}

proof fn lemma_indent(lead: Seq<char>, rest: Seq<char>)
    requires
        forall|i: int| 0 <= i < lead.len() ==> #[trigger] lead[i] == ' ' || lead[i] == '\t',
        rest.len() > 0 ==> rest[0] != ' ' && rest[0] != '\t',
    ensures
        outline::indent_of(lead + rest) == count(lead, ' ') + 4 * count(lead, '\t'),
    decreases lead.len(),
{
    broadcast use vstd::seq_lib::group_to_multiset_ensures;

    if lead.len() == 0 {
        assert(lead + rest =~= rest);
    } else {
        let less = lead.skip(1);
        assert((lead + rest).skip(1) =~= less + rest);
        assert((lead + rest)[0] == lead[0]);
        lemma_indent(less, rest);
        lemma_count_first(lead, ' ');
        lemma_count_first(lead, '\t');
    }
}

proof fn lemma_unmarked(marks: Seq<char>, rest: Seq<char>)
    requires
        forall|i: int|
            0 <= i < marks.len() ==> #[trigger] marks[i] == '-' || marks[i] == '*' || marks[i] == '+'
                || marks[i] == '#',
        rest.len() > 0 ==> rest[0] != '-' && rest[0] != '*' && rest[0] != '+' && rest[0] != '#',
    ensures
        outline::unmarked(marks + rest) == rest,
    decreases marks.len(),
{
    if marks.len() == 0 {
        assert(marks + rest =~= rest);
    } else {
        assert((marks + rest)[0] == marks[0]);
        assert((marks + rest).skip(1) =~= marks.skip(1) + rest);
        lemma_unmarked(marks.skip(1), rest);
    }
}

proof fn lemma_items_join(a: Seq<Seq<char>>, b: Seq<Seq<char>>)
    ensures
        outline::items_of(a + b) == outline::items_of(a) + outline::items_of(b),
    decreases b.len(),
{
    if b.len() == 0 {
        assert(a + b =~= a);
        assert(outline::items_of(a) + outline::items_of(b) =~= outline::items_of(a));
    } else {
        lemma_items_join(a, b.drop_last());
        assert((a + b).drop_last() =~= a + b.drop_last());
        assert((a + b).last() == b.last());
        assert(outline::items_of(a + b) =~= outline::items_of(a) + outline::items_of(b));
    }
}

/// How a line of an outline is made up: spaces and tabs, then other white space if
/// any, then marks, and then what it says.
pub open spec fn made_up(lead: Seq<char>, odd: Seq<char>, marks: Seq<char>, rest: Seq<char>) -> bool {
    &&& forall|i: int| 0 <= i < lead.len() ==> #[trigger] lead[i] == ' ' || lead[i] == '\t'
    &&& md_laws::white(odd)
    &&& odd.len() > 0 ==> odd[0] != ' ' && odd[0] != '\t'
    &&& forall|i: int|
        0 <= i < marks.len() ==> #[trigger] marks[i] == '-' || marks[i] == '*' || marks[i] == '+'
            || marks[i] == '#'
    &&& rest.len() > 0 ==> rest[0] != '-' && rest[0] != '*' && rest[0] != '+' && rest[0] != '#'
    &&& marks.len() == 0 && rest.len() > 0 ==> !text::char_whitespace(rest[0])
}

/// A line is one item, in its place among the others. A space in front of it counts
/// for one level, a tab for four, and every mark after the first for one more. Its
/// label is what follows the marks, without white space around it. Where that is
/// nothing, the line is passed over.
pub proof fn a_line_is_an_item(
    before: Seq<Seq<char>>,
    after: Seq<Seq<char>>,
    lead: Seq<char>,
    odd: Seq<char>,
    marks: Seq<char>,
    rest: Seq<char>,
)
    requires
        made_up(lead, odd, marks, rest),
    ensures
        outline::items_of(before + seq![lead + odd + marks + rest] + after) == outline::items_of(
            before,
        ) + (if text::trimmed(rest).len() == 0 {
            seq![]
        } else {
            seq![
                (
                    count(lead, ' ') + 4 * count(lead, '\t') + (if marks.len() > 0 {
                        (marks.len() - 1) as nat
                    } else {
                        0
                    }),
                    text::trimmed(rest),
                ),
            ]
        }) + outline::items_of(after),
        outline::items_of(seq![]).len() == 0,
{
    let line = lead + odd + marks + rest;
    let body = marks + rest;
    let space = lead + odd;
    assert(line =~= space + body);
    assert(line =~= lead + (odd + body));
    if marks.len() > 0 {
        assert(body[0] == marks[0]);
    } else {
        assert(body =~= rest);
    }
    if odd.len() > 0 {
        assert((odd + body)[0] == odd[0]);
    } else {
        assert(odd + body =~= body);
    }
    assert forall|i: int| 0 <= i < space.len() implies text::char_whitespace(
        #[trigger] space[i],
    ) by {
        if i < lead.len() {
            assert(space[i] == lead[i]);
        } else {
            assert(space[i] == odd[i - lead.len()]);
        }
    }
    text::lemma_trim_start_some(space, body);
    lemma_indent(lead, odd + body);
    lemma_unmarked(marks, rest);
    let one = seq![line];
    lemma_items_join(before + one, after);
    lemma_items_join(before, one);
    assert(one.drop_last() =~= seq![]);
    assert(outline::items_of(one.drop_last()).len() == 0);
    assert(one.last() == line);
    let level = outline::level_of(line);
    if text::trimmed(rest).len() == 0 {
        assert(outline::items_of(one) =~= seq![]);
    } else {
        assert(outline::items_of(one) =~= seq![(level, text::trimmed(rest))]);
    }
}

/// A tab in front of a line takes it four levels deeper, a space one, and it says
/// what it said.
pub proof fn an_indent_nests_deeper(before: Seq<Seq<char>>, line: Seq<char>)
    ensures
        outline::items_of(seq![line]).len() == 0 ==> outline::items_of(
            before.push(seq!['\t'] + line),
        ) == outline::items_of(before) && outline::items_of(before.push(seq![' '] + line))
            == outline::items_of(before),
        outline::items_of(seq![line]).len() > 0 ==> {
            let item = outline::items_of(seq![line])[0];
            &&& outline::items_of(before.push(line)) == outline::items_of(before).push(item)
            &&& outline::items_of(before.push(seq!['\t'] + line)) == outline::items_of(before).push(
                (item.0 + 4, item.1),
            )
            &&& outline::items_of(before.push(seq![' '] + line)) == outline::items_of(before).push(
                (item.0 + 1, item.1),
            )
        },
{
    let tabbed = seq!['\t'] + line;
    let spaced = seq![' '] + line;
    assert(tabbed.skip(1) =~= line);
    assert(spaced.skip(1) =~= line);
    assert(text::trimmed_start(tabbed) == text::trimmed_start(line));
    assert(text::trimmed_start(spaced) == text::trimmed_start(line));
    assert(outline::level_of(tabbed) == outline::level_of(line) + 4);
    assert(outline::level_of(spaced) == outline::level_of(line) + 1);
    let one = seq![line];
    assert(one.drop_last() =~= seq![]);
    assert(outline::items_of(one.drop_last()).len() == 0);
    assert(one.last() == line);
    assert(before.push(line).drop_last() =~= before);
    assert(before.push(tabbed).drop_last() =~= before);
    assert(before.push(spaced).drop_last() =~= before);
}

/// Nothing that was there before a child is made changes its text or its parent.
proof fn lemma_others_stay(g: GraphModel, parent: u64, t: Seq<char>, x: Coord, y: Coord, k: u64)
    requires
        g.has(k),
    ensures
        ({
            let h = g.child_created(parent, t, x, y).1;
            &&& h.has(k)
            &&& h.nodes[k].text == g.nodes[k].text
            &&& h.nodes[k].parent == g.nodes[k].parent
        }),
{
    assert(g.opened(parent).has(k));
}

proof fn lemma_run_keeps<P: Fn(&Graph, u64, Direction) -> (Coord, Coord)>(
    place: &P,
    run: Seq<Graph>,
    made: Seq<Option<u64>>,
    items: Seq<Item>,
    parent: u64,
    from: nat,
    n: nat,
    k: u64,
)
    requires
        outline::grown(place, run, made, items, parent),
        from <= n < run.len(),
        run[from as int]@.has(k),
    ensures
        run[n as int]@.has(k),
        run[n as int]@.nodes[k].text == run[from as int]@.nodes[k].text,
        run[n as int]@.nodes[k].parent == run[from as int]@.nodes[k].parent,
    decreases n,
{
    if from < n {
        let i = n - 1;
        lemma_run_keeps(place, run, made, items, parent, from, i as nat, k);
        let up = outline::under(outline::levels_of(items), made, parent, i);
        assert(structure::made_child(
            place,
            &run[i],
            up,
            Direction::Right,
            items[i].1,
            made[i],
            run[i + 1]@,
        ));
        if run[i]@.has(up) {
            let (x, y) = choose|x: Coord, y: Coord| #[trigger]
                place.ensures((&run[i], up, Direction::Right), (x, y)) && (made[i], run[i + 1]@)
                    == run[i]@.child_created(up, items[i].1, x, y);
            lemma_others_stay(run[i]@, up, items[i].1, x, y, k);
        }
    }
}

/// What becomes of an outline: every item that a node was made for has it in the
/// map in the end, new and with the item's label, put to the right of what it hangs under.
/// It hangs under the node of the
/// last item before it that lies less deep, or where there is none under what the
/// outline was pasted into. What was in the map before keeps its text and its
/// parent.
pub proof fn an_outline_becomes_a_branch<P: Fn(&Graph, u64, Direction) -> (Coord, Coord)>(
    place: &P,
    run: Seq<Graph>,
    made: Seq<Option<u64>>,
    items: Seq<Item>,
    parent: u64,
    i: int,
)
    requires
        outline::grown(place, run, made, items, parent),
        0 <= i < made.len(),
        made[i] is Some,
    ensures
        ({
            let before = run[0]@;
            let after = run.last()@;
            let id = made[i]->0;
            &&& after.has(id)
            &&& !before.has(id)
            &&& after.nodes[id].text == items[i].1
            &&& after.nodes[id].parent is Some
            &&& place.ensures(
                (&run[i], after.nodes[id].parent->0, Direction::Right),
                (run[i + 1]@.nodes[id].x, run[i + 1]@.nodes[id].y),
            )
            &&& forall|j: int|
                0 <= j < i && (#[trigger] items[j]).0 < items[i].0 && (forall|k: int|
                    j < k < i ==> (#[trigger] items[k]).0 >= items[i].0) ==> after.nodes[id].parent
                    == made[j]
            &&& (forall|j: int| 0 <= j < i ==> (#[trigger] items[j]).0 >= items[i].0)
                ==> after.nodes[id].parent == Some(parent)
            &&& forall|k: u64| #[trigger]
                before.has(k) ==> after.has(k) && after.nodes[k].text == before.nodes[k].text
                    && after.nodes[k].parent == before.nodes[k].parent
        }),
{
    let levels = outline::levels_of(items);
    let up = outline::under(levels, made, parent, i);
    let id = made[i]->0;
    let before = run[0]@;
    let after = run.last()@;
    let n = (run.len() - 1) as nat;
    assert(structure::made_child(
        place,
        &run[i],
        up,
        Direction::Right,
        items[i].1,
        made[i],
        run[i + 1]@,
    ));
    let (x, y) = choose|x: Coord, y: Coord| #[trigger]
        place.ensures((&run[i], up, Direction::Right), (x, y)) && (made[i], run[i + 1]@)
            == run[i]@.child_created(up, items[i].1, x, y);
    assert(run[i + 1]@.nodes[id].parent == Some(up));
    assert(!run[i]@.has(id)) by {
        assert(!run[i]@.opened(up).has(id));
        if run[i]@.has(id) {
            assert(run[i]@.opened(up).has(id));
        }
    }
    lemma_run_keeps(place, run, made, items, parent, (i + 1) as nat, n, id);
    assert forall|k: u64| #[trigger] before.has(k) implies after.has(k) && after.nodes[k].text
        == before.nodes[k].text && after.nodes[k].parent == before.nodes[k].parent by {
        lemma_run_keeps(place, run, made, items, parent, 0, n, k);
    }
    if before.has(id) {
        lemma_run_keeps(place, run, made, items, parent, 0, i as nat, id);
    }
    assert forall|j: int|
        0 <= j < i && (#[trigger] items[j]).0 < items[i].0 && (forall|k: int|
            j < k < i ==> (#[trigger] items[k]).0 >= items[i].0) implies after.nodes[id].parent
        == made[j] by {
        assert forall|k: int| j < k < i implies #[trigger] levels[k] >= levels[i] by {
            assert(items[k].0 >= items[i].0);
        }
        outline::lemma_outer_at(levels, i, i as nat, j);
        assert(made[j] is Some);
    }
    if forall|j: int| 0 <= j < i ==> (#[trigger] items[j]).0 >= items[i].0 {
        assert forall|k: int| 0 <= k < i implies #[trigger] levels[k] >= levels[i] by {
            assert(items[k].0 >= items[i].0);
        }
        outline::lemma_outer_none(levels, i, i as nat);
    }
}

/// A label that a line of an outline gives back as it is: one line that is not
/// blank, without white space around it, and that begins with no mark.
pub open spec fn plain_line(t: Seq<char>) -> bool {
    &&& md::plain_label(t)
    &&& t.len() > 0
    &&& t[0] != '-' && t[0] != '*' && t[0] != '+' && t[0] != '#'
}

/// A plain outline pastes back: every item that was written is read, in order, with
/// its label and at twice its level.
pub proof fn a_plain_outline_pastes_back(items: Seq<Item>)
    requires
        forall|i: int| 0 <= i < items.len() ==> plain_line((#[trigger] items[i]).1),
    ensures
        outline::items_of(text::lines_of(md::outline_text(items))) == items.map_values(
            |p: Item| (2 * p.0, p.1),
        ),
    decreases items.len(),
{
    let twice = |p: Item| (2 * p.0, p.1);
    if items.len() == 0 {
        assert(items.map_values(twice) =~= seq![]);
    } else {
        let rest = items.skip(1);
        assert forall|i: int| 0 <= i < rest.len() implies plain_line((#[trigger] rest[i]).1) by {
            assert(rest[i] == items[i + 1]);
        }
        a_plain_outline_pastes_back(rest);
        let item = items[0];
        let lead = md::spaces(item.0);
        let line = md::outline_line(item);
        let none = Seq::<char>::empty();
        text::lemma_trimmed_ends(item.1);
        assert forall|i: int| 0 <= i < line.len() implies #[trigger] line[i] != '\n' by {
            if i < lead.len() {
                assert(line[i] == lead[i]);
            } else {
                assert(line[i] == item.1[i - lead.len()]);
            }
        }
        assert(line.last() == item.1.last());
        text::lemma_line_then(line, md::outline_text(rest));
        assert(lead + none + none + item.1 =~= line);
        let after = text::lines_of(md::outline_text(rest));
        a_line_is_an_item(seq![], after, lead, none, none, item.1);
        lemma_spaces_count(item.0);
        let all = seq![line] + after;
        assert(Seq::<Seq<char>>::empty() + seq![line] + after =~= all);
        assert(outline::items_of(all) =~= seq![(2 * item.0, item.1)] + outline::items_of(after));
        assert(items.map_values(twice) =~= seq![(2 * item.0, item.1)] + rest.map_values(twice));
    }
}

proof fn lemma_spaces_count(n: nat)
    ensures
        count(md::spaces(n), ' ') == 2 * n,
        count(md::spaces(n), '\t') == 0,
    decreases n,
{
    broadcast use vstd::seq_lib::group_to_multiset_ensures;

    let s = md::spaces(n);
    if n > 0 {
        lemma_spaces_count((n - 1) as nat);
        lemma_count_first(s, ' ');
        lemma_count_first(s, '\t');
        lemma_count_first(s.skip(1), ' ');
        lemma_count_first(s.skip(1), '\t');
        assert(s.skip(1).skip(1) =~= md::spaces((n - 1) as nat));
    } else {
        assert(s =~= Seq::<char>::empty());
    }
}

} // verus!
