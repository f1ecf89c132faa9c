//! What a document in Markdown says: which of its lines are items, at which level
//! and with which label, and which line names the root.

use vstd::prelude::*;
use vstd::utf8::*;
use crate::convert::flat::Item;
use crate::convert::grow;
use crate::convert::laws;
use crate::convert::md;
use crate::coord::Coord;
use crate::graph::model::GraphModel;
use crate::graph::outline;
use crate::graph::tidy;
use crate::text;

verus! {

/// White space from end to end.
pub open spec fn white(s: Seq<char>) -> bool {
    forall|i: int| 0 <= i < s.len() ==> text::char_whitespace(#[trigger] s[i])
}

proof fn lemma_items_join(a: Seq<Seq<char>>, b: Seq<Seq<char>>)
    ensures
        md::md_items(a + b) == md::md_items(a) + md::md_items(b),
    decreases a.len(),
{
    if a.len() == 0 {
        assert(a + b =~= b);
        assert(md::md_items(a) + md::md_items(b) =~= md::md_items(b));
    } else {
        lemma_items_join(a.skip(1), b);
        assert((a + b).skip(1) =~= a.skip(1) + b);
        assert((a + b)[0] == a[0]);
        assert(md::md_items(a + b) =~= md::md_items(a) + md::md_items(b));
    }
}

/// The root is named by the first part of a document that names it.
proof fn lemma_root_join(a: Seq<Seq<char>>, b: Seq<Seq<char>>)
    ensures
        (exists|i: int| 0 <= i < a.len() && md::is_heading(#[trigger] a[i])) ==> md::md_root(a + b)
            == md::md_root(a),
        (forall|i: int| 0 <= i < a.len() ==> !md::is_heading(#[trigger] a[i])) ==> md::md_root(a + b)
            == md::md_root(b) && md::md_root(a).len() == 0,
    decreases a.len(),
{
    if a.len() == 0 {
        assert(a + b =~= b);
    } else {
        let rest = a.skip(1);
        lemma_root_join(rest, b);
        assert((a + b).skip(1) =~= rest + b);
        assert((a + b)[0] == a[0]);
        if exists|i: int| 0 <= i < a.len() && md::is_heading(#[trigger] a[i]) {
            let i = choose|i: int| 0 <= i < a.len() && md::is_heading(#[trigger] a[i]);
            if i > 0 {
                assert(rest[i - 1] == a[i]);
            }
        } else {
            assert forall|i: int| 0 <= i < rest.len() implies !md::is_heading(#[trigger] rest[i]) by {
                assert(rest[i] == a[i + 1]);
            }
        }
    }
}

proof fn lemma_undashed(marks: Seq<char>, rest: Seq<char>)
    requires
        forall|i: int| 0 <= i < marks.len() ==> #[trigger] marks[i] == '-' || marks[i] == '*',
        rest.len() > 0 ==> rest[0] != '-' && rest[0] != '*',
    ensures
        md::undashed(marks + rest) == rest,
    decreases marks.len(),
{
    if marks.len() == 0 {
        assert(marks + rest =~= rest);
    } else {
        assert((marks + rest)[0] == marks[0]);
        assert((marks + rest).skip(1) =~= marks.skip(1) + rest);
        lemma_undashed(marks.skip(1), rest);
    }
}

proof fn lemma_unhashed(marks: Seq<char>, rest: Seq<char>)
    requires
        forall|i: int| 0 <= i < marks.len() ==> #[trigger] marks[i] == '#',
        rest.len() > 0 ==> rest[0] != '#',
    ensures
        md::unhashed(marks + rest) == rest,
    decreases marks.len(),
{
    if marks.len() == 0 {
        assert(marks + rest =~= rest);
    } else {
        assert((marks + rest)[0] == marks[0]);
        assert((marks + rest).skip(1) =~= marks.skip(1) + rest);
        lemma_unhashed(marks.skip(1), rest);
    }
}

/// A line that begins, after its indent, with a dash or an asterisk is one item,
/// in its place among the others: its level is half the bytes of the indent, and
/// its label what follows the marks, without white space around it. It does not
/// name the root.
pub proof fn a_bullet_is_an_item(
    before: Seq<Seq<char>>,
    after: Seq<Seq<char>>,
    lead: Seq<char>,
    marks: Seq<char>,
    rest: Seq<char>,
)
    requires
        white(lead),
        marks.len() > 0,
        forall|i: int| 0 <= i < marks.len() ==> #[trigger] marks[i] == '-' || marks[i] == '*',
        rest.len() > 0 ==> rest[0] != '-' && rest[0] != '*',
    ensures
        md::md_items(before + seq![lead + marks + rest] + after) == md::md_items(before)
            + seq![((encode_utf8(lead).len() / 2) as nat, text::trimmed(rest))] + md::md_items(after),
        md::md_root(before + seq![lead + marks + rest] + after) == md::md_root(before + after),
{
    let line = lead + marks + rest;
    assert(line =~= lead + (marks + rest));
    assert((marks + rest)[0] == marks[0]);
    text::lemma_trim_start_some(lead, marks + rest);
    assert(text::trimmed_start(line) == marks + rest);
    assert(md::lead_of(line) =~= lead);
    lemma_undashed(marks, rest);
    let one = seq![line];
    assert(one.skip(1) =~= seq![]);
    assert(md::md_items(one) =~= seq![md::bullet(line)]) by {
        assert(md::md_items(one.skip(1)).len() == 0);
    }
    lemma_items_join(before + one, after);
    lemma_items_join(before, one);
    lemma_passed_over(before, after, line);
}

/// A line that is no heading does not matter to the name of the root.
proof fn lemma_passed_over(before: Seq<Seq<char>>, after: Seq<Seq<char>>, line: Seq<char>)
    requires
        !md::is_heading(line),
    ensures
        md::md_root(before + seq![line] + after) == md::md_root(before + after),
{
    let one = seq![line];
    assert(before + one + after =~= before + (one + after));
    lemma_root_join(before, one + after);
    lemma_root_join(before, after);
    lemma_root_join(one, after);
}

/// Two lines that are the same but for the mark that they begin with after their
/// indent, which is a dash in one and an asterisk in the other.
pub open spec fn marked_alike(a: Seq<char>, b: Seq<char>) -> bool {
    exists|k: int|
        0 <= k < a.len() && white(#[trigger] a.take(k)) && a[k] == '-' && b == a.update(k, '*')
}

proof fn lemma_undashed_same(a: Seq<char>, b: Seq<char>)
    requires
        a.len() > 0,
        b.len() > 0,
        a[0] == '-',
        b[0] == '*',
        a.skip(1) == b.skip(1),
    ensures
        md::undashed(a) == md::undashed(b),
{
}

/// A list that is written with asterisks reads as that list written with dashes,
/// and so does one that mixes them.
pub proof fn asterisks_read_as_dashes(dashed: Seq<Seq<char>>, starred: Seq<Seq<char>>)
    requires
        dashed.len() == starred.len(),
        forall|i: int|
            0 <= i < dashed.len() ==> #[trigger] dashed[i] == starred[i] || marked_alike(
                dashed[i],
                starred[i],
            ),
    ensures
        md::md_items(dashed) == md::md_items(starred),
        md::md_root(dashed) == md::md_root(starred),
    decreases dashed.len(),
{
    if dashed.len() > 0 {
        let d = dashed.skip(1);
        let s = starred.skip(1);
        assert forall|i: int| 0 <= i < d.len() implies #[trigger] d[i] == s[i] || marked_alike(
            d[i],
            s[i],
        ) by {
            assert(d[i] == dashed[i + 1] && s[i] == starred[i + 1]);
        }
        asterisks_read_as_dashes(d, s);
        let a = dashed[0];
        let b = starred[0];
        if a != b {
            assert(dashed[0] == a);
            let k = choose|k: int|
                0 <= k < a.len() && white(#[trigger] a.take(k)) && a[k] == '-' && b == a.update(
                    k,
                    '*',
                );
            let lead = a.take(k);
            let rest = a.skip(k + 1);
            assert(a =~= lead + (seq!['-'] + rest));
            assert(b =~= lead + (seq!['*'] + rest));
            text::lemma_trim_start_some(lead, seq!['-'] + rest);
            text::lemma_trim_start_some(lead, seq!['*'] + rest);
            assert((seq!['-'] + rest).skip(1) =~= rest);
            assert((seq!['*'] + rest).skip(1) =~= rest);
            lemma_undashed_same(seq!['-'] + rest, seq!['*'] + rest);
            assert(text::trimmed_start(a) == seq!['-'] + rest);
            assert(text::trimmed_start(b) == seq!['*'] + rest);
            assert(md::lead_of(a) =~= lead);
            assert(md::lead_of(b) =~= lead);
            assert(md::bullet(a) == md::bullet(b));
        }
    }
}

/// A heading, of whatever depth, is no item. Where none comes before it, it names
/// the root: by what follows its marks, without white space around it.
pub proof fn the_first_heading_names_the_root(
    before: Seq<Seq<char>>,
    after: Seq<Seq<char>>,
    lead: Seq<char>,
    marks: Seq<char>,
    rest: Seq<char>,
)
    requires
        white(lead),
        marks.len() > 0,
        forall|i: int| 0 <= i < marks.len() ==> #[trigger] marks[i] == '#',
        rest.len() > 0 ==> rest[0] != '#',
    ensures
        md::md_items(before + seq![lead + marks + rest] + after) == md::md_items(before + after),
        (forall|i: int|
            0 <= i < before.len() ==> text::trimmed_start(#[trigger] before[i]).len() == 0
                || text::trimmed_start(before[i])[0] != '#') ==> md::md_root(
            before + seq![lead + marks + rest] + after,
        ) == text::trimmed(rest),
        (exists|i: int|
            0 <= i < before.len() && text::trimmed_start(#[trigger] before[i]).len() > 0
                && text::trimmed_start(before[i])[0] == '#') ==> md::md_root(
            before + seq![lead + marks + rest] + after,
        ) == md::md_root(before),
{
    let line = lead + marks + rest;
    assert(line =~= lead + (marks + rest));
    assert((marks + rest)[0] == marks[0]);
    text::lemma_trim_start_some(lead, marks + rest);
    lemma_unhashed(marks, rest);
    let one = seq![line];
    assert(one.skip(1) =~= seq![]);
    assert(!md::is_bullet(one[0]));
    assert(md::md_items(one.skip(1)).len() == 0);
    assert(md::md_items(one) =~= seq![]);
    lemma_items_join(before + one, after);
    lemma_items_join(before, one);
    lemma_items_join(before, after);
    assert(md::md_items(before) + md::md_items(one) =~= md::md_items(before));
    assert(before + one + after =~= before + (one + after));
    lemma_root_join(before, one + after);
    assert((one + after)[0] == line);
    if exists|i: int|
        0 <= i < before.len() && text::trimmed_start(#[trigger] before[i]).len() > 0
            && text::trimmed_start(before[i])[0] == '#' {
        let i = choose|i: int|
            0 <= i < before.len() && text::trimmed_start(#[trigger] before[i]).len() > 0
                && text::trimmed_start(before[i])[0] == '#';
        assert(md::is_heading(before[i]));
    } else {
        assert forall|i: int| 0 <= i < before.len() implies !md::is_heading(
            #[trigger] before[i],
        ) by {}
    }
}

/// A line that begins, after its indent, with anything else is passed over, and so
/// is a blank one.
pub proof fn other_lines_are_passed_over(
    before: Seq<Seq<char>>,
    after: Seq<Seq<char>>,
    lead: Seq<char>,
    rest: Seq<char>,
)
    requires
        white(lead),
        rest.len() > 0 ==> rest[0] != '-' && rest[0] != '*' && rest[0] != '#'
            && !text::char_whitespace(rest[0]),
    ensures
        md::md_items(before + seq![lead + rest] + after) == md::md_items(before + after),
        md::md_root(before + seq![lead + rest] + after) == md::md_root(before + after),
        md::md_items(seq![]).len() == 0,
        md::md_root(seq![]).len() == 0,
{
    let line = lead + rest;
    text::lemma_trim_start_some(lead, rest);
    let one = seq![line];
    assert(one.skip(1) =~= seq![]);
    assert(!md::is_bullet(one[0]));
    assert(md::md_items(one.skip(1)).len() == 0);
    assert(md::md_items(one) =~= seq![]);
    lemma_items_join(before + one, after);
    lemma_items_join(before, one);
    lemma_items_join(before, after);
    assert(md::md_items(before) + md::md_items(one) =~= md::md_items(before));
    lemma_passed_over(before, after, line);
}

/// What becomes of a list: a root with the name that it is given, and one node for
/// every item, with the item's label. An item hangs under the last one before it
/// that is less deep, and under the root where there is none.
pub proof fn a_list_becomes_a_tree(root: Seq<char>, items: Seq<Item>, r: GraphModel, i: int)
    requires
        items.len() <= grow::MOST_ITEMS,
        grow::map_of(root, items, r),
        0 <= i < items.len(),
    ensures
        r.has(r.root),
        r.nodes[r.root].text == root,
        r.nodes[r.root].parent is None,
        r.nodes.dom().len() == items.len() + 1,
        r.focus == r.root,
        ({
            let id = (2 + 2 * i) as u64;
            &&& r.has(id)
            &&& id != r.root
            &&& r.nodes[id].text == items[i].1
            &&& forall|j: int|
                0 <= j < i && (#[trigger] items[j]).0 < items[i].0 && (forall|k: int|
                    j < k < i ==> (#[trigger] items[k]).0 >= items[i].0) ==> r.nodes[id].parent
                    == Some((2 + 2 * j) as u64)
            &&& (forall|j: int| 0 <= j < i ==> (#[trigger] items[j]).0 >= items[i].0)
                ==> r.nodes[id].parent == Some(r.root)
        }),
{
    laws::lemma_map_nodes(root, items, r);
    let h = choose|h: GraphModel| #[trigger]
        grow::spread(grow::grown_map(root, items, items.len()), h) && r == (GraphModel {
            mode: crate::graph::Mode::Browse,
            anchor: None,
            ..h
        }).focused_on(1);
    assert(r.root == 1);
    let id = (2 + 2 * i) as u64;
    assert(laws::landed(i + 1) == id);
    let levels = outline::levels_of(items);
    assert forall|j: int|
        0 <= j < i && (#[trigger] items[j]).0 < items[i].0 && (forall|k: int|
            j < k < i ==> (#[trigger] items[k]).0 >= items[i].0) implies r.nodes[id].parent == Some(
        (2 + 2 * j) as u64,
    ) by {
        assert forall|k: int| j < k < i implies #[trigger] levels[k] >= levels[i] by {
            assert(items[k].0 >= items[i].0);
        }
        outline::lemma_outer_at(levels, i, i as nat, j);
    }
    if forall|j: int| 0 <= j < i ==> (#[trigger] items[j]).0 >= items[i].0 {
        assert forall|k: int| 0 <= k < i implies #[trigger] levels[k] >= levels[i] by {
            assert(items[k].0 >= items[i].0);
        }
        outline::lemma_outer_none(levels, i, i as nat);
    }
    assert forall|x: u64| #[trigger] r.nodes.dom().contains(x) <==> exists|k: int|
        0 <= k <= items.len() && x == #[trigger] laws::landed(k) by {
        if r.nodes.dom().contains(x) {
            assert(r.has(x));
        }
        if exists|k: int| 0 <= k <= items.len() && x == #[trigger] laws::landed(k) {
            let k = choose|k: int| 0 <= k <= items.len() && x == #[trigger] laws::landed(k);
            assert(r.has(laws::landed(k)));
        }
    }
    lemma_as_many(r.nodes.dom(), items.len());
}

/// A set of so many even ids from two on, and one more.
proof fn lemma_as_many(ids: Set<u64>, n: nat)
    requires
        n <= grow::MOST_ITEMS,
        forall|x: u64| #[trigger]
            ids.contains(x) <==> exists|i: int| 0 <= i <= n && x == #[trigger] laws::landed(i),
    ensures
        ids.finite(),
        ids.len() == n + 1,
    decreases n,
{
    if n == 0 {
        assert forall|x: u64| #[trigger] ids.contains(x) <==> x == 1 by {
            assert(laws::landed(0) == 1);
        }
        assert(ids =~= set![1u64]);
    } else {
        let last = laws::landed(n as int);
        let less = ids.remove(last);
        assert forall|x: u64| #[trigger] less.contains(x) <==> exists|i: int|
            0 <= i <= n - 1 && x == #[trigger] laws::landed(i) by {
            if less.contains(x) {
                assert(ids.contains(x));
                let i = choose|i: int| 0 <= i <= n && x == #[trigger] laws::landed(i);
                assert(i <= n - 1);
            }
            if exists|i: int| 0 <= i <= n - 1 && x == #[trigger] laws::landed(i) {
                let i = choose|i: int| 0 <= i <= n - 1 && x == #[trigger] laws::landed(i);
                assert(ids.contains(x));
                assert(x != last);
            }
        }
        lemma_as_many(less, (n - 1) as nat);
        assert(ids.contains(last));
        assert(ids =~= less.insert(last));
    }
}

proof fn lemma_texts_join(a: Seq<Item>, b: Seq<Item>)
    ensures
        md::md_text(a + b) == md::md_text(a) + md::md_text(b),
        md::outline_text(a + b) == md::outline_text(a) + md::outline_text(b),
    decreases a.len(),
{
    if a.len() == 0 {
        assert(a + b =~= b);
        assert(md::md_text(a) + md::md_text(b) =~= md::md_text(b));
        assert(md::outline_text(a) + md::outline_text(b) =~= md::outline_text(b));
    } else {
        lemma_texts_join(a.skip(1), b);
        assert((a + b).skip(1) =~= a.skip(1) + b);
        assert((a + b)[0] == a[0]);
        assert(md::md_text(a + b) =~= md::md_text(a) + md::md_text(b));
        assert(md::outline_text(a + b) =~= md::outline_text(a) + md::outline_text(b));
    }
}

/// `s` is so many spaces, and then `rest`.
pub open spec fn indented(s: Seq<char>, n: nat, rest: Seq<char>) -> bool {
    &&& s.len() == n + rest.len()
    &&& forall|i: int| 0 <= i < n ==> #[trigger] s[i] == ' '
    &&& s.skip(n as int) == rest
}

/// Every item is written as a line of its own, in its place among the others. In
/// Markdown the root is a heading, and what is under it a bullet with two spaces
/// for each level between them. In a plain outline every label stands after two
/// spaces for each level.
pub proof fn an_item_is_a_line(before: Seq<Item>, item: Item, after: Seq<Item>)
    ensures
        md::md_text(before + seq![item] + after) == md::md_text(before) + md::md_text(seq![item])
            + md::md_text(after),
        item.0 == 0 ==> md::md_text(seq![item]) == seq!['#', ' '] + item.1 + seq!['\n'],
        item.0 > 0 ==> indented(
            md::md_text(seq![item]),
            (2 * (item.0 - 1)) as nat,
            seq!['-', ' '] + item.1 + seq!['\n'],
        ),
        md::outline_text(before + seq![item] + after) == md::outline_text(before)
            + md::outline_text(seq![item]) + md::outline_text(after),
        indented(md::outline_text(seq![item]), 2 * item.0, item.1 + seq!['\n']),
        md::md_text(seq![]).len() == 0,
        md::outline_text(seq![]).len() == 0,
{
    let one = seq![item];
    lemma_texts_join(before + one, after);
    lemma_texts_join(before, one);
    assert(one.skip(1) =~= seq![]);
    assert(md::md_text(one.skip(1)).len() == 0);
    assert(md::outline_text(one.skip(1)).len() == 0);
    assert(md::md_text(one) =~= md::md_line(item) + seq!['\n']);
    assert(md::outline_text(one) =~= md::outline_line(item) + seq!['\n']);
    if item.0 == 0 {
        assert(md::md_text(one) =~= seq!['#', ' '] + item.1 + seq!['\n']);
    } else {
        let n = 2 * (item.0 - 1);
        assert(md::md_text(one).skip(n) =~= seq!['-', ' '] + item.1 + seq!['\n']);
    }
    assert(md::outline_text(one).skip((2 * item.0) as int) =~= item.1 + seq!['\n']);
}

/// The map that a list becomes is laid out as a tidy map is.
pub proof fn a_list_becomes_a_tidy_map<C: Fn(Coord, Coord, Coord) -> Coord>(
    root: Seq<char>,
    items: Seq<Item>,
    r: GraphModel,
    carry: &C,
)
    requires
        grow::map_of(root, items, r),
    ensures
        exists|h: GraphModel| #[trigger]
            tidy::tidied(grow::grown_map(root, items, items.len()), h, carry) && r.nodes == h.nodes,
{
    let g = grow::grown_map(root, items, items.len());
    let h = choose|h: GraphModel| #[trigger]
        grow::spread(g, h) && r == (GraphModel {
            mode: crate::graph::Mode::Browse,
            anchor: None,
            ..h
        }).focused_on(1);
    assert forall|x: u64| g.has(x) && !g.strays().contains(x) implies tidy::seat(
        g,
        #[trigger] h.nodes[x],
        x,
        carry,
    ) by {
        if !g.shown(x) {
            if g.seated(x) {
                let y = choose|y: u64| g.carrier(x, y);
                assert(g.collapsed(y));
                assert(false);
            }
            assert(g.parent_of(x) is Some);
            assert(false);
        }
    }
    assert(tidy::tidied(g, h, carry));
}

} // verus!
