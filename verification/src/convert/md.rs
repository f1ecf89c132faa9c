//! Markdown: the root as a heading, what is under it as a nested bullet list.

use vstd::prelude::*;
use vstd::utf8::*;
use vstd::string::StringSliceAdditionalSpecFns;
use crate::convert::flat;
use crate::convert::flat::Item;
use crate::convert::grow;
use crate::graph::Graph;
use crate::text;

verus! {

// ---------------------------------------------------------------------------
// Writing
// ---------------------------------------------------------------------------

/// Two spaces for each level.
pub open spec fn spaces(levels: nat) -> Seq<char> {
    Seq::new(2 * levels, |i: int| ' ')
}

/// The line of an item.
pub open spec fn md_line(item: Item) -> Seq<char> {
    if item.0 == 0 {
        seq!['#', ' '] + item.1
    } else {
        spaces((item.0 - 1) as nat) + (seq!['-', ' '] + item.1)
    }
}

pub open spec fn md_text(items: Seq<Item>) -> Seq<char>
    decreases items.len(),
{
    if items.len() == 0 {
        seq![]
    } else {
        md_line(items[0]) + seq!['\n'] + md_text(items.skip(1))
    }
}

/// The line of an item in a plain outline.
pub open spec fn outline_line(item: Item) -> Seq<char> {
    spaces(item.0) + item.1
}

pub open spec fn outline_text(items: Seq<Item>) -> Seq<char>
    decreases items.len(),
{
    if items.len() == 0 {
        seq![]
    } else {
        outline_line(items[0]) + seq!['\n'] + outline_text(items.skip(1))
    }
}

/// Two spaces for each level, at the end of a text.
pub(crate) fn indent(out: &mut String, levels: usize)
    ensures
        final(out)@ == old(out)@ + spaces(levels as nat),
{
    let ghost start = out@;
    let mut i: usize = 0;
    assert(start + spaces(0) =~= start);
    while i < levels
        invariant
            i <= levels,
            out@ == start + spaces(i as nat),
        decreases levels - i,
    {
        out.push(' ');
        out.push(' ');
        assert(out@ =~= start + spaces((i + 1) as nat));
        i = i + 1;
    }
}

/// Root as a heading, descendants as a nested `- ` bullet list, two spaces of
/// indent per depth level. Text is emitted verbatim.
pub fn to_markdown(g: &Graph) -> (r: String)
    requires
        g@.has(g@.root),
        g@.grounded(),
    ensures
        r@ == md_text(g@.items()),
{
    let items = g.items();
    let ghost all = flat::listed(items@);
    let mut out = String::new();
    let mut i: usize = 0;
    assert(all.skip(0) =~= all);
    assert(out@ + md_text(all) =~= md_text(all));
    while i < items.len()
        invariant
            all == flat::listed(items@),
            i <= items@.len(),
            out@ + md_text(all.skip(i as int)) == md_text(all),
        decreases items@.len() - i,
    {
        let ghost was = out@;
        let depth: usize = items[i].0;
        if depth == 0 {
            out.push('#');
        } else {
            indent(&mut out, depth - 1);
            out.push('-');
        }
        out.push(' ');
        out.push_str(items[i].1.as_str());
        out.push('\n');
        proof {
            let rest = all.skip(i as int);
            let item = all[i as int];
            assert(rest[0] == item);
            assert(rest.skip(1) =~= all.skip(i + 1));
            assert(out@ =~= was + (md_line(item) + seq!['\n']));
            assert(was + (md_line(item) + seq!['\n'] + md_text(rest.skip(1))) =~= out@ + md_text(
                rest.skip(1),
            ));
        }
        i = i + 1;
    }
    assert(out@ + Seq::<char>::empty() =~= out@);
    out
}

/// Plain text, one node per line, two spaces of indent per depth. Root at column
/// zero.
pub fn to_outline(g: &Graph) -> (r: String)
    requires
        g@.has(g@.root),
        g@.grounded(),
    ensures
        r@ == outline_text(g@.items()),
{
    let items = g.items();
    let ghost all = flat::listed(items@);
    let mut out = String::new();
    let mut i: usize = 0;
    assert(all.skip(0) =~= all);
    assert(out@ + outline_text(all) =~= outline_text(all));
    while i < items.len()
        invariant
            all == flat::listed(items@),
            i <= items@.len(),
            out@ + outline_text(all.skip(i as int)) == outline_text(all),
        decreases items@.len() - i,
    {
        let ghost was = out@;
        indent(&mut out, items[i].0);
        out.push_str(items[i].1.as_str());
        out.push('\n');
        proof {
            let rest = all.skip(i as int);
            let item = all[i as int];
            assert(rest[0] == item);
            assert(rest.skip(1) =~= all.skip(i + 1));
            assert(out@ =~= was + (outline_line(item) + seq!['\n']));
            assert(was + (outline_line(item) + seq!['\n'] + outline_text(rest.skip(1))) =~= out@
                + outline_text(rest.skip(1)));
        }
        i = i + 1;
    }
    assert(out@ + Seq::<char>::empty() =~= out@);
    out
}

// ---------------------------------------------------------------------------
// Reading
// ---------------------------------------------------------------------------

/// A line without the marks of a heading that it begins with.
pub open spec fn unhashed(line: Seq<char>) -> Seq<char>
    decreases line.len(),
{
    if line.len() > 0 && line[0] == '#' {
        unhashed(line.skip(1))
    } else {
        line
    }
}

/// A line without the bullets that it begins with.
pub open spec fn undashed(line: Seq<char>) -> Seq<char>
    decreases line.len(),
{
    if line.len() > 0 && (line[0] == '-' || line[0] == '*') {
        undashed(line.skip(1))
    } else {
        line
    }
}

pub open spec fn is_heading(line: Seq<char>) -> bool {
    let t = text::trimmed_start(line);
    t.len() > 0 && t[0] == '#'
}

pub open spec fn is_bullet(line: Seq<char>) -> bool {
    let t = text::trimmed_start(line);
    t.len() > 0 && (t[0] == '-' || t[0] == '*')
}

/// The white space that a line begins with.
pub open spec fn lead_of(line: Seq<char>) -> Seq<char> {
    line.take(line.len() - text::trimmed_start(line).len())
}

/// The level and the text of a bullet: two bytes of indent for each level.
pub open spec fn bullet(line: Seq<char>) -> Item {
    (
        (encode_utf8(lead_of(line)).len() / 2) as nat,
        text::trimmed(undashed(text::trimmed_start(line))),
    )
}

/// The text of the first heading. Without one, nothing.
pub open spec fn md_root(lines: Seq<Seq<char>>) -> Seq<char>
    decreases lines.len(),
{
    if lines.len() == 0 {
        seq![]
    } else if is_heading(lines[0]) {
        text::trimmed(unhashed(text::trimmed_start(lines[0])))
    } else {
        md_root(lines.skip(1))
    }
}

/// The bullets in document order.
pub open spec fn md_items(lines: Seq<Seq<char>>) -> Seq<Item>
    decreases lines.len(),
{
    if lines.len() == 0 {
        seq![]
    } else if is_bullet(lines[0]) {
        seq![bullet(lines[0])] + md_items(lines.skip(1))
    } else {
        md_items(lines.skip(1))
    }
}

fn skip_hashes(chars: &Vec<char>, from: usize, to: usize) -> (r: usize)
    requires
        from <= to <= chars@.len(),
    ensures
        from <= r <= to,
        chars@.subrange(r as int, to as int) == unhashed(chars@.subrange(from as int, to as int)),
{
    let mut i: usize = from;
    while i < to && chars[i] == '#'
        invariant
            from <= i <= to <= chars@.len(),
            unhashed(chars@.subrange(i as int, to as int)) == unhashed(
                chars@.subrange(from as int, to as int),
            ),
        decreases to - i,
    {
        assert(chars@.subrange(i as int, to as int).skip(1) =~= chars@.subrange(i + 1, to as int));
        i = i + 1;
    }
    i
}

fn skip_dashes(chars: &Vec<char>, from: usize, to: usize) -> (r: usize)
    requires
        from <= to <= chars@.len(),
    ensures
        from <= r <= to,
        chars@.subrange(r as int, to as int) == undashed(chars@.subrange(from as int, to as int)),
{
    let mut i: usize = from;
    while i < to && (chars[i] == '-' || chars[i] == '*')
        invariant
            from <= i <= to <= chars@.len(),
            undashed(chars@.subrange(i as int, to as int)) == undashed(
                chars@.subrange(from as int, to as int),
            ),
        decreases to - i,
    {
        assert(chars@.subrange(i as int, to as int).skip(1) =~= chars@.subrange(i + 1, to as int));
        i = i + 1;
    }
    i
}

/// The text between `from` and `to` without white space around it.
fn trimmed_text(chars: &Vec<char>, from: usize, to: usize) -> (r: String)
    requires
        from <= to <= chars@.len(),
    ensures
        r@ == text::trimmed(chars@.subrange(from as int, to as int)),
{
    let first: usize = text::trim_start(chars, from, to);
    let last: usize = text::trim_end(chars, first, to);
    text::join(chars, first, last)
}

/// The heading and the bullets of a document.
pub fn parse(chars: &Vec<char>) -> (r: (String, Vec<(usize, String)>))
    ensures
        r.0@ == md_root(text::lines_of(chars@)),
        flat::listed(r.1@) == md_items(text::lines_of(chars@)),
        r.1@.len() <= chars@.len(),
{
    let spans = text::lines(chars);
    let ghost lines = text::lines_of(chars@);
    proof {
        text::lemma_few_lines(chars@);
    }
    let mut root = String::new();
    let mut named = false;
    let mut items: Vec<(usize, String)> = Vec::new();
    let mut i: usize = 0;
    assert(lines.skip(0) =~= lines);
    assert(flat::listed(items@) + md_items(lines) =~= md_items(lines));
    while i < spans.len()
        invariant
            lines == text::lines_of(chars@),
            lines.len() <= chars@.len(),
            spans@.len() == lines.len(),
            forall|k: int|
                0 <= k < spans@.len() ==> {
                    let (from, to) = #[trigger] spans@[k];
                    from <= to <= chars@.len() && chars@.subrange(from as int, to as int)
                        == lines[k]
                },
            i <= spans@.len(),
            items@.len() <= i,
            !named ==> root@ == Seq::<char>::empty() && md_root(lines.skip(i as int)) == md_root(
                lines,
            ),
            named ==> root@ == md_root(lines),
            flat::listed(items@) + md_items(lines.skip(i as int)) == md_items(lines),
        decreases spans@.len() - i,
    {
        let (from, to): (usize, usize) = spans[i];
        let start: usize = text::trim_start(chars, from, to);
        let ghost was = items@;
        let ghost line = lines[i as int];
        proof {
            assert(spans@[i as int] == (from, to));
            assert(lines.skip(i as int)[0] == line);
            assert(lines.skip(i as int).skip(1) =~= lines.skip(i + 1));
            let t = chars@.subrange(start as int, to as int);
            assert(t == text::trimmed_start(line));
            if start < to {
                assert(t[0] == chars@[start as int]);
            }
        }
        if start < to {
            if chars[start] == '#' {
                if !named {
                    let rest: usize = skip_hashes(chars, start, to);
                    root = trimmed_text(chars, rest, to);
                    named = true;
                }
            } else if chars[start] == '-' || chars[start] == '*' {
                let lead = text::join(chars, from, start);
                let width: usize = lead.as_str().as_bytes().len();
                let rest: usize = skip_dashes(chars, start, to);
                let label = trimmed_text(chars, rest, to);
                items.push((width / 2, label));
                proof {
                    assert(lead@ =~= lead_of(line));
                    let one = bullet(line);
                    assert(flat::listed(items@) =~= flat::listed(was).push(one));
                    assert(flat::listed(was) + (seq![one] + md_items(lines.skip(i + 1)))
                        =~= flat::listed(items@) + md_items(lines.skip(i + 1)));
                }
            }
        }
        i = i + 1;
    }
    proof {
        assert(lines.skip(i as int) =~= Seq::<Seq<char>>::empty());
        assert(flat::listed(items@) + Seq::<Item>::empty() =~= flat::listed(items@));
    }
    (root, items)
}

/// Parse an optional heading plus a nested bullet list back into a map.
///
/// The heading names the root. With no heading the root is empty and the top-level
/// bullets hang off it. A deeper-than-expected jump just attaches to the nearest
/// shallower node.
pub fn from_markdown(s: &str) -> (r: Graph)
    requires
        s@.len() <= grow::MOST_ITEMS,
    ensures
        grow::map_of(md_root(text::lines_of(s@)), md_items(text::lines_of(s@)), r@),
{
    let chars = text::chars(s);
    let (root, items) = parse(&chars);
    grow::build(root.as_str(), &items)
}

// ---------------------------------------------------------------------------
// Reading back what was written
// ---------------------------------------------------------------------------

/// A label that a line of Markdown gives back as it is: one line, without white
/// space around it.
pub open spec fn plain_label(t: Seq<char>) -> bool {
    &&& text::trimmed(t) == t
    &&& forall|i: int| 0 <= i < t.len() ==> #[trigger] t[i] != '\n'
}

/// The list of a map, of which every label is plain.
pub open spec fn plain_items(items: Seq<Item>) -> bool {
    forall|i: int| 0 <= i < items.len() ==> plain_label((#[trigger] items[i]).1)
}

/// Spaces take one byte each.
proof fn lemma_spaces_encode(n: nat)
    ensures
        encode_utf8(spaces(n)).len() == 2 * n,
{
    assert(is_ascii_chars(spaces(n)));
    is_ascii_chars_encode_utf8(spaces(n));
}

/// The line of an item below the root is a bullet that says what the item says.
proof fn lemma_bullet_back(item: Item)
    requires
        item.0 >= 1,
        plain_label(item.1),
    ensures
        !is_heading(md_line(item)),
        is_bullet(md_line(item)),
        bullet(md_line(item)) == ((item.0 - 1) as nat, item.1),
        md_line(item).last() != '\r',
        forall|i: int| 0 <= i < md_line(item).len() ==> #[trigger] md_line(item)[i] != '\n',
{
    let lead = spaces((item.0 - 1) as nat);
    let body = seq!['-', ' '] + item.1;
    let line = md_line(item);
    text::lemma_trim_start_some(lead, body);
    assert(text::trimmed_start(line) == body);
    assert(lead_of(line) =~= lead);
    lemma_spaces_encode((item.0 - 1) as nat);
    let rest = seq![' '] + item.1;
    assert(body.skip(1) =~= rest);
    assert(undashed(body) == undashed(rest));
    assert(undashed(rest) == rest);
    text::lemma_trimmed_ends(item.1);
    text::lemma_trim_start_some(seq![' '], item.1);
    text::lemma_trim_start_none(item.1);
    assert(text::trimmed(rest) == text::trimmed(item.1));
    if item.1.len() > 0 {
        assert(line.last() == item.1.last());
    } else {
        assert(line.last() == ' ');
    }
    assert forall|i: int| 0 <= i < line.len() implies #[trigger] line[i] != '\n' by {
        if i < lead.len() {
            assert(line[i] == lead[i]);
        } else if i >= lead.len() + 2 {
            assert(line[i] == item.1[i - lead.len() - 2]);
        }
    }
}

/// The line of the root is a heading that says what the root says.
proof fn lemma_heading_back(item: Item)
    requires
        item.0 == 0,
        plain_label(item.1),
    ensures
        is_heading(md_line(item)),
        !is_bullet(md_line(item)),
        text::trimmed(unhashed(text::trimmed_start(md_line(item)))) == item.1,
        md_line(item).last() != '\r',
        forall|i: int| 0 <= i < md_line(item).len() ==> #[trigger] md_line(item)[i] != '\n',
{
    let line = md_line(item);
    let rest = seq![' '] + item.1;
    text::lemma_trim_start_none(line);
    assert(line.skip(1) =~= rest);
    assert(unhashed(line) == unhashed(rest));
    assert(unhashed(rest) == rest);
    text::lemma_trimmed_ends(item.1);
    text::lemma_trim_start_some(seq![' '], item.1);
    text::lemma_trim_start_none(item.1);
    assert(text::trimmed(rest) == text::trimmed(item.1));
    if item.1.len() > 0 {
        assert(line.last() == item.1.last());
    } else {
        assert(line.last() == ' ');
    }
    assert forall|i: int| 0 <= i < line.len() implies #[trigger] line[i] != '\n' by {
        if i >= 2 {
            assert(line[i] == item.1[i - 2]);
        }
    }
}

/// Every item one level up.
pub open spec fn raised(items: Seq<Item>) -> Seq<Item> {
    items.map_values(|p: Item| ((p.0 - 1) as nat, p.1))
}

proof fn lemma_bullets_back(items: Seq<Item>)
    requires
        plain_items(items),
        forall|i: int| 0 <= i < items.len() ==> (#[trigger] items[i]).0 >= 1,
    ensures
        md_items(text::lines_of(md_text(items))) == raised(items),
        md_root(text::lines_of(md_text(items))) == Seq::<char>::empty(),
    decreases items.len(),
{
    if items.len() == 0 {
        assert(raised(items) =~= seq![]);
    } else {
        let rest = items.skip(1);
        assert forall|i: int| 0 <= i < rest.len() implies plain_label((#[trigger] rest[i]).1)
            && rest[i].0 >= 1 by {
            assert(rest[i] == items[i + 1]);
        }
        lemma_bullets_back(rest);
        lemma_bullet_back(items[0]);
        let line = md_line(items[0]);
        text::lemma_line_then(line, md_text(rest));
        let lines = text::lines_of(md_text(items));
        assert(lines =~= seq![line] + text::lines_of(md_text(rest)));
        assert(lines.skip(1) =~= text::lines_of(md_text(rest)));
        assert(raised(items) =~= seq![((items[0].0 - 1) as nat, items[0].1)] + raised(rest));
    }
}

/// What is written as Markdown reads back: the root's label, and the other items
/// in order, each one level up.
pub proof fn markdown_reads_back(items: Seq<Item>)
    requires
        items.len() > 0,
        items[0].0 == 0,
        forall|i: int| 0 < i < items.len() ==> (#[trigger] items[i]).0 >= 1,
        plain_items(items),
    ensures
        md_root(text::lines_of(md_text(items))) == items[0].1,
        md_items(text::lines_of(md_text(items))) == raised(items.skip(1)),
{
    let rest = items.skip(1);
    assert forall|i: int| 0 <= i < rest.len() implies plain_label((#[trigger] rest[i]).1)
        && rest[i].0 >= 1 by {
        assert(rest[i] == items[i + 1]);
    }
    lemma_bullets_back(rest);
    lemma_heading_back(items[0]);
    let line = md_line(items[0]);
    text::lemma_line_then(line, md_text(rest));
    let lines = text::lines_of(md_text(items));
    assert(lines =~= seq![line] + text::lines_of(md_text(rest)));
    assert(lines.skip(1) =~= text::lines_of(md_text(rest)));
}

proof fn lemma_unmarked_line(t: Seq<char>)
    requires
        text::one_line(t),
    ensures
        text::one_line(unhashed(t)),
        text::one_line(undashed(t)),
    decreases t.len(),
{
    if t.len() > 0 {
        text::lemma_one_line_skip(t, 1);
        lemma_unmarked_line(t.skip(1));
    }
}

proof fn lemma_line_label(line: Seq<char>)
    requires
        text::one_line(line),
    ensures
        plain_label(text::trimmed(unhashed(text::trimmed_start(line)))),
        plain_label(bullet(line).1),
{
    let t = text::trimmed_start(line);
    text::lemma_trimmed_line(line);
    lemma_unmarked_line(t);
    text::lemma_trimmed_line(unhashed(t));
    text::lemma_trimmed_line(undashed(t));
}

/// Every label that is read from Markdown is plain.
pub proof fn what_is_read_is_plain(lines: Seq<Seq<char>>)
    requires
        forall|i: int| 0 <= i < lines.len() ==> text::one_line(#[trigger] lines[i]),
    ensures
        plain_label(md_root(lines)),
        plain_items(md_items(lines)),
    decreases lines.len(),
{
    if lines.len() == 0 {
        text::lemma_trimmed_line(seq![]);
        assert(text::trimmed(seq![]) =~= seq![]);
    } else {
        let rest = lines.skip(1);
        assert forall|i: int| 0 <= i < rest.len() implies text::one_line(#[trigger] rest[i]) by {
            assert(rest[i] == lines[i + 1]);
        }
        what_is_read_is_plain(rest);
        lemma_line_label(lines[0]);
        let all = md_items(lines);
        assert forall|i: int| 0 <= i < all.len() implies plain_label((#[trigger] all[i]).1) by {
            if is_bullet(lines[0]) {
                if i > 0 {
                    assert(all[i] == md_items(rest)[i - 1]);
                }
            }
        }
    }
}

} // verus!
