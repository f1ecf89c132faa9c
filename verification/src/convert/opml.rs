//! OPML: nested `<outline text="...">` elements.

use vstd::prelude::*;
use crate::convert::escape;
use crate::convert::flat;
use crate::convert::flat::Item;
use crate::convert::grow;
use crate::convert::md;
use crate::graph::Graph;
use crate::text;

verus! {

broadcast use {vstd::std_specs::hash::group_hash_axioms, vstd::std_specs::btree::group_btree_axioms};

// ---------------------------------------------------------------------------
// Writing
// ---------------------------------------------------------------------------

/// The tag that begins an item, and ends it where nothing is in it.
pub open spec fn opening(item: Item, kids: bool) -> Seq<char> {
    md::spaces(item.0 + 2) + "<outline text=\""@ + escape::escaped(item.1) + (if kids {
        "\">\n"@
    } else {
        "\"/>\n"@
    })
}

/// The tags that end the elements from the level below `from` up to level `to`.
pub open spec fn closings(from: nat, to: nat) -> Seq<char>
    decreases from,
{
    if from <= to {
        seq![]
    } else {
        md::spaces((from + 1) as nat) + "</outline>\n"@ + closings((from - 1) as nat, to)
    }
}

/// The level of the item after the first; none after the last.
pub open spec fn next_level(items: Seq<Item>) -> nat {
    if items.len() > 1 {
        items[1].0
    } else {
        0
    }
}

/// The elements of some items, the last of which is followed by nothing.
pub open spec fn elements(items: Seq<Item>) -> Seq<char>
    decreases items.len(),
{
    if items.len() == 0 {
        seq![]
    } else {
        opening(items[0], next_level(items) > items[0].0) + closings(items[0].0, next_level(items))
            + elements(items.skip(1))
    }
}

/// What comes before the elements.
pub open spec fn preamble(title: Seq<char>) -> Seq<char> {
    "<?xml version=\"1.0\" encoding=\"UTF-8\"?>\n"@ + "<opml version=\"2.0\">\n"@ + "  <head>\n"@
        + "    <title>"@ + escape::escaped(title) + "</title>\n"@ + "  </head>\n"@ + "  <body>\n"@
}

pub open spec fn opml_text(title: Seq<char>, items: Seq<Item>) -> Seq<char> {
    preamble(title) + elements(items) + "  </body>\n"@ + "</opml>\n"@
}

fn push_escaped(out: &mut String, label: &str)
    ensures
        final(out)@ == old(out)@ + escape::escaped(label@),
{
    let raw = text::chars(label);
    let esc = escape::xml_escape(&raw);
    let esc = text::join(&esc, 0, esc.len());
    assert(esc@ =~= escape::escaped(label@));
    out.push_str(esc.as_str());
}

fn push_closings(out: &mut String, from: usize, to: usize)
    ensures
        final(out)@ == old(out)@ + closings(from as nat, to as nat),
{
    let ghost start = out@;
    let mut level: usize = from;
    assert(start + closings(from as nat, to as nat) == out@ + closings(from as nat, to as nat));
    while level > to
        invariant
            level <= from,
            start + closings(from as nat, to as nat) == out@ + closings(level as nat, to as nat),
        decreases level,
    {
        let ghost was = out@;
        md::indent(out, 1);
        md::indent(out, level);
        assert(out@ =~= was + md::spaces(level as nat + 1));
        out.push_str("</outline>\n");
        proof {
            let one = md::spaces((level + 1) as nat) + "</outline>\n"@;
            let rest = closings((level - 1) as nat, to as nat);
            assert(was + (one + rest) =~= (was + md::spaces((level + 1) as nat) + "</outline>\n"@)
                + rest);
        }
        level = level - 1;
    }
    assert(out@ + Seq::<char>::empty() =~= out@);
}

/// Valid OPML 2.0 with nested `<outline text="...">`. The text attribute is
/// escaped.
pub fn to_opml(g: &Graph) -> (r: String)
    requires
        g@.has(g@.root),
        g@.grounded(),
    ensures
        r@ == opml_text(g@.nodes[g@.root].text, g@.items()),
{
    let items = g.items();
    let ghost all = flat::listed(items@);
    let mut out = String::new();
    out.push_str("<?xml version=\"1.0\" encoding=\"UTF-8\"?>\n");
    out.push_str("<opml version=\"2.0\">\n");
    out.push_str("  <head>\n");
    out.push_str("    <title>");
    match g.nodes.get(&g.root_id) {
        Some(n) => push_escaped(&mut out, n.text.as_str()),
        None => {},
    }
    out.push_str("</title>\n");
    out.push_str("  </head>\n");
    out.push_str("  <body>\n");
    let ghost start = preamble(g@.nodes[g@.root].text);
    assert(out@ =~= start);
    let mut i: usize = 0;
    assert(all.skip(0) =~= all);
    while i < items.len()
        invariant
            all == flat::listed(items@),
            i <= items@.len(),
            out@ + elements(all.skip(i as int)) == start + elements(all),
        decreases items@.len() - i,
    {
        let ghost was = out@;
        let depth: usize = items[i].0;
        let next: usize = if i + 1 < items.len() {
            items[i + 1].0
        } else {
            0
        };
        let ghost rest = all.skip(i as int);
        proof {
            assert(items@[i as int].0 == depth);
            assert(rest[0] == all[i as int]);
            assert(next == next_level(rest));
            assert(rest.skip(1) =~= all.skip(i + 1));
        }
        md::indent(&mut out, 2);
        md::indent(&mut out, depth);
        assert(out@ =~= was + md::spaces(depth as nat + 2));
        out.push_str("<outline text=\"");
        push_escaped(&mut out, items[i].1.as_str());
        if next > depth {
            out.push_str("\">\n");
        } else {
            out.push_str("\"/>\n");
        }
        assert(out@ =~= was + opening(all[i as int], next > depth));
        push_closings(&mut out, depth, next);
        proof {
            let a = opening(all[i as int], next > depth);
            let b = closings(depth as nat, next as nat);
            let c = elements(rest.skip(1));
            assert(was + (a + b + c) =~= (was + a + b) + c);
        }
        i = i + 1;
    }
    proof {
        assert(all.skip(i as int) =~= Seq::<Item>::empty());
        assert(out@ + Seq::<char>::empty() =~= out@);
    }
    out.push_str("  </body>\n");
    out.push_str("</opml>\n");
    out
}

// ---------------------------------------------------------------------------
// Reading
// ---------------------------------------------------------------------------

/// Where `c` first stands in `s`; past the end if it does not.
pub open spec fn find_char(s: Seq<char>, c: char) -> int
    decreases s.len(),
{
    if s.len() == 0 || s[0] == c {
        0
    } else {
        1 + find_char(s.skip(1), c)
    }
}

pub open spec fn begins(s: Seq<char>, part: Seq<char>) -> bool {
    part.len() <= s.len() && s.take(part.len() as int) == part
}

/// Where `part` first stands in `s`, if it does.
pub open spec fn find_part(s: Seq<char>, part: Seq<char>) -> Option<int>
    decreases s.len(),
{
    if begins(s, part) {
        Some(0)
    } else if s.len() == 0 {
        None
    } else {
        match find_part(s.skip(1), part) {
            Some(k) => Some(k + 1),
            None => None,
        }
    }
}

/// What follows the equals sign and the quote in `s`, up to the next such quote.
pub open spec fn quoted(s: Seq<char>) -> Seq<char> {
    let a = text::trimmed_start(s);
    if a.len() == 0 || a[0] != '=' {
        seq![]
    } else {
        let b = text::trimmed_start(a.skip(1));
        if b.len() == 0 || (b[0] != '"' && b[0] != '\'') {
            seq![]
        } else {
            let k = find_char(b.skip(1), b[0]);
            if k < b.skip(1).len() {
                b.skip(1).take(k)
            } else {
                seq![]
            }
        }
    }
}

/// The text attribute of an opening tag.
pub open spec fn attribute(tag: Seq<char>) -> Seq<char> {
    match find_part(tag, "text"@) {
        Some(k) => escape::unescaped(quoted(tag.skip(k + 4))),
        None => seq![],
    }
}

pub open spec fn closes_itself(tag: Seq<char>) -> bool {
    let t = text::trimmed_end(tag);
    t.len() > 0 && t.last() == '/'
}

/// What the items come to at the end. An element that is still open is lost, with
/// what is in it.
pub open spec fn finished(items: Seq<Item>, open: Seq<nat>) -> Seq<Item> {
    if open.len() > 0 {
        items.take(open[0] as int)
    } else {
        items
    }
}

/// `s` past the tag it begins with, or past its first character where that tag
/// does not end.
pub open spec fn past_tag(s: Seq<char>) -> Seq<char> {
    let k = find_char(s, '>');
    if k < s.len() {
        s.skip(k + 1)
    } else {
        s.skip(1)
    }
}

/// The items of the rest of a text, after `items`, with the elements begun by the
/// items at `open` still open.
pub open spec fn scanned(s: Seq<char>, items: Seq<Item>, open: Seq<nat>) -> Seq<Item>
    decreases s.len(),
    via scanned_shrinks
{
    if s.len() == 0 {
        finished(items, open)
    } else if s[0] != '<' {
        scanned(s.skip(1), items, open)
    } else if begins(s, "</outline"@) {
        scanned(
            past_tag(s),
            items,
            if open.len() > 0 {
                open.drop_last()
            } else {
                open
            },
        )
    } else if begins(s, "<outline"@) {
        let k = find_char(s, '>');
        if k < s.len() {
            let tag = s.take(k);
            scanned(
                s.skip(k + 1),
                items.push((open.len(), attribute(tag))),
                if closes_itself(tag) {
                    open
                } else {
                    open.push(items.len())
                },
            )
        } else {
            finished(items, open)
        }
    } else {
        scanned(past_tag(s), items, open)
    }
}

#[via_fn]
proof fn scanned_shrinks(s: Seq<char>, items: Seq<Item>, open: Seq<nat>) {
    lemma_find_char(s, '>');
}

pub proof fn lemma_find_char(s: Seq<char>, c: char)
    ensures
        0 <= find_char(s, c) <= s.len(),
        forall|i: int| 0 <= i < find_char(s, c) ==> #[trigger] s[i] != c,
        find_char(s, c) < s.len() ==> s[find_char(s, c)] == c,
    decreases s.len(),
{
    if s.len() > 0 && s[0] != c {
        let t = s.skip(1);
        lemma_find_char(t, c);
        assert forall|i: int| 0 <= i < find_char(s, c) implies #[trigger] s[i] != c by {
            if i > 0 {
                assert(t[i - 1] == s[i]);
            }
        }
        if find_char(s, c) < s.len() {
            assert(t[find_char(t, c)] == s[find_char(s, c)]);
        }
    }
}

/// The first that is `c`, with none before it.
pub proof fn lemma_find_char_at(s: Seq<char>, c: char, k: int)
    requires
        0 <= k <= s.len(),
        forall|i: int| 0 <= i < k ==> #[trigger] s[i] != c,
        k < s.len() ==> s[k] == c,
    ensures
        find_char(s, c) == k,
{
    lemma_find_char(s, c);
    let m = find_char(s, c);
    if m < k {
        assert(s[m] != c);
    } else if k < m {
        assert(s[k] != c);
    }
}

fn seek(chars: &Vec<char>, from: usize, to: usize, c: char) -> (r: usize)
    requires
        from <= to <= chars@.len(),
    ensures
        from <= r <= to,
        r - from == find_char(chars@.subrange(from as int, to as int), c),
{
    let mut i: usize = from;
    while i < to && chars[i] != c
        invariant
            from <= i <= to <= chars@.len(),
            forall|k: int| from <= k < i ==> #[trigger] chars@[k] != c,
        decreases to - i,
    {
        i = i + 1;
    }
    proof {
        lemma_find_char_at(chars@.subrange(from as int, to as int), c, i - from);
    }
    i
}

fn stands(chars: &Vec<char>, from: usize, to: usize, part: &Vec<char>) -> (r: bool)
    requires
        from <= to <= chars@.len(),
    ensures
        r == begins(chars@.subrange(from as int, to as int), part@),
{
    let ghost s = chars@.subrange(from as int, to as int);
    if part.len() > to - from {
        return false;
    }
    let mut k: usize = 0;
    while k < part.len()
        invariant
            from <= to <= chars@.len(),
            part@.len() <= to - from,
            s == chars@.subrange(from as int, to as int),
            k <= part@.len(),
            forall|m: int| 0 <= m < k ==> s[m] == #[trigger] part@[m],
        decreases part@.len() - k,
    {
        if chars[from + k] != part[k] {
            assert(s.take(part@.len() as int)[k as int] != part@[k as int]);
            return false;
        }
        k = k + 1;
    }
    assert(s.take(part@.len() as int) =~= part@);
    true
}

/// Where `part` first stands between `from` and `to`.
fn locate(chars: &Vec<char>, from: usize, to: usize, part: &Vec<char>) -> (r: Option<usize>)
    requires
        from <= to <= chars@.len(),
    ensures
        match r {
            Some(k) => from <= k && k + part@.len() <= to && find_part(
                chars@.subrange(from as int, to as int),
                part@,
            ) == Some(k - from),
            None => find_part(chars@.subrange(from as int, to as int), part@) is None,
        },
{
    let ghost s = chars@.subrange(from as int, to as int);
    let mut i: usize = from;
    assert(chars@.subrange(i as int, to as int) == s);
    while i < to
        invariant
            from <= i <= to <= chars@.len(),
            s == chars@.subrange(from as int, to as int),
            find_part(s, part@) == (match find_part(chars@.subrange(i as int, to as int), part@) {
                Some(k) => Some(k + (i - from)),
                None => None,
            }),
        decreases to - i,
    {
        let ghost t = chars@.subrange(i as int, to as int);
        if stands(chars, i, to, part) {
            return Some(i);
        }
        assert(t.skip(1) =~= chars@.subrange(i + 1, to as int));
        i = i + 1;
    }
    if part.len() == 0 {
        proof {
            let t = chars@.subrange(to as int, to as int);
            assert(t.take(0) =~= part@);
        }
        return Some(to);
    }
    None
}

/// The text attribute of an opening tag.
fn extract_text_attr(chars: &Vec<char>, from: usize, to: usize, key: &Vec<char>) -> (r: String)
    requires
        from <= to <= chars@.len(),
        key@ == "text"@,
    ensures
        r@ == attribute(chars@.subrange(from as int, to as int)),
{
    let ghost tag = chars@.subrange(from as int, to as int);
    proof {
        reveal_strlit("text");
    }
    let at: usize = match locate(chars, from, to, key) {
        Some(k) => k,
        None => {
            return String::new();
        },
    };
    let start: usize = at + key.len();
    assert(tag.skip(at - from + 4) =~= chars@.subrange(start as int, to as int));
    let (a, b): (usize, usize) = quoted_span(chars, start, to);
    let raw = text::join(chars, a, b);
    let raw = text::chars(raw.as_str());
    let plain = escape::xml_unescape(&raw);
    let r = text::join(&plain, 0, plain.len());
    assert(plain@.subrange(0, plain@.len() as int) =~= plain@);
    r
}

/// Where what is quoted begins and ends.
fn quoted_span(chars: &Vec<char>, from: usize, to: usize) -> (r: (usize, usize))
    requires
        from <= to <= chars@.len(),
    ensures
        r.0 <= r.1 <= chars@.len(),
        chars@.subrange(r.0 as int, r.1 as int) == quoted(
            chars@.subrange(from as int, to as int),
        ),
{
    assert(chars@.subrange(from as int, from as int) =~= seq![]);
    let a: usize = text::trim_start(chars, from, to);
    if a == to || chars[a] != '=' {
        return (from, from);
    }
    assert(chars@.subrange(a as int, to as int).skip(1) =~= chars@.subrange(a + 1, to as int));
    let b: usize = text::trim_start(chars, a + 1, to);
    if b == to || (chars[b] != '"' && chars[b] != '\'') {
        return (from, from);
    }
    assert(chars@.subrange(b as int, to as int).skip(1) =~= chars@.subrange(b + 1, to as int));
    let end: usize = seek(chars, b + 1, to, chars[b]);
    if end == to {
        return (from, from);
    }
    assert(chars@.subrange(b + 1, to as int).take(end - (b + 1)) =~= chars@.subrange(
        b + 1,
        end as int,
    ));
    (b + 1, end)
}

/// Scan for `<outline>` nesting. Returns every outline with its level. Other tags
/// are skipped.
pub fn parse_outlines(chars: &Vec<char>) -> (r: Vec<(usize, String)>)
    ensures
        flat::listed(r@) == scanned(chars@, seq![], seq![]),
        r@.len() <= chars@.len(),
{
    let n: usize = chars.len();
    let begin = text::chars("<outline");
    let end = text::chars("</outline");
    let key = text::chars("text");
    let mut items: Vec<(usize, String)> = Vec::new();
    let mut open: Vec<usize> = Vec::new();
    let mut i: usize = 0;
    let ghost want = scanned(chars@, seq![], seq![]);
    proof {
        reveal_strlit("<outline");
        reveal_strlit("</outline");
        assert(chars@.subrange(0, n as int) =~= chars@);
        assert(flat::listed(items@) =~= seq![]);
        assert(open@.map_values(|k: usize| k as nat) =~= seq![]);
    }
    while i < n
        invariant_except_break
            n == chars@.len(),
            begin@ == "<outline"@,
            end@ == "</outline"@,
            key@ == "text"@,
            i <= n,
            items@.len() <= i,
            forall|k: int| 0 <= k < open@.len() ==> #[trigger] open@[k] < items@.len(),
            open@.len() <= items@.len(),
            want == scanned(
                chars@.subrange(i as int, n as int),
                flat::listed(items@),
                open@.map_values(|k: usize| k as nat),
            ),
        ensures
            items@.len() <= chars@.len(),
            forall|k: int| 0 <= k < open@.len() ==> #[trigger] open@[k] < items@.len(),
            want == finished(flat::listed(items@), open@.map_values(|k: usize| k as nat)),
        decreases n - i,
    {
        let ghost s = chars@.subrange(i as int, n as int);
        let ghost at = open@.map_values(|k: usize| k as nat);
        let ghost list = flat::listed(items@);
        assert(s[0] == chars@[i as int]);
        if chars[i] != '<' {
            assert(s.skip(1) =~= chars@.subrange(i + 1, n as int));
            i = i + 1;
        } else {
            let closing = stands(chars, i, n, &end);
            let opening = stands(chars, i, n, &begin);
            let k: usize = seek(chars, i, n, '>');
            let next: usize = if k < n {
                k + 1
            } else {
                i + 1
            };
            assert(past_tag(s) =~= chars@.subrange(next as int, n as int));
            if closing {
                if open.len() > 0 {
                    open.pop();
                    assert(open@.map_values(|k: usize| k as nat) =~= at.drop_last());
                }
                i = next;
            } else if opening {
                // No closing bracket means a truncated tag.
                if k == n {
                    break ;
                }
                let last: usize = text::trim_end(chars, i, k);
                let alone = last > i && chars[last - 1] == '/';
                let label = extract_text_attr(chars, i, k, &key);
                proof {
                    assert(s.take(k - i) =~= chars@.subrange(i as int, k as int));
                    assert(s.skip(k - i + 1) =~= chars@.subrange(next as int, n as int));
                    let t = chars@.subrange(i as int, last as int);
                    if last > i {
                        assert(t.last() == chars@[last - 1]);
                    }
                }
                let count: usize = items.len();
                let ghost one = (at.len(), label@);
                items.push((open.len(), label));
                assert(flat::listed(items@) =~= list.push(one));
                if !alone {
                    open.push(count);
                    assert(open@.map_values(|k: usize| k as nat) =~= at.push(list.len()));
                }
                i = next;
            } else {
                i = next;
            }
        }
        assert(i == n ==> chars@.subrange(i as int, n as int) =~= seq![]);
    }
    if open.len() > 0 {
        let cut: usize = open[0];
        let ghost all = items@;
        items.truncate(cut);
        assert(flat::listed(items@) =~= flat::listed(all).take(cut as int));
    }
    items
}

/// How many of the items are at the top.
pub open spec fn tops(items: Seq<Item>) -> nat
    decreases items.len(),
{
    if items.len() == 0 {
        0
    } else {
        tops(items.drop_last()) + (if items.last().0 == 0 {
            1nat
        } else {
            0
        })
    }
}

/// What names the root, and what hangs under it: a single item at the top is the
/// root, and several get an empty one.
pub open spec fn rooted_items(items: Seq<Item>) -> (Seq<char>, Seq<Item>) {
    if tops(items) == 1 {
        (items[0].1, items.skip(1))
    } else {
        (seq![], items)
    }
}

/// Parse nested `<outline text="...">` into a map.
///
/// A single top-level outline becomes the root. Several top-level outlines get an
/// empty root.
pub fn from_opml(s: &str) -> (r: Graph)
    requires
        s@.len() <= grow::MOST_ITEMS,
    ensures
        ({
            let (root, items) = rooted_items(scanned(s@, seq![], seq![]));
            grow::map_of(root, items, r@)
        }),
{
    let chars = text::chars(s);
    let mut items = parse_outlines(&chars);
    let ghost all = flat::listed(items@);
    let mut n: usize = 0;
    let mut i: usize = 0;
    while i < items.len()
        invariant
            all == flat::listed(items@),
            i <= items@.len(),
            n <= i,
            n == tops(all.take(i as int)),
        decreases items@.len() - i,
    {
        assert(all.take(i + 1).drop_last() =~= all.take(i as int));
        assert(all[i as int].0 == items@[i as int].0);
        if items[i].0 == 0 {
            n = n + 1;
        }
        i = i + 1;
    }
    assert(all.take(i as int) =~= all);
    if n == 1 {
        let first = items.remove(0);
        assert(flat::listed(items@) =~= all.skip(1));
        grow::build(first.1.as_str(), &items)
    } else {
        let empty = String::new();
        grow::build(empty.as_str(), &items)
    }
}

} // verus!
