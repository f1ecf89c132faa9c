//! What is written as OPML or Markdown reads back. That a second trip changes
//! nothing is in [`crate::convert::steady`].

use vstd::prelude::*;
use crate::convert::escape;
use crate::convert::flat;
use crate::convert::flat::Item;
use crate::convert::grow;
use crate::convert::md;
use crate::convert::opml;
use crate::graph::model::GraphModel;
use crate::graph::outline;
use crate::text;

verus! {

// ---------------------------------------------------------------------------
// Tags
// ---------------------------------------------------------------------------

/// Text without tags is passed over.
proof fn lemma_skip(t: Seq<char>, rest: Seq<char>, items: Seq<Item>, open: Seq<nat>)
    requires
        forall|i: int| 0 <= i < t.len() ==> #[trigger] t[i] != '<',
    ensures
        opml::scanned(t + rest, items, open) == opml::scanned(rest, items, open),
    decreases t.len(),
{
    if t.len() == 0 {
        assert(t + rest =~= rest);
    } else {
        let s = t + rest;
        let u = t.skip(1);
        assert(s.skip(1) =~= u + rest);
        assert(s[0] == t[0]);
        assert forall|i: int| 0 <= i < u.len() implies #[trigger] u[i] != '<' by {
            assert(u[i] == t[i + 1]);
        }
        lemma_skip(u, rest, items, open);
    }
}

/// The tag that `t` begins with ends at `k`.
proof fn lemma_tag_end(t: Seq<char>, k: int, rest: Seq<char>)
    requires
        0 <= k < t.len(),
        t[k] == '>',
        forall|i: int| 0 <= i < k ==> #[trigger] t[i] != '>',
    ensures
        opml::find_char(t + rest, '>') == k,
{
    let s = t + rest;
    assert forall|i: int| 0 <= i < k implies #[trigger] s[i] != '>' by {
        assert(s[i] == t[i]);
    }
    opml::lemma_find_char_at(s, '>', k);
}

/// Where two texts differ, the one does not begin with the other.
proof fn lemma_not_begins(s: Seq<char>, part: Seq<char>, m: int)
    requires
        0 <= m < part.len(),
        m < s.len() ==> s[m] != part[m],
    ensures
        !opml::begins(s, part),
{
    if opml::begins(s, part) {
        assert(s.take(part.len() as int)[m] == s[m]);
    }
}

/// A line with another tag on it, from `a` to `k`, is passed over.
proof fn lemma_other(
    t: Seq<char>,
    a: int,
    k: int,
    m: int,
    n: int,
    rest: Seq<char>,
    items: Seq<Item>,
    open: Seq<nat>,
)
    requires
        0 <= a < k < t.len(),
        t[a] == '<',
        t[k] == '>',
        forall|i: int| 0 <= i < a ==> #[trigger] t[i] != '<',
        forall|i: int| a <= i < k ==> #[trigger] t[i] != '>',
        forall|i: int| k < i < t.len() ==> #[trigger] t[i] != '<',
        0 <= m < "<outline"@.len(),
        0 <= n < "</outline"@.len(),
        a + m < t.len(),
        a + n < t.len(),
        t[a + m] != "<outline"@[m],
        t[a + n] != "</outline"@[n],
    ensures
        opml::scanned(t + rest, items, open) == opml::scanned(rest, items, open),
{
    let lead = t.take(a);
    let tag = t.subrange(a, k + 1);
    let tail = t.skip(k + 1);
    assert(t + rest =~= lead + (tag + (tail + rest)));
    lemma_skip(lead, tag + (tail + rest), items, open);
    let s = tag + (tail + rest);
    assert forall|i: int| 0 <= i < k - a implies #[trigger] tag[i] != '>' by {
        assert(tag[i] == t[a + i]);
    }
    lemma_tag_end(tag, k - a, tail + rest);
    assert(s[m] == t[a + m]) by {
        assert(t.skip(a) + rest =~= s);
    }
    assert(s[n] == t[a + n]) by {
        assert(t.skip(a) + rest =~= s);
    }
    lemma_not_begins(s, "<outline"@, m);
    lemma_not_begins(s, "</outline"@, n);
    assert(opml::past_tag(s) =~= tail + rest);
    assert forall|i: int| 0 <= i < tail.len() implies #[trigger] tail[i] != '<' by {
        assert(tail[i] == t[k + 1 + i]);
    }
    lemma_skip(tail, rest, items, open);
}

proof fn lemma_xml(rest: Seq<char>, items: Seq<Item>, open: Seq<nat>)
    ensures
        opml::scanned("<?xml version=\"1.0\" encoding=\"UTF-8\"?>\n"@ + rest, items, open) == opml::scanned(rest, items, open),
{
    reveal_strlit("<?xml version=\"1.0\" encoding=\"UTF-8\"?>\n");
    reveal_strlit("<outline");
    reveal_strlit("</outline");
    let t = "<?xml version=\"1.0\" encoding=\"UTF-8\"?>\n"@;
    assert forall|i: int| 0 <= i < 37 implies #[trigger] t[i] != '>' by {
        assert(i == 0 || i == 1 || i == 2 || i == 3 || i == 4 || i == 5 || i == 6 || i == 7 || i == 8 || i == 9 || i == 10 || i == 11 || i == 12 || i == 13 || i == 14 || i == 15 || i == 16 || i == 17 || i == 18 || i == 19 || i == 20 || i == 21 || i == 22 || i == 23 || i == 24 || i == 25 || i == 26 || i == 27 || i == 28 || i == 29 || i == 30 || i == 31 || i == 32 || i == 33 || i == 34 || i == 35 || i == 36);
    }
    assert forall|i: int| 37 < i < t.len() implies #[trigger] t[i] != '<' by {
        assert(i == 38);
    }
    lemma_other(t, 0, 37, 1, 1, rest, items, open);
}

proof fn lemma_opml(rest: Seq<char>, items: Seq<Item>, open: Seq<nat>)
    ensures
        opml::scanned("<opml version=\"2.0\">\n"@ + rest, items, open) == opml::scanned(rest, items, open),
{
    reveal_strlit("<opml version=\"2.0\">\n");
    reveal_strlit("<outline");
    reveal_strlit("</outline");
    let t = "<opml version=\"2.0\">\n"@;
    assert forall|i: int| 0 <= i < 19 implies #[trigger] t[i] != '>' by {
        assert(i == 0 || i == 1 || i == 2 || i == 3 || i == 4 || i == 5 || i == 6 || i == 7 || i == 8 || i == 9 || i == 10 || i == 11 || i == 12 || i == 13 || i == 14 || i == 15 || i == 16 || i == 17 || i == 18);
    }
    assert forall|i: int| 19 < i < t.len() implies #[trigger] t[i] != '<' by {
        assert(i == 20);
    }
    lemma_other(t, 0, 19, 2, 1, rest, items, open);
}

proof fn lemma_head(rest: Seq<char>, items: Seq<Item>, open: Seq<nat>)
    ensures
        opml::scanned("  <head>\n"@ + rest, items, open) == opml::scanned(rest, items, open),
{
    reveal_strlit("  <head>\n");
    reveal_strlit("<outline");
    reveal_strlit("</outline");
    let t = "  <head>\n"@;
    assert forall|i: int| 0 <= i < 2 implies #[trigger] t[i] != '<' by {
        assert(i == 0 || i == 1);
    }
    assert forall|i: int| 2 <= i < 7 implies #[trigger] t[i] != '>' by {
        assert(i == 2 || i == 3 || i == 4 || i == 5 || i == 6);
    }
    assert forall|i: int| 7 < i < t.len() implies #[trigger] t[i] != '<' by {
        assert(i == 8);
    }
    lemma_other(t, 2, 7, 1, 1, rest, items, open);
}

proof fn lemma_title(rest: Seq<char>, items: Seq<Item>, open: Seq<nat>)
    ensures
        opml::scanned("    <title>"@ + rest, items, open) == opml::scanned(rest, items, open),
{
    reveal_strlit("    <title>");
    reveal_strlit("<outline");
    reveal_strlit("</outline");
    let t = "    <title>"@;
    assert forall|i: int| 0 <= i < 4 implies #[trigger] t[i] != '<' by {
        assert(i == 0 || i == 1 || i == 2 || i == 3);
    }
    assert forall|i: int| 4 <= i < 10 implies #[trigger] t[i] != '>' by {
        assert(i == 4 || i == 5 || i == 6 || i == 7 || i == 8 || i == 9);
    }
    lemma_other(t, 4, 10, 1, 1, rest, items, open);
}

proof fn lemma_untitle(rest: Seq<char>, items: Seq<Item>, open: Seq<nat>)
    ensures
        opml::scanned("</title>\n"@ + rest, items, open) == opml::scanned(rest, items, open),
{
    reveal_strlit("</title>\n");
    reveal_strlit("<outline");
    reveal_strlit("</outline");
    let t = "</title>\n"@;
    assert forall|i: int| 0 <= i < 7 implies #[trigger] t[i] != '>' by {
        assert(i == 0 || i == 1 || i == 2 || i == 3 || i == 4 || i == 5 || i == 6);
    }
    assert forall|i: int| 7 < i < t.len() implies #[trigger] t[i] != '<' by {
        assert(i == 8);
    }
    lemma_other(t, 0, 7, 1, 2, rest, items, open);
}

proof fn lemma_unhead(rest: Seq<char>, items: Seq<Item>, open: Seq<nat>)
    ensures
        opml::scanned("  </head>\n"@ + rest, items, open) == opml::scanned(rest, items, open),
{
    reveal_strlit("  </head>\n");
    reveal_strlit("<outline");
    reveal_strlit("</outline");
    let t = "  </head>\n"@;
    assert forall|i: int| 0 <= i < 2 implies #[trigger] t[i] != '<' by {
        assert(i == 0 || i == 1);
    }
    assert forall|i: int| 2 <= i < 8 implies #[trigger] t[i] != '>' by {
        assert(i == 2 || i == 3 || i == 4 || i == 5 || i == 6 || i == 7);
    }
    assert forall|i: int| 8 < i < t.len() implies #[trigger] t[i] != '<' by {
        assert(i == 9);
    }
    lemma_other(t, 2, 8, 1, 2, rest, items, open);
}

proof fn lemma_body(rest: Seq<char>, items: Seq<Item>, open: Seq<nat>)
    ensures
        opml::scanned("  <body>\n"@ + rest, items, open) == opml::scanned(rest, items, open),
{
    reveal_strlit("  <body>\n");
    reveal_strlit("<outline");
    reveal_strlit("</outline");
    let t = "  <body>\n"@;
    assert forall|i: int| 0 <= i < 2 implies #[trigger] t[i] != '<' by {
        assert(i == 0 || i == 1);
    }
    assert forall|i: int| 2 <= i < 7 implies #[trigger] t[i] != '>' by {
        assert(i == 2 || i == 3 || i == 4 || i == 5 || i == 6);
    }
    assert forall|i: int| 7 < i < t.len() implies #[trigger] t[i] != '<' by {
        assert(i == 8);
    }
    lemma_other(t, 2, 7, 1, 1, rest, items, open);
}

proof fn lemma_unbody(rest: Seq<char>, items: Seq<Item>, open: Seq<nat>)
    ensures
        opml::scanned("  </body>\n"@ + rest, items, open) == opml::scanned(rest, items, open),
{
    reveal_strlit("  </body>\n");
    reveal_strlit("<outline");
    reveal_strlit("</outline");
    let t = "  </body>\n"@;
    assert forall|i: int| 0 <= i < 2 implies #[trigger] t[i] != '<' by {
        assert(i == 0 || i == 1);
    }
    assert forall|i: int| 2 <= i < 8 implies #[trigger] t[i] != '>' by {
        assert(i == 2 || i == 3 || i == 4 || i == 5 || i == 6 || i == 7);
    }
    assert forall|i: int| 8 < i < t.len() implies #[trigger] t[i] != '<' by {
        assert(i == 9);
    }
    lemma_other(t, 2, 8, 1, 2, rest, items, open);
}

proof fn lemma_unopml(rest: Seq<char>, items: Seq<Item>, open: Seq<nat>)
    ensures
        opml::scanned("</opml>\n"@ + rest, items, open) == opml::scanned(rest, items, open),
{
    reveal_strlit("</opml>\n");
    reveal_strlit("<outline");
    reveal_strlit("</outline");
    let t = "</opml>\n"@;
    assert forall|i: int| 0 <= i < 6 implies #[trigger] t[i] != '>' by {
        assert(i == 0 || i == 1 || i == 2 || i == 3 || i == 4 || i == 5);
    }
    assert forall|i: int| 6 < i < t.len() implies #[trigger] t[i] != '<' by {
        assert(i == 7);
    }
    lemma_other(t, 0, 6, 1, 3, rest, items, open);
}

/// What comes before the elements is passed over.
proof fn lemma_preamble(title: Seq<char>, rest: Seq<char>)
    ensures
        opml::scanned(opml::preamble(title) + rest, seq![], seq![]) == opml::scanned(
            rest,
            seq![],
            seq![],
        ),
{
    let l1 = "<?xml version=\"1.0\" encoding=\"UTF-8\"?>\n"@;
    let l2 = "<opml version=\"2.0\">\n"@;
    let l3 = "  <head>\n"@;
    let l4 = "    <title>"@;
    let l5 = escape::escaped(title);
    let l6 = "</title>\n"@;
    let l7 = "  </head>\n"@;
    let l8 = "  <body>\n"@;
    let r8 = l8 + rest;
    let r7 = l7 + r8;
    let r6 = l6 + r7;
    let r5 = l5 + r6;
    let r4 = l4 + r5;
    let r3 = l3 + r4;
    let r2 = l2 + r3;
    assert(opml::preamble(title) + rest =~= l1 + r2);
    lemma_xml(r2, seq![], seq![]);
    lemma_opml(r3, seq![], seq![]);
    lemma_head(r4, seq![], seq![]);
    lemma_title(r5, seq![], seq![]);
    escape::escaped_is_safe(title);
    lemma_skip(l5, r6, seq![], seq![]);
    lemma_untitle(r7, seq![], seq![]);
    lemma_unhead(r8, seq![], seq![]);
    lemma_body(rest, seq![], seq![]);
}

/// An end tag closes the element that was opened last.
proof fn lemma_closing(rest: Seq<char>, items: Seq<Item>, open: Seq<nat>)
    requires
        open.len() > 0,
    ensures
        opml::scanned("</outline>\n"@ + rest, items, open) == opml::scanned(
            rest,
            items,
            open.drop_last(),
        ),
{
    reveal_strlit("</outline>\n");
    reveal_strlit("</outline");
    let t = "</outline>\n"@;
    let s = t + rest;
    assert forall|i: int| 0 <= i < 9 implies #[trigger] t[i] != '>' by {
        assert(i == 0 || i == 1 || i == 2 || i == 3 || i == 4 || i == 5 || i == 6 || i == 7 || i
            == 8);
    }
    lemma_tag_end(t, 9, rest);
    assert(s.take(9) =~= "</outline"@);
    assert(opml::past_tag(s) =~= seq!['\n'] + rest);
    lemma_skip(seq!['\n'], rest, items, open.drop_last());
}

/// End tags close as many elements as there are of them.
proof fn lemma_closings(
    from: nat,
    to: nat,
    rest: Seq<char>,
    items: Seq<Item>,
    open: Seq<nat>,
)
    requires
        to <= from,
        open.len() == from,
    ensures
        opml::scanned(opml::closings(from, to) + rest, items, open) == opml::scanned(
            rest,
            items,
            open.take(to as int),
        ),
    decreases from,
{
    if from <= to {
        assert(opml::closings(from, to) + rest =~= rest);
        assert(open.take(to as int) =~= open);
    } else {
        let lead = md::spaces((from + 1) as nat);
        let tag = "</outline>\n"@;
        let more = opml::closings((from - 1) as nat, to);
        assert(opml::closings(from, to) + rest =~= lead + (tag + (more + rest)));
        lemma_skip(lead, tag + (more + rest), items, open);
        lemma_closing(more + rest, items, open);
        lemma_closings((from - 1) as nat, to, rest, items, open.drop_last());
        assert(open.drop_last().take(to as int) =~= open.take(to as int));
    }
}

// ---------------------------------------------------------------------------
// Elements
// ---------------------------------------------------------------------------

/// The word that the attribute begins with stands where it was written.
proof fn lemma_find_text(rest: Seq<char>)
    ensures
        opml::find_part("<outline text=\""@ + rest, "text"@) == Some(9int),
{
    reveal_strlit("<outline text=\"");
    reveal_strlit("text");
    let s = "<outline text=\""@ + rest;
    let part = "text"@;
    lemma_find_step(s, part, 0);
    lemma_find_step(s, part, 1);
    lemma_find_step(s, part, 2);
    lemma_find_step_second(s, part, 3);
    lemma_find_step(s, part, 4);
    lemma_find_step(s, part, 5);
    lemma_find_step(s, part, 6);
    lemma_find_step(s, part, 7);
    lemma_find_step(s, part, 8);
    assert(s.skip(9).take(4) =~= part);
    assert(opml::find_part(s.skip(9), part) == Some(0int));
    assert(s.skip(0) =~= s);
}

proof fn lemma_find_step(s: Seq<char>, part: Seq<char>, k: int)
    requires
        0 <= k < s.len(),
        part.len() > 0,
        s[k] != part[0],
    ensures
        opml::find_part(s.skip(k), part) == (match opml::find_part(s.skip(k + 1), part) {
            Some(m) => Some(m + 1),
            None => None,
        }),
{
    lemma_not_begins(s.skip(k), part, 0);
    assert(s.skip(k).skip(1) =~= s.skip(k + 1));
}

proof fn lemma_find_step_second(s: Seq<char>, part: Seq<char>, k: int)
    requires
        0 <= k,
        k + 1 < s.len(),
        part.len() > 1,
        s[k + 1] != part[1],
    ensures
        opml::find_part(s.skip(k), part) == (match opml::find_part(s.skip(k + 1), part) {
            Some(m) => Some(m + 1),
            None => None,
        }),
{
    lemma_not_begins(s.skip(k), part, 1);
    assert(s.skip(k).skip(1) =~= s.skip(k + 1));
}

/// The attribute of a tag says what was written into it.
proof fn lemma_attribute(label: Seq<char>, end: Seq<char>)
    requires
        end.len() > 0,
        end[0] == '"',
    ensures
        opml::attribute("<outline text=\""@ + escape::escaped(label) + end) == label,
{
    reveal_strlit("<outline text=\"");
    let esc = escape::escaped(label);
    let head = "<outline text=\""@;
    let tag = head + esc + end;
    assert(tag =~= head + (esc + end));
    lemma_find_text(esc + end);
    let after = tag.skip(13);
    let body = esc + end;
    assert(after =~= seq!['=', '"'] + body);
    text::lemma_trim_start_none(after);
    let b = after.skip(1);
    assert(b =~= seq!['"'] + body);
    text::lemma_trim_start_none(b);
    assert(b.skip(1) =~= body);
    escape::escaped_is_safe(label);
    assert forall|i: int| 0 <= i < esc.len() implies #[trigger] body[i] != '"' by {
        assert(body[i] == esc[i]);
    }
    opml::lemma_find_char_at(body, '"', esc.len() as int);
    assert(body.take(esc.len() as int) =~= esc);
    assert(opml::quoted(after) == esc);
    escape::unescape_undoes_escape(label);
}

/// A tag begins the element that was written, and ends it where it has nothing in
/// it.
proof fn lemma_opening(
    item: Item,
    kids: bool,
    rest: Seq<char>,
    items: Seq<Item>,
    open: Seq<nat>,
)
    requires
        open.len() == item.0,
    ensures
        opml::scanned(opml::opening(item, kids) + rest, items, open) == opml::scanned(
            rest,
            items.push(item),
            if kids {
                open.push(items.len())
            } else {
                open
            },
        ),
{
    reveal_strlit("<outline text=\"");
    reveal_strlit("<outline");
    reveal_strlit("</outline");
    reveal_strlit("\">\n");
    reveal_strlit("\"/>\n");
    let lead = md::spaces(item.0 + 2);
    let head = "<outline text=\""@;
    let esc = escape::escaped(item.1);
    let end = if kids {
        seq!['"']
    } else {
        seq!['"', '/']
    };
    let last = if kids {
        "\">\n"@
    } else {
        "\"/>\n"@
    };
    assert(last =~= end + seq!['>', '\n']);
    let tag = head + esc + end;
    let t = tag + seq!['>'];
    let after = seq!['\n'] + rest;
    let s = t + after;
    assert(opml::opening(item, kids) + rest =~= lead + s);
    lemma_skip(lead, s, items, open);
    escape::escaped_is_safe(item.1);
    let k = tag.len() as int;
    assert forall|i: int| 0 <= i < k implies #[trigger] t[i] != '>' by {
        if i < head.len() {
            assert(t[i] == head[i]);
            assert(i == 0 || i == 1 || i == 2 || i == 3 || i == 4 || i == 5 || i == 6 || i == 7 || i
                == 8 || i == 9 || i == 10 || i == 11 || i == 12 || i == 13 || i == 14);
        } else if i < head.len() + esc.len() {
            assert(t[i] == esc[i - head.len()]);
        } else {
            assert(t[i] == end[i - head.len() - esc.len()]);
        }
    }
    lemma_tag_end(t, k, after);
    assert(s[0] == head[0] && s[1] == head[1]);
    lemma_not_begins(s, "</outline"@, 1);
    assert(s.take(8) =~= "<outline"@) by {
        assert forall|i: int| 0 <= i < 8 implies s[i] == head[i] by {}
        assert(head.take(8) =~= "<outline"@);
    }
    assert(s.take(k) =~= tag);
    assert(s.skip(k + 1) =~= after);
    assert(tag.last() == end.last());
    assert(text::trimmed_end(tag) == tag);
    lemma_attribute(item.1, end);
    lemma_skip(
        seq!['\n'],
        rest,
        items.push(item),
        if kids {
            open.push(items.len())
        } else {
            open
        },
    );
}

/// A list in which every item is at most one deeper than the one before it.
pub open spec fn nested(items: Seq<Item>) -> bool {
    forall|i: int| 0 < i < items.len() ==> (#[trigger] items[i]).0 <= items[i - 1].0 + 1
}

/// The elements of a list read back as the list.
proof fn lemma_elements(rest: Seq<Item>, tail: Seq<char>, done: Seq<Item>, open: Seq<nat>)
    requires
        nested(rest),
        rest.len() > 0 ==> open.len() == rest[0].0,
        rest.len() == 0 ==> open.len() == 0,
    ensures
        opml::scanned(opml::elements(rest) + tail, done, open) == opml::scanned(
            tail,
            done + rest,
            seq![],
        ),
    decreases rest.len(),
{
    if rest.len() == 0 {
        assert(opml::elements(rest) + tail =~= tail);
        assert(done + rest =~= done);
        assert(open =~= seq![]);
    } else {
        let x = rest[0];
        let more = rest.skip(1);
        let nl = opml::next_level(rest);
        let kids = nl > x.0;
        let close = opml::closings(x.0, nl);
        let body = opml::elements(more);
        assert(opml::elements(rest) + tail =~= opml::opening(x, kids) + (close + (body + tail)));
        lemma_opening(x, kids, close + (body + tail), done, open);
        assert(nested(more)) by {
            assert forall|i: int| 0 < i < more.len() implies (#[trigger] more[i]).0 <= more[i - 1].0
                + 1 by {
                assert(more[i] == rest[i + 1]);
                assert(more[i - 1] == rest[i]);
            }
        }
        if more.len() > 0 {
            assert(more[0] == rest[1]);
            assert(rest[1].0 <= rest[0].0 + 1);
        }
        assert(done.push(x) + more =~= done + rest);
        if kids {
            assert(close + (body + tail) =~= body + tail);
            lemma_elements(more, tail, done.push(x), open.push(done.len()));
        } else {
            lemma_closings(x.0, nl, body + tail, done.push(x), open);
            lemma_elements(more, tail, done.push(x), open.take(nl as int));
        }
    }
}

/// What is written as OPML reads back: every item, at its level, whatever its
/// label.
pub proof fn opml_reads_back(title: Seq<char>, items: Seq<Item>)
    requires
        items.len() > 0,
        items[0].0 == 0,
        nested(items),
    ensures
        opml::scanned(opml::opml_text(title, items), seq![], seq![]) == items,
{
    let tail = "  </body>\n"@ + "</opml>\n"@;
    let all = opml::opml_text(title, items);
    assert(all =~= opml::preamble(title) + (opml::elements(items) + tail));
    lemma_preamble(title, opml::elements(items) + tail);
    lemma_elements(items, tail, seq![], seq![]);
    assert(Seq::<Item>::empty() + items =~= items);
    lemma_unbody("</opml>\n"@, items, seq![]);
    assert("</opml>\n"@ + Seq::<char>::empty() =~= "</opml>\n"@);
    lemma_unopml(seq![], items, seq![]);
}

// ---------------------------------------------------------------------------
// Round trips
// ---------------------------------------------------------------------------

/// The node that entry `i` of a list becomes when the first is the root.
pub open spec fn landed(i: int) -> u64 {
    if i == 0 {
        1
    } else {
        grow::made_id(i - 1)
    }
}

/// Entry `i` of the list of `g` has a node in `r`, with its label and under the
/// node of its parent.
pub open spec fn entry_again(g: GraphModel, r: GraphModel, i: int) -> bool {
    &&& r.has(landed(i))
    &&& r.nodes[landed(i)].text == g.nodes[g.reached()[i].1].text
    &&& i == 0 ==> r.parent_of(landed(i)) is None
    &&& i > 0 ==> exists|j: int|
        0 <= j < i && g.parent_of(g.reached()[i].1) == Some(g.reached()[j].1) && r.parent_of(
            landed(i),
        ) == Some(#[trigger] landed(j))
}

/// `r` is the tree of `g` again: for every node that the root of `g` reaches there
/// is one with its label, under the one for its parent, and there are no others.
pub open spec fn same_tree(g: GraphModel, r: GraphModel) -> bool {
    &&& forall|i: int| 0 <= i < g.reached().len() ==> #[trigger] entry_again(g, r, i)
    &&& forall|x: u64| #[trigger]
        r.has(x) ==> exists|i: int| 0 <= i < g.reached().len() && x == #[trigger] landed(i)
}

/// Levels that are all one less, without the first, which is less than all.
proof fn lemma_raised_outer(levels: Seq<nat>, up: Seq<nat>, i: int, j: nat)
    requires
        up.len() + 1 == levels.len(),
        j <= i,
        i < up.len(),
        levels[0] == 0,
        forall|k: int| 0 <= k < up.len() ==> #[trigger] levels[k + 1] >= 1,
        forall|k: int, m: int|
            0 <= k < up.len() && 0 <= m < up.len() ==> (#[trigger] up[k] < #[trigger] up[m]
                <==> levels[k + 1] < levels[m + 1]),
    ensures
        outline::outer_of(levels, i + 1, j + 1) == Some(
            match outline::outer_of(up, i, j) {
                Some(t) => t + 1,
                None => 0,
            },
        ),
    decreases j,
{
    if j == 0 {
        assert(levels[i + 1] >= 1);
        assert(outline::outer_of(levels, i + 1, 1) == Some(0int));
    } else {
        lemma_raised_outer(levels, up, i, (j - 1) as nat);
        assert(up[j - 1] < up[i] <==> levels[j - 1 + 1] < levels[i + 1]);
    }
}

/// The nodes of the map of a list: the root, and one for every item.
pub proof fn lemma_map_nodes(root: Seq<char>, up: Seq<Item>, r: GraphModel)
    requires
        up.len() <= grow::MOST_ITEMS,
        grow::map_of(root, up, r),
    ensures
        r.has(1),
        r.nodes[1].text == root,
        r.parent_of(1) is None,
        forall|i: int|
            0 < i <= up.len() ==> r.has(#[trigger] landed(i)) && r.nodes[landed(i)].text == up[i
                - 1].1 && r.parent_of(landed(i)) == Some(grow::hung_under(up, i - 1)),
        forall|x: u64| #[trigger]
            r.has(x) ==> exists|i: int| 0 <= i <= up.len() && x == #[trigger] landed(i),
{
    let n = up.len();
    let b = grow::grown_map(root, up, n);
    let h = choose|h: GraphModel| #[trigger]
        grow::spread(b, h) && r == (GraphModel {
            mode: crate::graph::Mode::Browse,
            anchor: None,
            ..h
        }).focused_on(1);
    assert(r.nodes == h.nodes);
    assert(b.nodes.dom().contains(1));
    assert forall|i: int| 0 < i <= up.len() implies r.has(#[trigger] landed(i))
        && r.nodes[landed(i)].text == up[i - 1].1 && r.parent_of(landed(i)) == Some(
        grow::hung_under(up, i - 1),
    ) by {
        let x = landed(i);
        assert(x == 2 + 2 * (i - 1));
        assert((x - 2) / 2 == i - 1);
        assert(b.nodes.dom().contains(x));
    }
    assert forall|x: u64| #[trigger] r.has(x) implies exists|i: int|
        0 <= i <= up.len() && x == #[trigger] landed(i) by {
        assert(b.nodes.dom().contains(x));
        if x == 1 {
            assert(x == landed(0));
        } else {
            let i = (x - 2) / 2 + 1;
            assert(x == landed(i));
        }
    }
}

/// The parent of an entry of a map's list, in the map of the list without its root.
pub proof fn lemma_parent_again(g: GraphModel, up: Seq<Item>, i: int) -> (j: int)
    requires
        g.nodes.dom().finite(),
        g.has(g.root),
        up.len() + 1 == g.items().len(),
        0 < i < g.items().len(),
        forall|k: int, m: int|
            0 <= k < up.len() && 0 <= m < up.len() ==> ((#[trigger] up[k]).0 < (#[trigger] up[m]).0
                <==> g.items()[k + 1].0 < g.items()[m + 1].0),
    ensures
        0 <= j < i,
        g.parent_of(g.reached()[i].1) == Some(g.reached()[j].1),
        grow::hung_under(up, i - 1) == landed(j),
        outline::outer_of(outline::levels_of(g.items()), i, i as nat) == Some(j),
{
    let items = g.items();
    let levels = outline::levels_of(items);
    let ups = outline::levels_of(up);
    assert forall|k: int| 0 <= k < ups.len() implies #[trigger] levels[k + 1] >= 1 by {
        flat::list_keeps_the_tree(g, k + 1);
    }
    flat::list_keeps_the_tree(g, 0);
    assert(levels[0] == 0) by {
        assert(items[0].0 == g.reached()[0].0);
    }
    assert forall|k: int, m: int| 0 <= k < ups.len() && 0 <= m < ups.len() implies (#[trigger] ups[k]
        < #[trigger] ups[m] <==> levels[k + 1] < levels[m + 1]) by {
        assert(ups[k] == up[k].0 && ups[m] == up[m].0);
    }
    flat::list_keeps_the_tree(g, i);
    lemma_raised_outer(levels, ups, i - 1, (i - 1) as nat);
    outline::lemma_outer_before(ups, i - 1, (i - 1) as nat);
    outline::outer_of(levels, i, i as nat)->0
}

/// The map of a list whose first item is the root and whose others are `up`, at
/// whatever levels that compare alike, is the tree again.
proof fn lemma_tree_again(g: GraphModel, up: Seq<Item>, r: GraphModel)
    requires
        g.nodes.dom().finite(),
        g.has(g.root),
        up.len() + 1 == g.items().len(),
        up.len() <= grow::MOST_ITEMS,
        forall|k: int| 0 <= k < up.len() ==> (#[trigger] up[k]).1 == g.items()[k + 1].1,
        forall|k: int, m: int|
            0 <= k < up.len() && 0 <= m < up.len() ==> ((#[trigger] up[k]).0 < (#[trigger] up[m]).0
                <==> g.items()[k + 1].0 < g.items()[m + 1].0),
        grow::map_of(g.items()[0].1, up, r),
    ensures
        same_tree(g, r),
{
    lemma_map_nodes(g.items()[0].1, up, r);
    assert forall|i: int| 0 <= i < g.reached().len() implies #[trigger] entry_again(g, r, i) by {
        if i > 0 {
            let x = landed(i);
            assert(r.has(x));
            lemma_entry(g, up, r, i);
        } else {
            assert(landed(0) == 1);
        }
    }
    assert forall|x: u64| #[trigger] r.has(x) implies exists|i: int|
        0 <= i < g.reached().len() && x == #[trigger] landed(i) by {
        let i = choose|i: int| 0 <= i <= up.len() && x == #[trigger] landed(i);
    }
}

proof fn lemma_entry(g: GraphModel, up: Seq<Item>, r: GraphModel, i: int)
    requires
        g.nodes.dom().finite(),
        g.has(g.root),
        up.len() + 1 == g.items().len(),
        0 < i < g.items().len(),
        up[i - 1].1 == g.items()[i].1,
        forall|k: int, m: int|
            0 <= k < up.len() && 0 <= m < up.len() ==> ((#[trigger] up[k]).0 < (#[trigger] up[m]).0
                <==> g.items()[k + 1].0 < g.items()[m + 1].0),
        r.has(landed(i)),
        r.nodes[landed(i)].text == up[i - 1].1,
        r.parent_of(landed(i)) == Some(grow::hung_under(up, i - 1)),
    ensures
        entry_again(g, r, i),
{
    let j = lemma_parent_again(g, up, i);
    assert(r.parent_of(landed(i)) == Some(landed(j)));
}

/// A map written as Markdown and read again is the same tree with the same labels,
/// as long as every label is one line without white space around it.
pub proof fn markdown_round_trip(g: GraphModel, r: GraphModel)
    requires
        g.nodes.dom().finite(),
        g.has(g.root),
        md::plain_items(g.items()),
        g.items().len() <= grow::MOST_ITEMS,
        ({
            let lines = text::lines_of(md::md_text(g.items()));
            grow::map_of(md::md_root(lines), md::md_items(lines), r)
        }),
    ensures
        same_tree(g, r),
{
    let items = g.items();
    lemma_not_empty(g);
    flat::list_keeps_the_tree(g, 0);
    assert forall|i: int| 0 < i < items.len() implies (#[trigger] items[i]).0 >= 1 by {
        flat::list_keeps_the_tree(g, i);
    }
    md::markdown_reads_back(items);
    let up = md::raised(items.skip(1));
    assert forall|k: int| 0 <= k < up.len() implies (#[trigger] up[k]).1 == items[k + 1].1 && up[k].0
        == items[k + 1].0 - 1 by {
        assert(items[k + 1].0 >= 1);
    }
    lemma_tree_again(g, up, r);
}

/// A map written as OPML and read again is the same tree with the same labels.
pub proof fn opml_round_trip(g: GraphModel, r: GraphModel)
    requires
        g.nodes.dom().finite(),
        g.has(g.root),
        g.items().len() <= grow::MOST_ITEMS,
        ({
            let found = opml::scanned(
                opml::opml_text(g.nodes[g.root].text, g.items()),
                seq![],
                seq![],
            );
            grow::map_of(opml::rooted_items(found).0, opml::rooted_items(found).1, r)
        }),
    ensures
        same_tree(g, r),
{
    lemma_opml_read(g);
    let up = g.items().skip(1);
    assert forall|k: int| 0 <= k < up.len() implies (#[trigger] up[k]) == g.items()[k + 1] by {}
    lemma_tree_again(g, up, r);
}

/// What is found in the OPML of a map: its root, and the rest of its list.
pub proof fn lemma_opml_read(g: GraphModel)
    requires
        g.nodes.dom().finite(),
        g.has(g.root),
    ensures
        opml::rooted_items(
            opml::scanned(opml::opml_text(g.nodes[g.root].text, g.items()), seq![], seq![]),
        ) == (g.items()[0].1, g.items().skip(1)),
        g.items().len() > 0,
{
    let items = g.items();
    lemma_not_empty(g);
    flat::list_keeps_the_tree(g, 0);
    assert(items[0].0 == 0);
    assert(nested(items)) by {
        assert forall|i: int| 0 < i < items.len() implies (#[trigger] items[i]).0 <= items[i - 1].0
            + 1 by {
            flat::list_keeps_the_tree(g, i);
            let levels = outline::levels_of(items);
            let j = outline::outer_of(levels, i, i as nat)->0;
            lemma_last_level(levels, i);
        }
    }
    opml_reads_back(g.nodes[g.root].text, items);
    assert forall|i: int| 0 < i < items.len() implies (#[trigger] items[i]).0 >= 1 by {
        flat::list_keeps_the_tree(g, i);
    }
    lemma_one_top(items, items.len());
    assert(items.take(items.len() as int) =~= items);
}

pub proof fn lemma_not_empty(g: GraphModel)
    requires
        g.nodes.dom().finite(),
        g.has(g.root),
    ensures
        g.reached().len() > 0,
        g.items().len() == g.reached().len(),
{
    assert(g.nodes.dom().len() > 0) by {
        assert(g.nodes.dom().contains(g.root));
    }
}

/// A level is less than the one before it, or that one is what it hangs under, or
/// no less deep.
proof fn lemma_last_level(levels: Seq<nat>, i: int)
    requires
        i > 0,
        outline::outer_of(levels, i, i as nat) matches Some(j) && levels[i] == levels[j] + 1,
    ensures
        levels[i] <= levels[i - 1] + 1,
{
}

/// A list of which only the first item is at the top has one item at the top.
proof fn lemma_one_top(items: Seq<Item>, n: nat)
    requires
        items.len() > 0,
        n <= items.len(),
        items[0].0 == 0,
        forall|i: int| 0 < i < items.len() ==> (#[trigger] items[i]).0 >= 1,
    ensures
        opml::tops(items.take(n as int)) == (if n == 0 {
            0nat
        } else {
            1
        }),
    decreases n,
{
    if n > 0 {
        lemma_one_top(items, (n - 1) as nat);
        assert(items.take(n as int).drop_last() =~= items.take(n - 1));
        assert(items.take(n as int).last() == items[n - 1]);
    }
}

} // verus!
