//! What a document in OPML says, whoever wrote it, and how one is written.

use vstd::prelude::*;
use crate::convert::escape;
use crate::convert::flat::Item;
use crate::convert::md;
use crate::convert::md_laws;
use crate::convert::opml;
use crate::text;

verus! {

/// What stands outside a tag does not matter.
pub proof fn what_is_between_tags_is_passed_over(
    between: Seq<char>,
    rest: Seq<char>,
    items: Seq<Item>,
    open: Seq<nat>,
)
    requires
        !between.contains('<'),
    ensures
        opml::scanned(between + rest, items, open) == opml::scanned(rest, items, open),
    decreases between.len(),
{
    if between.len() == 0 {
        assert(between + rest =~= rest);
    } else {
        let s = between + rest;
        assert(s.skip(1) =~= between.skip(1) + rest);
        assert(s[0] == between[0]);
        assert(between.contains(between[0]));
        assert(!between.skip(1).contains('<')) by {
            if between.skip(1).contains('<') {
                let i = choose|i: int| 0 <= i < between.skip(1).len() && between.skip(1)[i] == '<';
                assert(between[i + 1] == '<');
            }
        }
        what_is_between_tags_is_passed_over(between.skip(1), rest, items, open);
    }
}

/// Where the tag ends that a text begins with.
proof fn lemma_tag(tag: Seq<char>, rest: Seq<char>)
    requires
        !tag.contains('>'),
    ensures
        opml::find_char(tag + seq!['>'] + rest, '>') == tag.len(),
        (tag + seq!['>'] + rest).take(tag.len() as int) == tag,
        (tag + seq!['>'] + rest).skip(tag.len() + 1int) == rest,
{
    let s = tag + seq!['>'] + rest;
    assert forall|i: int| 0 <= i < tag.len() implies #[trigger] s[i] != '>' by {
        assert(s[i] == tag[i]);
        assert(tag.contains(tag[i]));
    }
    opml::lemma_find_char_at(s, '>', tag.len() as int);
    assert(s.take(tag.len() as int) =~= tag);
    assert(s.skip(tag.len() + 1int) =~= rest);
}

proof fn lemma_begins(part: Seq<char>, more: Seq<char>)
    ensures
        opml::begins(part + more, part),
{
    assert((part + more).take(part.len() as int) =~= part);
}

/// Where two texts differ, the one does not begin with the other.
proof fn lemma_not_begins(s: Seq<char>, part: Seq<char>, m: int)
    requires
        0 <= m < part.len(),
        m < s.len() ==> s[m] != part[m],
    ensures
        !opml::begins(s, part),
{
    if opml::begins(s, part) {
        assert(s.take(part.len() as int)[m] == s[m]);
    }
}

/// A tag that begins an outline is one item, as deep as there are outlines open. It
/// stays open unless the tag ends with a slash.
pub proof fn an_opening_tag_is_an_item(
    more: Seq<char>,
    rest: Seq<char>,
    items: Seq<Item>,
    open: Seq<nat>,
)
    requires
        !more.contains('>'),
    ensures
        ({
            let tag = "<outline"@ + more;
            let closed = text::trimmed_end(tag).len() > 0 && text::trimmed_end(tag).last() == '/';
            opml::scanned(tag + seq!['>'] + rest, items, open) == opml::scanned(
                rest,
                items.push((open.len(), opml::attribute(tag))),
                if closed {
                    open
                } else {
                    open.push(items.len())
                },
            )
        }),
{
    reveal_strlit("<outline");
    reveal_strlit("</outline");
    let tag = "<outline"@ + more;
    let s = tag + seq!['>'] + rest;
    assert(!tag.contains('>')) by {
        if tag.contains('>') {
            let i = choose|i: int| 0 <= i < tag.len() && tag[i] == '>';
            if i < 8 {
                assert("<outline"@[i] == '>');
            } else {
                assert(more[i - 8] == '>');
            }
        }
    }
    lemma_tag(tag, rest);
    assert(s =~= "<outline"@ + (more + seq!['>'] + rest));
    lemma_begins("<outline"@, more + seq!['>'] + rest);
    assert(s[0] == '<' && s[1] == 'o');
    lemma_not_begins(s, "</outline"@, 1);
}

/// A tag that ends an outline closes the innermost that is open, if there is one.
pub proof fn a_closing_tag_goes_up(
    more: Seq<char>,
    rest: Seq<char>,
    items: Seq<Item>,
    open: Seq<nat>,
)
    requires
        !more.contains('>'),
    ensures
        opml::scanned("</outline"@ + more + seq!['>'] + rest, items, open) == opml::scanned(
            rest,
            items,
            if open.len() > 0 {
                open.drop_last()
            } else {
                open
            },
        ),
{
    reveal_strlit("</outline");
    let tag = "</outline"@ + more;
    let s = tag + seq!['>'] + rest;
    assert(!tag.contains('>')) by {
        if tag.contains('>') {
            let i = choose|i: int| 0 <= i < tag.len() && tag[i] == '>';
            if i < 9 {
                assert("</outline"@[i] == '>');
            } else {
                assert(more[i - 9] == '>');
            }
        }
    }
    lemma_tag(tag, rest);
    assert(s =~= "</outline"@ + (more + seq!['>'] + rest));
    lemma_begins("</outline"@, more + seq!['>'] + rest);
    assert(s[0] == '<');
}

/// Any other tag is passed over.
pub proof fn other_tags_are_passed_over(
    name: Seq<char>,
    rest: Seq<char>,
    items: Seq<Item>,
    open: Seq<nat>,
)
    requires
        !name.contains('>'),
        name.len() < 7 || name.take(7) != seq!['o', 'u', 't', 'l', 'i', 'n', 'e'],
        name.len() < 8 || name.take(8) != seq!['/', 'o', 'u', 't', 'l', 'i', 'n', 'e'],
    ensures
        opml::scanned(seq!['<'] + name + seq!['>'] + rest, items, open) == opml::scanned(
            rest,
            items,
            open,
        ),
{
    reveal_strlit("</outline");
    reveal_strlit("<outline");
    let tag = seq!['<'] + name;
    let s = tag + seq!['>'] + rest;
    assert(!tag.contains('>')) by {
        if tag.contains('>') {
            let i = choose|i: int| 0 <= i < tag.len() && tag[i] == '>';
            if i > 0 {
                assert(name[i - 1] == '>');
            }
        }
    }
    lemma_tag(tag, rest);
    assert(s[0] == '<');
    if opml::begins(s, "<outline"@) {
        let t = s.take(8);
        assert(t == "<outline"@);
        assert forall|i: int| 0 <= i < 8 implies s[i] == "<outline"@[i] by {
            assert(t[i] == s[i]);
        }
        if name.len() < 7 {
            assert(s[1 + name.len() as int] == '>');
        } else {
            assert forall|i: int| 0 <= i < 7 implies name[i] == seq!['o', 'u', 't', 'l', 'i', 'n', 'e'][i] by {
                assert(name[i] == s[i + 1]);
            }
            assert(name.take(7) =~= seq!['o', 'u', 't', 'l', 'i', 'n', 'e']);
        }
    }
    if opml::begins(s, "</outline"@) {
        let t = s.take(9);
        assert(t == "</outline"@);
        assert forall|i: int| 0 <= i < 9 implies s[i] == "</outline"@[i] by {
            assert(t[i] == s[i]);
        }
        if name.len() < 8 {
            assert(s[1 + name.len() as int] == '>');
        } else {
            assert forall|i: int| 0 <= i < 8 implies name[i] == seq!['/', 'o', 'u', 't', 'l', 'i', 'n', 'e'][i] by {
                assert(name[i] == s[i + 1]);
            }
            assert(name.take(8) =~= seq!['/', 'o', 'u', 't', 'l', 'i', 'n', 'e']);
        }
    }
}

/// At the end everything that was closed is there. What is still open is lost.
pub proof fn what_is_left_open_is_lost(items: Seq<Item>, open: Seq<nat>)
    ensures
        open.len() == 0 ==> opml::scanned(seq![], items, open) == items,
        open.len() > 0 ==> opml::scanned(seq![], items, open) == items.take(open[0] as int),
{
}

/// The label of an outline is its attribute `text`: what is between the quotes, double
/// or single, after an equals sign, with white space around that or without.
pub proof fn the_text_attribute_is_the_label(
    head: Seq<char>,
    before: Seq<char>,
    after: Seq<char>,
    quote: char,
    value: Seq<char>,
    tail: Seq<char>,
)
    requires
        md_laws::white(before),
        md_laws::white(after),
        quote == '"' || quote == '\'',
        !value.contains(quote),
        forall|i: int|
            0 <= i < head.len() ==> !opml::begins(
                (head + "text"@ + before + seq!['='] + after + seq![quote] + value + seq![quote]
                    + tail).skip(i),
                "text"@,
            ),
    ensures
        opml::attribute(
            head + "text"@ + before + seq!['='] + after + seq![quote] + value + seq![quote] + tail,
        ) == escape::unescaped(value),
{
    reveal_strlit("text");
    let end = value + seq![quote] + tail;
    let tag = head + "text"@ + before + seq!['='] + after + seq![quote] + value + seq![quote] + tail;
    let from = before + (seq!['='] + (after + (seq![quote] + end)));
    assert(tag =~= head + ("text"@ + from));
    lemma_found(head, "text"@, from, 0);
    assert(tag.skip(0) =~= tag);
    assert(tag.skip(head.len() + 4int) =~= from);
    text::lemma_trim_start_some(before, seq!['='] + (after + (seq![quote] + end)));
    let a = seq!['='] + (after + (seq![quote] + end));
    assert(a.skip(1) =~= after + (seq![quote] + end));
    text::lemma_trim_start_some(after, seq![quote] + end);
    let b = seq![quote] + end;
    assert(b.skip(1) =~= end);
    assert forall|i: int| 0 <= i < value.len() implies #[trigger] end[i] != quote by {
        assert(end[i] == value[i]);
        assert(value.contains(value[i]));
    }
    opml::lemma_find_char_at(end, quote, value.len() as int);
    assert(end.take(value.len() as int) =~= value);
    assert(opml::quoted(from) == value);
}

/// What is found first.
proof fn lemma_found(head: Seq<char>, part: Seq<char>, rest: Seq<char>, i: int)
    requires
        0 <= i <= head.len(),
        part.len() > 0,
        forall|k: int| 0 <= k < head.len() ==> !opml::begins((head + (part + rest)).skip(k), part),
    ensures
        opml::find_part((head + (part + rest)).skip(i), part) == Some(head.len() - i),
    decreases head.len() - i,
{
    let s = head + (part + rest);
    if i == head.len() {
        assert(s.skip(i) =~= part + rest);
        lemma_begins(part, rest);
    } else {
        lemma_found(head, part, rest, i + 1);
        assert(s.skip(i).skip(1) =~= s.skip(i + 1));
        assert(!opml::begins(s.skip(i), part));
    }
}

/// A document with a single outline at the top has it for its root. One with none, or
/// with several, has a root without a name, and all of them hang under that.
pub proof fn a_single_outline_is_the_root(items: Seq<Item>, i: int, j: int)
    ensures
        items.len() > 0 && items[0].0 == 0 && (forall|k: int|
            0 < k < items.len() ==> (#[trigger] items[k]).0 > 0) ==> opml::rooted_items(items) == (
            items[0].1,
            items.skip(1),
        ),
        0 <= i < j < items.len() && items[i].0 == 0 && items[j].0 == 0 ==> opml::rooted_items(items)
            == (Seq::<char>::empty(), items),
        items.len() == 0 ==> opml::rooted_items(items) == (Seq::<char>::empty(), items),
{
    if items.len() > 0 && items[0].0 == 0 && (forall|k: int|
        0 < k < items.len() ==> (#[trigger] items[k]).0 > 0) {
        lemma_tops_one(items);
    }
    if 0 <= i < j < items.len() && items[i].0 == 0 && items[j].0 == 0 {
        lemma_tops_more(items, i, j);
    }
}

proof fn lemma_tops_one(items: Seq<Item>)
    requires
        items.len() > 0,
        items[0].0 == 0,
        forall|k: int| 0 < k < items.len() ==> (#[trigger] items[k]).0 > 0,
    ensures
        opml::tops(items) == 1,
    decreases items.len(),
{
    if items.len() == 1 {
        assert(items.drop_last() =~= seq![]);
        assert(opml::tops(items.drop_last()) == 0);
    } else {
        assert(items[items.len() - 1].0 > 0);
        lemma_tops_one(items.drop_last());
    }
}

proof fn lemma_tops_some(items: Seq<Item>, i: int)
    requires
        0 <= i < items.len(),
        items[i].0 == 0,
    ensures
        opml::tops(items) >= 1,
    decreases items.len(),
{
    if i < items.len() - 1 {
        assert(items.drop_last()[i] == items[i]);
        lemma_tops_some(items.drop_last(), i);
    }
}

proof fn lemma_tops_more(items: Seq<Item>, i: int, j: int)
    requires
        0 <= i < j < items.len(),
        items[i].0 == 0,
        items[j].0 == 0,
    ensures
        opml::tops(items) >= 2,
    decreases items.len(),
{
    let less = items.drop_last();
    assert(less[i] == items[i]);
    if j < items.len() - 1 {
        assert(less[j] == items[j]);
        lemma_tops_more(less, i, j);
    } else {
        lemma_tops_some(less, i);
    }
}

/// A document begins as OPML does, with the name of the root for its title, and ends
/// as OPML does.
pub proof fn a_document_has_its_title(title: Seq<char>, items: Seq<Item>)
    ensures
        ({
            let head = "<?xml version=\"1.0\" encoding=\"UTF-8\"?>\n<opml version=\"2.0\">\n  <head>\n    <title>"@;
            let upper = head + escape::escaped(title) + "</title>\n  </head>\n  <body>\n"@;
            let foot = "  </body>\n</opml>\n"@;
            let all = opml::opml_text(title, items);
            &&& all.len() == upper.len() + opml::elements(items).len() + foot.len()
            &&& all.take(upper.len() as int) == upper
            &&& all.skip(all.len() - foot.len()) == foot
        }),
{
    let head = "<?xml version=\"1.0\" encoding=\"UTF-8\"?>\n<opml version=\"2.0\">\n  <head>\n    <title>"@;
    assert(head =~= "<?xml version=\"1.0\" encoding=\"UTF-8\"?>\n"@ + "<opml version=\"2.0\">\n"@
        + "  <head>\n"@ + "    <title>"@) by {
        reveal_strlit("<?xml version=\"1.0\" encoding=\"UTF-8\"?>\n<opml version=\"2.0\">\n  <head>\n    <title>");
        reveal_strlit("<?xml version=\"1.0\" encoding=\"UTF-8\"?>\n");
        reveal_strlit("<opml version=\"2.0\">\n");
        reveal_strlit("  <head>\n");
        reveal_strlit("    <title>");
    }
    let mid = "</title>\n  </head>\n  <body>\n"@;
    assert(mid =~= "</title>\n"@ + "  </head>\n"@ + "  <body>\n"@) by {
        reveal_strlit("</title>\n  </head>\n  <body>\n");
        reveal_strlit("</title>\n");
        reveal_strlit("  </head>\n");
        reveal_strlit("  <body>\n");
    }
    let foot = "  </body>\n</opml>\n"@;
    assert(foot =~= "  </body>\n"@ + "</opml>\n"@) by {
        reveal_strlit("  </body>\n</opml>\n");
        reveal_strlit("  </body>\n");
        reveal_strlit("</opml>\n");
    }
    let upper = head + escape::escaped(title) + mid;
    let body = opml::elements(items);
    assert(opml::preamble(title) =~= upper);
    let all = opml::opml_text(title, items);
    assert(all =~= upper + body + foot);
    assert(all.take(upper.len() as int) =~= upper);
    assert(all.skip(all.len() - foot.len()) =~= foot);
}

/// The tag of an item stands after two spaces for each level and four more, and holds
/// its label, escaped, between double quotes.
pub proof fn a_tag_holds_its_label(item: Item, kids: bool)
    ensures
        md_laws::indented(
            opml::opening(item, kids),
            2 * item.0 + 4,
            "<outline text=\""@ + escape::escaped(item.1) + (if kids {
                "\">\n"@
            } else {
                "\"/>\n"@
            }),
        ),
        escape::unescaped(escape::escaped(item.1)) == item.1,
{
    escape::unescape_undoes_escape(item.1);
    let rest = "<outline text=\""@ + escape::escaped(item.1) + (if kids {
        "\">\n"@
    } else {
        "\"/>\n"@
    });
    let all = opml::opening(item, kids);
    let n = 2 * item.0 + 4;
    assert(all =~= md::spaces(item.0 + 2) + rest);
    assert(all.skip(n as int) =~= rest);
    assert forall|i: int| 0 <= i < n implies #[trigger] all[i] == ' ' by {}
}

} // verus!
