//! What the markup of a line comes to, said of the line itself: where each kind of
//! markup begins and ends, and how what is inside is shown.

use vstd::prelude::*;
use vstd::utf8::*;
use crate::ascii;
use crate::markdown::grammar;
use crate::markdown::grammar::{run, Run, Token};
use crate::markdown::{MdStyle, MAX_INLINE_NEST};
use crate::text;

verus! {

/// Nothing that begins a url stands at `i`.
pub open spec fn no_url(b: Seq<u8>, i: int) -> bool {
    let http = seq![0x68u8, 0x74, 0x74, 0x70, 0x3a, 0x2f, 0x2f];
    let https = seq![0x68u8, 0x74, 0x74, 0x70, 0x73, 0x3a, 0x2f, 0x2f];
    &&& i + 7 <= b.len() ==> b.subrange(i, i + 7) != http
    &&& i + 8 <= b.len() ==> b.subrange(i, i + 8) != https
}

/// The byte at `i` begins no markup.
pub open spec fn ordinary(b: Seq<u8>, i: int) -> bool {
    &&& b[i] != ascii::BACKTICK
    &&& b[i] != ascii::STAR
    &&& b[i] != ascii::UNDERSCORE
    &&& b[i] != ascii::TILDE
    &&& b[i] != ascii::BANG
    &&& b[i] != ascii::OPEN_BRACKET
    &&& b[i] == ascii::LOWER_H ==> no_url(b, i)
}

/// No markup begins from `i` up to `k`.
pub open spec fn ordinary_up_to(b: Seq<u8>, i: int, k: int) -> bool {
    forall|j: int| i <= j < k ==> #[trigger] ordinary(b, j)
}

/// The prose before a piece of markup, if there is any.
pub open spec fn prose_before(base: int, at: int) -> Seq<Run> {
    if at > 0 {
        seq![run(base, base + at, MdStyle::Text)]
    } else {
        seq![]
    }
}

/// So many of one byte in a row at `i`, and no more.
pub open spec fn row(b: Seq<u8>, i: int, n: int, c: u8) -> bool {
    &&& 0 <= i
    &&& 0 < n
    &&& i + n <= b.len()
    &&& forall|k: int| i <= k < i + n ==> #[trigger] b[k] == c
    &&& i + n < b.len() ==> b[i + n] != c
}

proof fn lemma_row(b: Seq<u8>, i: int, n: int, c: u8)
    requires
        row(b, i, n, c),
    ensures
        grammar::run_end(b, i, c) == i + n,
{
    grammar::lemma_run_end(b, i, c);
    let e = grammar::run_end(b, i, c);
    if e < i + n {
        assert(b[e] == c);
    } else if e > i + n {
        assert(b[i + n] == c);
    }
}

proof fn lemma_ordinary(b: Seq<u8>, i: int)
    requires
        0 <= i < b.len(),
        ordinary(b, i),
    ensures
        grammar::token(b, i) == (Token::Plain { next: i + 1 }),
{
    reveal(grammar::token);
    if b[i] == ascii::LOWER_H {
        let http = seq![0x68u8, 0x74, 0x74, 0x70, 0x3a, 0x2f, 0x2f];
        let https = seq![0x68u8, 0x74, 0x74, 0x70, 0x73, 0x3a, 0x2f, 0x2f];
        assert(grammar::http() =~= http);
        assert(grammar::https() =~= https);
    }
}

proof fn lemma_through(b: Seq<u8>, base: int, depth: int, i: int, k: int, from: int)
    requires
        0 <= i <= k <= b.len(),
        0 <= depth <= MAX_INLINE_NEST,
        ordinary_up_to(b, i, k),
    ensures
        grammar::inline(b, base, depth, i, from) == grammar::inline(b, base, depth, k, from),
    decreases k - i,
{
    if i < k {
        assert(ordinary(b, i));
        lemma_ordinary(b, i);
        grammar::lemma_token(b, i);
        lemma_through(b, base, depth, i + 1, k, from);
    }
}

/// Text without markup is one run of prose.
pub proof fn plain_text_is_prose(b: Seq<u8>, base: int, depth: int)
    requires
        b.len() > 0,
        0 <= depth <= MAX_INLINE_NEST,
        ordinary_up_to(b, 0, b.len() as int),
    ensures
        grammar::inline(b, base, depth, 0, 0) == seq![run(base, base + b.len(), MdStyle::Text)],
{
    lemma_through(b, base, depth, 0, b.len() as int, 0);
}

/// Past prose, a token is shown as what it is, and the rest on its own.
proof fn lemma_token_after(b: Seq<u8>, base: int, depth: int, at: int)
    requires
        0 <= at < b.len(),
        0 <= depth <= MAX_INLINE_NEST,
        ordinary_up_to(b, 0, at),
        !(grammar::token(b, at) is Plain),
    ensures
        grammar::inline(b, base, depth, 0, 0) == prose_before(base, at) + grammar::markup(
            b,
            base,
            depth,
            at,
            grammar::token(b, at),
        ) + grammar::inline(
            b,
            base,
            depth,
            grammar::token_end(grammar::token(b, at)),
            grammar::token_end(grammar::token(b, at)),
        ),
{
    lemma_through(b, base, depth, 0, at, 0);
    grammar::lemma_token(b, at);
    assert(grammar::prose(base, 0, at) =~= prose_before(base, at));
}

proof fn lemma_exact_run_at(b: Seq<u8>, j: int, close: int, c: u8, need: int)
    requires
        0 <= j <= close,
        row(b, close, need, c),
        forall|k: int| j <= k < close ==> #[trigger] b[k] != c,
    ensures
        grammar::exact_run(b, j, c, need) == Some(close),
    decreases close - j,
{
    lemma_row(b, close, need, c);
    if j < close {
        assert(b[j] != c);
        lemma_exact_run_at(b, j + 1, close, c, need);
    } else {
        assert(b[close] == c);
    }
}

/// Code stands between as many backticks as it was opened with. The ticks are markup,
/// what is between them is code, and what comes after is read on its own.
pub proof fn code_is_between_its_ticks(
    b: Seq<u8>,
    base: int,
    depth: int,
    at: int,
    n: int,
    close: int,
)
    requires
        0 <= depth <= MAX_INLINE_NEST,
        0 <= at,
        ordinary_up_to(b, 0, at),
        row(b, at, n, ascii::BACKTICK),
        at + n < close,
        row(b, close, n, ascii::BACKTICK),
        forall|k: int| at + n <= k < close ==> #[trigger] b[k] != ascii::BACKTICK,
    ensures
        grammar::inline(b, base, depth, 0, 0) == prose_before(base, at) + seq![
            run(base + at, base + at + n, MdStyle::Marker),
            run(base + at + n, base + close, MdStyle::Code),
            run(base + close, base + close + n, MdStyle::Marker),
        ] + grammar::inline(b, base, depth, close + n, close + n),
{
    lemma_row(b, at, n, ascii::BACKTICK);
    lemma_exact_run_at(b, at + n, close, ascii::BACKTICK, n);
    assert(grammar::token(b, at) == (Token::Code { ticks: n, end: close + n })) by {
        reveal(grammar::token);
        assert(b[at] == ascii::BACKTICK);
    }
    lemma_token_after(b, base, depth, at);
}

proof fn lemma_close_at(b: Seq<u8>, from: int, j: int, close: int, c: u8, n: int)
    requires
        0 <= from <= j <= close,
        from < close,
        row(b, close, n, c),
        forall|k: int| j <= k < close ==> #[trigger] b[k] != c,
        !grammar::blank(b[close - 1]),
        c == ascii::UNDERSCORE ==> !grammar::word_at(b, close + n),
    ensures
        grammar::emphasis_close(b, from, j, c, n) == Some(close),
    decreases close - j,
{
    lemma_row(b, close, n, c);
    if j < close {
        assert(b[j] != c);
        lemma_close_at(b, from, j + 1, close, c, n);
    } else {
        assert(b[close] == c);
    }
}

/// How text between so many of a mark is shown.
pub open spec fn shown_between(c: u8, n: int) -> Option<MdStyle> {
    if (c == ascii::STAR || c == ascii::UNDERSCORE) && n == 1 {
        Some(MdStyle::Italic)
    } else if (c == ascii::STAR || c == ascii::UNDERSCORE) && n == 2 {
        Some(MdStyle::Bold)
    } else if (c == ascii::STAR || c == ascii::UNDERSCORE) && n == 3 {
        Some(MdStyle::BoldItalic)
    } else if c == ascii::TILDE && n == 2 {
        Some(MdStyle::Strikethrough)
    } else {
        None
    }
}

/// Text between one, two or three asterisks or underscores is italic, bold or both, and
/// text between two tildes is struck through, as long as no blank is inside the marks at
/// either end and an underscore is not inside a word. The marks are markup.
pub proof fn emphasis_is_between_its_marks(
    b: Seq<u8>,
    base: int,
    depth: int,
    at: int,
    c: u8,
    n: int,
    close: int,
)
    requires
        0 <= depth < MAX_INLINE_NEST,
        0 <= at,
        ordinary_up_to(b, 0, at),
        shown_between(c, n) is Some,
        row(b, at, n, c),
        at + n < close,
        row(b, close, n, c),
        !grammar::blank(b[at + n]),
        !grammar::blank(b[close - 1]),
        c == ascii::UNDERSCORE ==> !grammar::word_before(b, at) && !grammar::word_at(b, close + n),
        forall|k: int| at + n <= k < close ==> #[trigger] b[k] != c,
        ordinary_up_to(b.subrange(at + n, close), 0, close - at - n),
    ensures
        grammar::inline(b, base, depth, 0, 0) == prose_before(base, at) + seq![
            run(base + at, base + at + n, MdStyle::Marker),
            run(base + at + n, base + close, shown_between(c, n)->0),
            run(base + close, base + close + n, MdStyle::Marker),
        ] + grammar::inline(b, base, depth, close + n, close + n),
{
    let style = shown_between(c, n)->0;
    lemma_row(b, at, n, c);
    lemma_close_at(b, at + n, at + n, close, c, n);
    assert(b[at] == c);
    let min = if c == ascii::TILDE {
        2int
    } else {
        1
    };
    assert(grammar::emphasis(b, at, c, n, min) == Some((n, close)));
    assert(grammar::token(b, at) == (Token::Emphasis { need: n, close, style })) by {
        reveal(grammar::token);
    }
    lemma_token_after(b, base, depth, at);
    let body = b.subrange(at + n, close);
    plain_text_is_prose(body, base + at + n, depth + 1);
    assert(grammar::wrapped(body, base + at + n, style, depth) =~= seq![
        run(base + at + n, base + close, style),
    ]);
    assert(grammar::markup(b, base, depth, at, grammar::token(b, at)) =~= seq![
        run(base + at, base + at + n, MdStyle::Marker),
        run(base + at + n, base + close, style),
        run(base + close, base + close + n, MdStyle::Marker),
    ]);
}

proof fn lemma_bracket_at(b: Seq<u8>, i: int, rb: int)
    requires
        0 <= i <= rb < b.len(),
        b[rb] == ascii::CLOSE_BRACKET,
        forall|k: int|
            i <= k < rb ==> #[trigger] b[k] != ascii::OPEN_BRACKET && b[k] != ascii::CLOSE_BRACKET,
    ensures
        grammar::seek_bracket(b, i) == rb,
    decreases rb - i,
{
    if i < rb {
        assert(b[i] != ascii::OPEN_BRACKET);
        lemma_bracket_at(b, i + 1, rb);
    }
}

proof fn lemma_seek_at(b: Seq<u8>, i: int, c: u8, k: int)
    requires
        0 <= i <= k < b.len(),
        b[k] == c,
        forall|j: int| i <= j < k ==> #[trigger] b[j] != c,
    ensures
        grammar::seek(b, i, c) == k,
    decreases k - i,
{
    if i < k {
        assert(b[i] != c);
        lemma_seek_at(b, i + 1, c, k);
    }
}

/// `[text](url)`, with or without an exclamation mark in front, at `at`.
pub open spec fn link_at(b: Seq<u8>, at: int, open: int, rb: int, rp: int) -> bool {
    &&& 0 <= at
    &&& open == at || open == at + 1 && b[at] == ascii::BANG
    &&& open < rb
    &&& rb + 2 <= rp < b.len()
    &&& b[open] == ascii::OPEN_BRACKET
    &&& b[rb] == ascii::CLOSE_BRACKET
    &&& b[rb + 1] == ascii::OPEN_PAREN
    &&& b[rp] == ascii::CLOSE_PAREN
    &&& forall|k: int|
        open < k < rb ==> #[trigger] b[k] != ascii::OPEN_BRACKET && b[k] != ascii::CLOSE_BRACKET
    &&& forall|k: int| rb + 2 <= k < rp ==> #[trigger] b[k] != ascii::CLOSE_PAREN
}

proof fn lemma_link_token(b: Seq<u8>, at: int, open: int, rb: int, rp: int)
    requires
        link_at(b, at, open, rb, rp),
    ensures
        grammar::token(b, at) == (Token::Link { open, rb, rp }),
{
    lemma_bracket_at(b, open + 1, rb);
    lemma_seek_at(b, rb + 2, ascii::CLOSE_PAREN, rp);
    reveal(grammar::token);
}

/// A link is shown as its text and its url, and the brackets are markup.
pub proof fn a_link_is_its_text_and_its_url(
    b: Seq<u8>,
    base: int,
    depth: int,
    at: int,
    open: int,
    rb: int,
    rp: int,
)
    requires
        0 <= depth < MAX_INLINE_NEST,
        ordinary_up_to(b, 0, at),
        link_at(b, at, open, rb, rp),
        open + 1 < rb,
        rb + 2 < rp,
        ordinary_up_to(b.subrange(open + 1, rb), 0, rb - open - 1),
    ensures
        grammar::inline(b, base, depth, 0, 0) == prose_before(base, at) + seq![
            run(base + at, base + open + 1, MdStyle::Marker),
            run(base + open + 1, base + rb, MdStyle::LinkText),
            run(base + rb, base + rb + 2, MdStyle::Marker),
            run(base + rb + 2, base + rp, MdStyle::LinkUrl),
            run(base + rp, base + rp + 1, MdStyle::Marker),
        ] + grammar::inline(b, base, depth, rp + 1, rp + 1),
{
    lemma_link_token(b, at, open, rb, rp);
    lemma_token_after(b, base, depth, at);
    let body = b.subrange(open + 1, rb);
    plain_text_is_prose(body, base + open + 1, depth + 1);
    assert(grammar::wrapped(body, base + open + 1, MdStyle::LinkText, depth) =~= seq![
        run(base + open + 1, base + rb, MdStyle::LinkText),
    ]);
    assert(grammar::markup(b, base, depth, at, grammar::token(b, at)) =~= seq![
        run(base + at, base + open + 1, MdStyle::Marker),
        run(base + open + 1, base + rb, MdStyle::LinkText),
        run(base + rb, base + rb + 2, MdStyle::Marker),
        run(base + rb + 2, base + rp, MdStyle::LinkUrl),
        run(base + rp, base + rp + 1, MdStyle::Marker),
    ]);
}

/// Anywhere from its bracket to its parenthesis a link opens its url, without white
/// space around it. Where prose stands nothing opens.
pub proof fn a_link_opens_its_url(
    b: Seq<u8>,
    depth: int,
    at: int,
    open: int,
    rb: int,
    rp: int,
    offset: int,
)
    requires
        0 <= depth <= MAX_INLINE_NEST,
        ordinary_up_to(b, 0, at),
        link_at(b, at, open, rb, rp),
        text::trimmed(decode_utf8(b.subrange(rb + 2, rp))).len() > 0,
        0 <= offset <= rp,
    ensures
        grammar::opens(b, depth, 0, offset) == (if open <= offset {
            Some(text::trimmed(decode_utf8(b.subrange(rb + 2, rp))))
        } else {
            None
        }),
{
    lemma_link_token(b, at, open, rb, rp);
    lemma_opens_through(b, depth, 0, at, offset);
    grammar::lemma_token(b, at);
}

proof fn lemma_opens_through(b: Seq<u8>, depth: int, i: int, k: int, offset: int)
    requires
        0 <= i <= k <= b.len(),
        0 <= depth <= MAX_INLINE_NEST,
        ordinary_up_to(b, i, k),
    ensures
        grammar::opens(b, depth, i, offset) == grammar::opens(b, depth, k, offset),
    decreases k - i,
{
    if i < k {
        assert(ordinary(b, i));
        lemma_ordinary(b, i);
        grammar::lemma_token(b, i);
        lemma_opens_through(b, depth, i + 1, k, offset);
    }
}

/// Prose opens nothing.
pub proof fn prose_opens_nothing(b: Seq<u8>, depth: int, offset: int)
    requires
        0 <= depth <= MAX_INLINE_NEST,
        ordinary_up_to(b, 0, b.len() as int),
    ensures
        grammar::opens(b, depth, 0, offset) is None,
{
    lemma_opens_through(b, depth, 0, b.len() as int, offset);
}

/// A bare url: what follows `http://` or `https://` up to a blank, an angle bracket, a
/// quote or a backtick, without the marks that end a sentence.
pub open spec fn url_at(b: Seq<u8>, at: int, n: int, end: int, stop: int) -> bool {
    let http = seq![0x68u8, 0x74, 0x74, 0x70, 0x3a, 0x2f, 0x2f];
    let https = seq![0x68u8, 0x74, 0x74, 0x70, 0x73, 0x3a, 0x2f, 0x2f];
    &&& 0 <= at
    &&& at + n < end <= stop <= b.len()
    &&& n == 7 && b.subrange(at, at + 7) == http || n == 8 && b.subrange(at, at + 8) == https
    &&& forall|k: int|
        at + n <= k < stop ==> #[trigger] b[k] != ascii::SPACE && b[k] != ascii::TAB && b[k]
            != ascii::LESS && b[k] != ascii::GREATER && b[k] != ascii::QUOTE && b[k]
            != ascii::BACKTICK
    &&& stop < b.len() ==> b[stop] == ascii::SPACE || b[stop] == ascii::TAB || b[stop] == ascii::LESS
        || b[stop] == ascii::GREATER || b[stop] == ascii::QUOTE || b[stop] == ascii::BACKTICK
    &&& forall|k: int| end <= k < stop ==> ends_a_sentence(#[trigger] b[k])
    &&& !ends_a_sentence(b[end - 1])
}

/// One of `. , ; : ! ? ) ] } '`.
pub open spec fn ends_a_sentence(c: u8) -> bool {
    c == 0x2e || c == 0x2c || c == 0x3b || c == 0x3a || c == 0x21 || c == 0x3f || c == 0x29 || c
        == 0x5d || c == 0x7d || c == 0x27
}

proof fn lemma_url_stop(b: Seq<u8>, i: int, stop: int)
    requires
        0 <= i <= stop <= b.len(),
        forall|k: int| i <= k < stop ==> !grammar::url_stop(#[trigger] b[k]),
        stop < b.len() ==> grammar::url_stop(b[stop]),
    ensures
        grammar::url_run(b, i) == stop,
    decreases stop - i,
{
    if i < stop {
        assert(!grammar::url_stop(b[i]));
        lemma_url_stop(b, i + 1, stop);
    }
}

proof fn lemma_url_end(b: Seq<u8>, floor: int, end: int, stop: int)
    requires
        0 <= floor < end <= stop <= b.len(),
        forall|k: int| end <= k < stop ==> ends_a_sentence(#[trigger] b[k]),
        !ends_a_sentence(b[end - 1]),
    ensures
        grammar::url_trim(b, floor, stop) == end,
    decreases stop - end,
{
    if end < stop {
        assert(ends_a_sentence(b[stop - 1]));
        lemma_url_end(b, floor, end, stop - 1);
    }
}

/// A bare url that does not stand inside a word is shown as one, and opens itself.
pub proof fn a_bare_url_is_a_link(
    b: Seq<u8>,
    base: int,
    depth: int,
    at: int,
    n: int,
    end: int,
    stop: int,
    offset: int,
)
    requires
        0 <= depth <= MAX_INLINE_NEST,
        ordinary_up_to(b, 0, at),
        url_at(b, at, n, end, stop),
        !grammar::word_before(b, at),
        0 <= offset < end,
    ensures
        grammar::inline(b, base, depth, 0, 0) == prose_before(base, at) + seq![
            run(base + at, base + end, MdStyle::LinkUrl),
        ] + grammar::inline(b, base, depth, end, end),
        grammar::opens(b, depth, 0, offset) == (if at <= offset {
            Some(decode_utf8(b.subrange(at, end)))
        } else {
            None
        }),
{
    let http = seq![0x68u8, 0x74, 0x74, 0x70, 0x3a, 0x2f, 0x2f];
    let https = seq![0x68u8, 0x74, 0x74, 0x70, 0x73, 0x3a, 0x2f, 0x2f];
    assert(grammar::http() =~= http);
    assert(grammar::https() =~= https);
    assert forall|k: int| at + n <= k < stop implies !grammar::url_stop(#[trigger] b[k]) by {}
    lemma_url_stop(b, at + n, stop);
    lemma_url_end(b, at + n, end, stop);
    if n == 8 {
        assert(b.subrange(at, at + 8)[4] == b[at + 4]);
        if b.subrange(at, at + 7) == http {
            assert(b.subrange(at, at + 7)[4] == b[at + 4]);
        }
        assert(b[at] == b.subrange(at, at + 8)[0]);
    } else {
        assert(b[at] == b.subrange(at, at + 7)[0]);
    }
    assert(b[at] == ascii::LOWER_H);
    assert(grammar::scheme(b, at) == n);
    assert(grammar::token(b, at) == (Token::Url { end })) by {
        reveal(grammar::token);
    }
    lemma_token_after(b, base, depth, at);
    lemma_opens_through(b, depth, 0, at, offset);
    grammar::lemma_token(b, at);
}

// ---------------------------------------------------------------------------
// What a line begins with
// ---------------------------------------------------------------------------

/// Up to three spaces, and then something else.
pub open spec fn slightly_indented(b: Seq<u8>, k: int) -> bool {
    &&& 0 <= k <= 3
    &&& k < b.len()
    &&& forall|i: int| 0 <= i < k ==> #[trigger] b[i] == ascii::SPACE
    &&& b[k] != ascii::SPACE
}

proof fn lemma_indent(b: Seq<u8>, k: int)
    requires
        slightly_indented(b, k),
    ensures
        grammar::indent(b) == k,
{
    assert(k >= 1 ==> b[0] == ascii::SPACE);
    assert(k >= 2 ==> b[1] == ascii::SPACE);
    assert(k >= 3 ==> b[2] == ascii::SPACE);
}

/// One to six hashes and a blank, or the end of the line, make a heading of that level.
/// More hashes make none, and neither does anything else right after them.
pub proof fn hashes_make_a_heading(b: Seq<u8>, k: int, n: int)
    requires
        slightly_indented(b, k),
        row(b, k, n, ascii::HASH),
    ensures
        grammar::heading(b) == (if n > 6 {
            None
        } else if k + n == b.len() {
            Some((n as u8, k + n))
        } else if b[k + n] == ascii::SPACE || b[k + n] == ascii::TAB {
            Some((n as u8, k + n + 1))
        } else {
            None
        }),
{
    lemma_indent(b, k);
    lemma_row(b, k, n, ascii::HASH);
}

/// What does not begin with a hash is no heading, and what does not begin with an angle
/// bracket is no quote.
pub proof fn nothing_else_is_a_heading_or_a_quote(b: Seq<u8>, k: int)
    requires
        slightly_indented(b, k),
    ensures
        b[k] != ascii::HASH ==> grammar::heading(b) is None,
        b[k] != ascii::GREATER ==> grammar::quote(b) is None,
{
    lemma_indent(b, k);
    grammar::lemma_run_end(b, k, ascii::HASH);
}

/// An angle bracket, with one space after it or none, makes a quote. Several nest.
pub proof fn an_angle_bracket_makes_a_quote(b: Seq<u8>, k: int)
    requires
        slightly_indented(b, k),
        b[k] == ascii::GREATER,
        k + 1 == b.len() || b[k + 1] != ascii::GREATER,
        k + 2 < b.len() && b[k + 1] == ascii::SPACE ==> b[k + 2] != ascii::GREATER,
    ensures
        grammar::quote(b) == (if k + 1 < b.len() && b[k + 1] == ascii::SPACE {
            Some(k + 2)
        } else {
            Some(k + 1)
        }),
{
    lemma_indent(b, k);
    reveal_with_fuel(grammar::quote_end, 3);
}

proof fn lemma_blanks(b: Seq<u8>, i: int, k: int)
    requires
        0 <= i <= k <= b.len(),
        forall|j: int| i <= j < k ==> #[trigger] b[j] == ascii::SPACE || b[j] == ascii::TAB,
        k < b.len() ==> b[k] != ascii::SPACE && b[k] != ascii::TAB,
    ensures
        grammar::blanks_end(b, i) == k,
    decreases k - i,
{
    if i < k {
        assert(b[i] == ascii::SPACE || b[i] == ascii::TAB);
        lemma_blanks(b, i + 1, k);
    }
}

proof fn lemma_digits(b: Seq<u8>, i: int, k: int)
    requires
        0 <= i <= k <= b.len(),
        forall|j: int| i <= j < k ==> 0x30 <= #[trigger] b[j] <= 0x39,
        k < b.len() ==> !(0x30 <= b[k] <= 0x39),
    ensures
        grammar::digits_end(b, i) == k,
    decreases k - i,
{
    if i < k {
        assert(0x30 <= b[i] <= 0x39);
        lemma_digits(b, i + 1, k);
    }
}

/// After any indent a dash, an asterisk or a plus sign makes a list item, and so do one
/// to nine digits with a full stop or a parenthesis, as long as a blank follows. The
/// text begins after that blank.
pub proof fn a_bullet_makes_a_list_item(b: Seq<u8>, k: int, d: int)
    requires
        0 <= k < b.len(),
        forall|j: int| 0 <= j < k ==> #[trigger] b[j] == ascii::SPACE || b[j] == ascii::TAB,
        k <= d < b.len(),
        forall|j: int| k <= j < d ==> 0x30 <= #[trigger] b[j] <= 0x39,
        !(0x30 <= b[d] <= 0x39),
        d == k ==> b[k] != ascii::SPACE && b[k] != ascii::TAB,
    ensures
        grammar::list(b) == (if d + 1 < b.len() && (b[d + 1] == ascii::SPACE || b[d + 1]
            == ascii::TAB) && (d == k && (b[d] == ascii::DASH || b[d] == ascii::STAR || b[d]
            == ascii::PLUS) || 1 <= d - k <= 9 && (b[d] == ascii::DOT || b[d]
            == ascii::CLOSE_PAREN)) {
            Some(d + 2)
        } else {
            None
        }),
{
    if d > k {
        assert(0x30 <= b[k] <= 0x39);
    }
    lemma_blanks(b, 0, k);
    lemma_digits(b, k, d);
}

/// A space in brackets is an open task, and an x a done one. A space after the brackets
/// belongs to the box.
pub proof fn brackets_make_a_task(b: Seq<u8>)
    requires
        b.len() >= 3,
        b[0] == ascii::OPEN_BRACKET,
        b[2] == ascii::CLOSE_BRACKET,
    ensures
        ({
            let end = if b.len() > 3 && b[3] == ascii::SPACE {
                4int
            } else {
                3
            };
            &&& b[1] == 0x20 ==> grammar::task(b) == Some((end, MdStyle::TaskOpen))
            &&& b[1] == 0x78 || b[1] == 0x58 ==> grammar::task(b) == Some((end, MdStyle::TaskDone))
            &&& b[1] != 0x20 && b[1] != 0x78 && b[1] != 0x58 ==> grammar::task(b) is None
        }),
{
}

/// Three or more backticks or tildes make a fence, and fewer do not. After backticks no
/// other may follow.
pub proof fn three_ticks_make_a_fence(b: Seq<u8>, k: int, n: int, c: u8)
    requires
        slightly_indented(b, k),
        row(b, k, n, c),
    ensures
        c == ascii::TILDE ==> (grammar::fence(b) <==> n >= 3),
        c == ascii::BACKTICK ==> (grammar::fence(b) <==> n >= 3 && !b.skip(k + n).contains(
            ascii::BACKTICK,
        )),
        c != ascii::TILDE && c != ascii::BACKTICK ==> !grammar::fence(b),
{
    lemma_indent(b, k);
    assert(b[k] == c);
    lemma_row(b, k, n, c);
    if c == ascii::BACKTICK && n >= 3 {
        let rest = b.skip(k + n);
        if rest.contains(ascii::BACKTICK) {
            let i = choose|i: int| 0 <= i < rest.len() && rest[i] == ascii::BACKTICK;
            assert(b[k + n + i] == ascii::BACKTICK);
        } else {
            assert forall|i: int| k + n <= i < b.len() implies #[trigger] b[i] != ascii::BACKTICK by {
                assert(rest[i - k - n] == b[i]);
            }
        }
    }
}

/// A fence turns a code block on or off for the lines after it, and no other line does.
pub proof fn a_fence_opens_and_closes(lines: Seq<Seq<u8>>, k: int)
    requires
        0 <= k < lines.len(),
    ensures
        !grammar::open_fence(lines, 0),
        grammar::fence(lines[k]) ==> (grammar::open_fence(lines, k + 1) <==> !grammar::open_fence(
            lines,
            k,
        )),
        !grammar::fence(lines[k]) ==> (grammar::open_fence(lines, k + 1) <==> grammar::open_fence(
            lines,
            k,
        )),
{
}

proof fn lemma_merged_one(a: Run)
    ensures
        grammar::merged(seq![a]) == seq![a],
{
    assert(seq![a].drop_last() =~= seq![]);
    assert(grammar::merged(seq![a].drop_last()) =~= seq![]);
    assert(grammar::merged(seq![a]) =~= seq![a]);
}

proof fn lemma_merged_two(a: Run, b: Run)
    requires
        a.style != b.style,
    ensures
        grammar::merged(seq![a, b]) == seq![a, b],
{
    lemma_merged_one(a);
    assert(seq![a, b].drop_last() =~= seq![a]);
    assert(grammar::merged(seq![a, b]) =~= seq![a, b]);
}

proof fn lemma_merged_three(a: Run, b: Run, c: Run)
    requires
        a.style != b.style,
        b.style != c.style,
    ensures
        grammar::merged(seq![a, b, c]) == seq![a, b, c],
{
    lemma_merged_two(a, b);
    assert(seq![a, b, c].drop_last() =~= seq![a, b]);
    assert(grammar::merged(seq![a, b, c]) =~= seq![a, b, c]);
}

/// A fence is shown as one, in a code block and outside. In a code block every other line
/// is code, and a line of three or more of one mark outside of it is a separator.
pub proof fn whole_lines_are_shown_whole(b: Seq<u8>, in_code_block: bool)
    requires
        b.len() > 0,
    ensures
        grammar::fence(b) ==> grammar::line(b, in_code_block) == seq![
            run(0, b.len() as int, MdStyle::Fence),
        ],
        !grammar::fence(b) && in_code_block ==> grammar::line(b, in_code_block) == seq![
            run(0, b.len() as int, MdStyle::CodeBlock),
        ],
        !grammar::fence(b) && !in_code_block && grammar::separator(decode_utf8(b)) ==> grammar::line(
            b,
            in_code_block,
        ) == seq![run(0, b.len() as int, MdStyle::Separator)],
        grammar::line(Seq::<u8>::empty(), in_code_block).len() == 0,
{
    let n = b.len() as int;
    lemma_merged_one(run(0, n, MdStyle::Fence));
    lemma_merged_one(run(0, n, MdStyle::CodeBlock));
    lemma_merged_one(run(0, n, MdStyle::Separator));
}

/// A heading is shown as its marker and its text, each with its level.
pub proof fn a_heading_is_shown(b: Seq<u8>, level: u8, at: int)
    requires
        b.len() > 0,
        !grammar::fence(b),
        !grammar::separator(decode_utf8(b)),
        grammar::heading(b) == Some((level, at)),
        0 <= at < b.len(),
        ordinary_up_to(b.subrange(at, b.len() as int), 0, b.len() - at),
    ensures
        grammar::line(b, false) == seq![
            run(0, at, MdStyle::HeadingMarker(level)),
            run(at, b.len() as int, MdStyle::Heading(level)),
        ],
{
    let n = b.len() as int;
    let body = b.subrange(at, n);
    plain_text_is_prose(body, at, 1);
    let style = MdStyle::Heading(level);
    assert(grammar::wrapped(body, at, style, 0) =~= seq![run(at, n, style)]);
    assert(grammar::raw_line(b, false) =~= seq![
        run(0, at, MdStyle::HeadingMarker(level)),
        run(at, n, style),
    ]);
    lemma_merged_two(run(0, at, MdStyle::HeadingMarker(level)), run(at, n, style));
}

/// A line that is neither of these.
pub open spec fn flows(b: Seq<u8>) -> bool {
    &&& b.len() > 0
    &&& !grammar::fence(b)
    &&& !grammar::separator(decode_utf8(b))
    &&& grammar::heading(b) is None
}

/// A line of text without markup is shown as it is, a quoted one as a quote after its
/// mark, and a list item after its bullet.
pub proof fn quotes_and_items_are_shown(b: Seq<u8>, at: int)
    requires
        flows(b),
        0 <= at < b.len(),
    ensures
        grammar::quote(b) is None && grammar::list(b) is None && ordinary_up_to(
            b,
            0,
            b.len() as int,
        ) ==> grammar::line(b, false) == seq![run(0, b.len() as int, MdStyle::Text)],
        ({
            let rest = b.subrange(at, b.len() as int);
            grammar::quote(b) == Some(at) && flows(rest) && grammar::quote(rest) is None
                && grammar::list(rest) is None && ordinary_up_to(rest, 0, rest.len() as int)
        }) ==> grammar::line(b, false) == seq![
            run(0, at, MdStyle::QuoteMarker),
            run(at, b.len() as int, MdStyle::Quote),
        ],
        ({
            let rest = b.subrange(at, b.len() as int);
            grammar::quote(b) is None && grammar::list(b) == Some(at) && grammar::task(rest) is None
                && ordinary_up_to(rest, 0, rest.len() as int)
        }) ==> grammar::line(b, false) == seq![
            run(0, at, MdStyle::ListMarker),
            run(at, b.len() as int, MdStyle::Text),
        ],
{
    let n = b.len() as int;
    let rest = b.subrange(at, n);
    if grammar::quote(b) is None && grammar::list(b) is None && ordinary_up_to(b, 0, n) {
        plain_text_is_prose(b, 0, 0);
        lemma_merged_one(run(0, n, MdStyle::Text));
    }
    if grammar::quote(b) == Some(at) && flows(rest) && grammar::quote(rest) is None && grammar::list(
        rest,
    ) is None && ordinary_up_to(rest, 0, rest.len() as int) {
        grammar::lemma_quote(b);
        plain_text_is_prose(rest, 0, 0);
        lemma_merged_one(run(0, n - at, MdStyle::Text));
        assert(grammar::line(rest, false) == seq![run(0, n - at, MdStyle::Text)]);
        assert(grammar::quoted(grammar::line(rest, false), at) =~= seq![run(at, n, MdStyle::Quote)]);
        assert(grammar::raw_line(b, false) =~= seq![
            run(0, at, MdStyle::QuoteMarker),
            run(at, n, MdStyle::Quote),
        ]);
        lemma_merged_two(run(0, at, MdStyle::QuoteMarker), run(at, n, MdStyle::Quote));
    }
    if grammar::quote(b) is None && grammar::list(b) == Some(at) && grammar::task(rest) is None
        && ordinary_up_to(rest, 0, rest.len() as int) {
        plain_text_is_prose(rest, at, 0);
        assert(grammar::raw_line(b, false) =~= seq![
            run(0, at, MdStyle::ListMarker),
            run(at, n, MdStyle::Text),
        ]);
        lemma_merged_two(run(0, at, MdStyle::ListMarker), run(at, n, MdStyle::Text));
    }
}

/// A task is shown as its bullet, its box and its text, which is struck through once the
/// task is done.
pub proof fn a_done_task_is_struck_through(b: Seq<u8>, at: int, box_end: int, style: MdStyle)
    requires
        flows(b),
        0 <= at,
        grammar::quote(b) is None,
        grammar::list(b) == Some(at),
        at < box_end < b.len(),
        grammar::task(b.subrange(at, b.len() as int)) == Some((box_end - at, style)),
        ordinary_up_to(b.subrange(box_end, b.len() as int), 0, b.len() - box_end),
    ensures
        style == MdStyle::TaskOpen || style == MdStyle::TaskDone,
        grammar::line(b, false) == seq![
            run(0, at, MdStyle::ListMarker),
            run(at, box_end, style),
            run(
                box_end,
                b.len() as int,
                if style == MdStyle::TaskDone {
                    MdStyle::Strikethrough
                } else {
                    MdStyle::Text
                },
            ),
        ],
{
    let n = b.len() as int;
    let tail = b.subrange(box_end, n);
    plain_text_is_prose(tail, box_end, 0);
    let shown = if style == MdStyle::TaskDone {
        MdStyle::Strikethrough
    } else {
        MdStyle::Text
    };
    assert(grammar::struck(seq![run(box_end, n, MdStyle::Text)]) =~= seq![
        run(box_end, n, MdStyle::Strikethrough),
    ]);
    assert(grammar::raw_line(b, false) =~= seq![
        run(0, at, MdStyle::ListMarker),
        run(at, box_end, style),
        run(box_end, n, shown),
    ]);
    lemma_merged_three(
        run(0, at, MdStyle::ListMarker),
        run(at, box_end, style),
        run(box_end, n, shown),
    );
}

// ---------------------------------------------------------------------------
// What a line hands on
// ---------------------------------------------------------------------------

/// The digits of a number, as bytes.
pub open spec fn digits(n: nat) -> Seq<u8>
    decreases n,
{
    if n < 10 {
        seq![(0x30 + n) as u8]
    } else {
        digits(n / 10).push((0x30 + n % 10) as u8)
    }
}

proof fn lemma_number(n: nat)
    ensures
        grammar::number(digits(n)) == n,
        digits(n).len() > 0,
        forall|i: int| 0 <= i < digits(n).len() ==> 0x30 <= #[trigger] digits(n)[i] <= 0x39,
    decreases n,
{
    if n < 10 {
        let d = seq![(0x30 + n) as u8];
        assert(d.drop_last() =~= seq![]);
        assert(grammar::number(d.drop_last()) == 0);
    } else {
        lemma_number(n / 10);
        let less = digits(n / 10);
        let last = (0x30 + n % 10) as u8;
        assert(less.push(last).drop_last() =~= less);
        assert(n == (n / 10) * 10 + n % 10);
    }
}

/// The item after a numbered one has the next number, with the indent and the rest of the
/// bullet as they are. Any other bullet is handed on as it is.
pub proof fn a_numbered_list_counts_up(lead: Seq<u8>, n: nat, rest: Seq<u8>)
    requires
        forall|j: int| 0 <= j < lead.len() ==> #[trigger] lead[j] == ascii::SPACE || lead[j]
            == ascii::TAB,
        rest.len() > 0 ==> !(0x30 <= rest[0] <= 0x39),
        n < u64::MAX,
    ensures
        grammar::next_bullet(lead + digits(n) + rest) == decode_utf8(lead) + text::decimal_chars(
            n + 1,
        ) + decode_utf8(rest),
        rest.len() > 0 && rest[0] != ascii::SPACE && rest[0] != ascii::TAB ==> grammar::next_bullet(
            lead + rest,
        ) == decode_utf8(lead + rest),
{
    lemma_number(n);
    let d = digits(n);
    let b = lead + d + rest;
    let i = lead.len() as int;
    let j = i + d.len();
    assert forall|k: int| 0 <= k < i implies #[trigger] b[k] == ascii::SPACE || b[k] == ascii::TAB by {
        assert(b[k] == lead[k]);
    }
    assert(b[i] == d[0]);
    lemma_blanks(b, 0, i);
    assert forall|k: int| i <= k < j implies 0x30 <= #[trigger] b[k] <= 0x39 by {
        assert(b[k] == d[k - i]);
    }
    if j < b.len() {
        assert(b[j] == rest[0]);
    }
    lemma_digits(b, i, j);
    assert(b.subrange(i, j) =~= d);
    assert(b.subrange(0, i) =~= lead);
    assert(b.subrange(j, b.len() as int) =~= rest);
    if rest.len() > 0 && rest[0] != ascii::SPACE && rest[0] != ascii::TAB {
        let c = lead + rest;
        assert forall|k: int| 0 <= k < i implies #[trigger] c[k] == ascii::SPACE || c[k]
            == ascii::TAB by {
            assert(c[k] == lead[k]);
        }
        assert(c[i] == rest[0]);
        lemma_blanks(c, 0, i);
        lemma_digits(c, i, i);
    }
}

/// A new line takes up the one before it: the mark of a quote and then what is inside
/// goes on, a list item goes on with the next bullet, and a task with an open box. What
/// is none of these hands nothing on.
pub proof fn a_line_is_taken_up(b: Seq<u8>)
    ensures
        grammar::quote(b) is None && grammar::list(b) is None ==> grammar::carried(b) is None,
        grammar::quote(b) is None ==> (grammar::list(b) matches Some(at) ==> {
            let bullet = grammar::next_bullet(b.subrange(0, at));
            match grammar::task(b.subrange(at, b.len() as int)) {
                Some((n, _)) => grammar::carried(b) == Some((bullet + "[ ] "@, at + n)),
                None => grammar::carried(b) == Some((bullet, at)),
            }
        }),
        grammar::quote(b) matches Some(at) ==> {
            let head = decode_utf8(b.subrange(0, at));
            match grammar::carried(b.subrange(at, b.len() as int)) {
                Some((inner, n)) => grammar::carried(b) == Some((head + inner, at + n)),
                None => grammar::carried(b) == Some((head, at)),
            }
        },
{
    reveal_strlit("[ ] ");
    assert("[ ] "@ =~= seq!['[', ' ', ']', ' ']);
    if grammar::quote(b) is Some {
        grammar::lemma_quote(b);
    }
}

// ---------------------------------------------------------------------------
// What is no markup
// ---------------------------------------------------------------------------

proof fn lemma_exact_run_is_exact(b: Seq<u8>, j: int, c: u8, need: int)
    requires
        0 <= j <= b.len(),
        need >= 1,
        j == 0 || j == b.len() || b[j - 1] != c || b[j] != c,
    ensures
        grammar::exact_run(b, j, c, need) matches Some(k) ==> {
            &&& j <= k && k + need <= b.len()
            &&& forall|m: int| k <= m < k + need ==> #[trigger] b[m] == c
            &&& k + need < b.len() ==> b[k + need] != c
            &&& k > 0 ==> b[k - 1] != c
        },
    decreases b.len() - j,
{
    if j < b.len() {
        grammar::lemma_run_end(b, j, c);
        if b[j] == c {
            let e = grammar::run_end(b, j, c);
            lemma_exact_run_is_exact(b, e, c, need);
        } else {
            lemma_exact_run_is_exact(b, j + 1, c, need);
        }
    }
}

/// Code ends at as many ticks as it begins with: no more and no fewer stand on either side
/// of it.
pub proof fn code_ends_at_as_many_ticks(b: Seq<u8>, i: int)
    requires
        0 <= i < b.len(),
    ensures
        grammar::token(b, i) matches Token::Code { ticks, end } ==> {
            &&& b[i] == ascii::BACKTICK
            &&& forall|m: int| i <= m < i + ticks ==> #[trigger] b[m] == ascii::BACKTICK
            &&& b[i + ticks] != ascii::BACKTICK
            &&& b[end - ticks - 1] != ascii::BACKTICK
            &&& forall|m: int| end - ticks <= m < end ==> #[trigger] b[m] == ascii::BACKTICK
            &&& end < b.len() ==> b[end] != ascii::BACKTICK
        },
{
    reveal(grammar::token);
    if b[i] == ascii::BACKTICK {
        grammar::lemma_run_end(b, i, ascii::BACKTICK);
        let e = grammar::run_end(b, i, ascii::BACKTICK);
        lemma_exact_run_is_exact(b, e, ascii::BACKTICK, e - i);
    }
}

proof fn lemma_closed(b: Seq<u8>, from: int, j: int, c: u8, need: int)
    requires
        0 <= from <= j <= b.len(),
        need >= 1,
    ensures
        grammar::emphasis_close(b, from, j, c, need) matches Some(k) ==> {
            &&& from < k && k + need <= b.len()
            &&& forall|m: int| k <= m < k + need ==> #[trigger] b[m] == c
            &&& !grammar::blank(b[k - 1])
            &&& c == ascii::UNDERSCORE ==> !grammar::word_at(b, grammar::run_end(b, k, c))
        },
    decreases b.len() - j,
{
    if j < b.len() {
        grammar::lemma_run_end(b, j, c);
        if b[j] == c {
            lemma_closed(b, from, grammar::run_end(b, j, c), c, need);
        } else {
            lemma_closed(b, from, j + 1, c, need);
        }
    }
}

proof fn lemma_emphasis_closed(b: Seq<u8>, i: int, c: u8, need: int, min: int)
    requires
        0 <= i,
        i + need <= b.len(),
        1 <= min,
    ensures
        grammar::emphasis(b, i, c, need, min) matches Some((n, k)) ==> {
            &&& min <= n <= need
            &&& i + n < k && k + n <= b.len()
            &&& forall|m: int| k <= m < k + n ==> #[trigger] b[m] == c
            &&& !grammar::blank(b[k - 1])
            &&& c == ascii::UNDERSCORE ==> !grammar::word_at(b, grammar::run_end(b, k, c))
        },
    decreases need,
{
    if need >= min {
        lemma_closed(b, i + need, i + need, c, need);
        if need > min {
            lemma_emphasis_closed(b, i, c, need - 1, min);
        }
    }
}

/// Emphasis has the same mark on both sides, with no blank inside of either. Inside a word
/// an underscore is none, and a single tilde is none anywhere. One mark slants, two
/// embolden or strike, and three do both.
pub proof fn emphasis_holds_on_to_its_text(b: Seq<u8>, i: int)
    requires
        0 <= i < b.len(),
    ensures
        grammar::token(b, i) matches Token::Emphasis { need, close, style } ==> {
            let c = b[i];
            let e = grammar::run_end(b, i, c);
            &&& c == ascii::STAR || c == ascii::UNDERSCORE || c == ascii::TILDE
            &&& 1 <= need <= 3
            &&& forall|m: int| i <= m < i + need ==> #[trigger] b[m] == c
            &&& forall|m: int| close <= m < close + need ==> #[trigger] b[m] == c
            &&& e < b.len() && b[e] != c && !grammar::blank(b[e])
            &&& !grammar::blank(b[close - 1])
            &&& c == ascii::UNDERSCORE ==> !grammar::word_before(b, i) && !grammar::word_at(
                b,
                grammar::run_end(b, close, c),
            )
            &&& c == ascii::TILDE <==> style == MdStyle::Strikethrough
            &&& c == ascii::TILDE ==> need == 2
            &&& c != ascii::TILDE && need == 1 ==> style == MdStyle::Italic
            &&& c != ascii::TILDE && need == 2 ==> style == MdStyle::Bold
            &&& c != ascii::TILDE && need == 3 ==> style == MdStyle::BoldItalic
        },
{
    reveal(grammar::token);
    let c = b[i];
    if c == ascii::STAR || c == ascii::UNDERSCORE || c == ascii::TILDE {
        grammar::lemma_run_end(b, i, c);
        let count = grammar::run_end(b, i, c) - i;
        let most = if c == ascii::TILDE {
            2int
        } else {
            3
        };
        let min = if c == ascii::TILDE {
            2int
        } else {
            1
        };
        lemma_emphasis_closed(
            b,
            i,
            c,
            if count < most {
                count
            } else {
                most
            },
            min,
        );
    }
}

/// A bare url begins with its scheme, and not in the middle of a word.
pub proof fn a_url_begins_a_word(b: Seq<u8>, i: int)
    requires
        0 <= i < b.len(),
    ensures
        grammar::token(b, i) is Url ==> !grammar::word_before(b, i) && (grammar::starts_at(
            b,
            i,
            grammar::http(),
        ) || grammar::starts_at(b, i, grammar::https())),
        b[i] == ascii::LOWER_H && grammar::word_before(b, i) ==> grammar::token(b, i)
            == (Token::Plain { next: i + 1 }),
{
    reveal(grammar::token);
}

proof fn lemma_occurs(n: nat, c: char)
    ensures
        grammar::occurrences(Seq::new(n, |i: int| c), c) == n,
    decreases n,
{
    if n > 0 {
        lemma_occurs((n - 1) as nat, c);
        assert(Seq::new(n, |i: int| c).drop_last() =~= Seq::new((n - 1) as nat, |i: int| c));
    }
}

/// A line of one mark is a separator from three on, whether the mark is a dash, an asterisk
/// or an underscore, and no other character makes one.
pub proof fn three_marks_make_a_separator(n: nat, c: char)
    requires
        n > 0,
        !text::char_whitespace(c),
    ensures
        grammar::separator(Seq::new(n, |i: int| c)) <==> n >= 3 && (c == '-' || c == '*' || c == '_'),
{
    let t = Seq::new(n, |i: int| c);
    lemma_occurs(n, c);
    assert(t[0] == c && t.last() == c);
    assert(text::trimmed_start(t) == t);
    assert(text::trimmed(t) == t);
}

/// Blanks between the marks of a separator do not matter.
pub proof fn marks_may_stand_apart(c: char, gap: char)
    requires
        c == '-' || c == '*' || c == '_',
        gap == ' ' || gap == '\t',
    ensures
        grammar::separator(seq![c, gap, c, gap, c]),
        grammar::separator(seq![c, c, gap, gap, c]),
        !grammar::separator(seq![c, gap, c]),
{
    reveal_with_fuel(grammar::occurrences, 6);
    let a = seq![c, gap, c, gap, c];
    let d = seq![c, c, gap, gap, c];
    let e = seq![c, gap, c];
    assert(text::trimmed(a) == a);
    assert(text::trimmed(d) == d);
    assert(text::trimmed(e) == e);
    assert(a.drop_last() =~= seq![c, gap, c, gap]);
    assert(a.drop_last().drop_last() =~= seq![c, gap, c]);
    assert(a.drop_last().drop_last().drop_last() =~= seq![c, gap]);
    assert(a.drop_last().drop_last().drop_last().drop_last() =~= seq![c]);
    assert(d.drop_last() =~= seq![c, c, gap, gap]);
    assert(d.drop_last().drop_last() =~= seq![c, c, gap]);
    assert(d.drop_last().drop_last().drop_last() =~= seq![c, c]);
    assert(d.drop_last().drop_last().drop_last().drop_last() =~= seq![c]);
}

/// Runs that touch and look alike are one: no two of those of a line are such.
pub proof fn runs_that_look_alike_are_one(rs: Seq<Run>, i: int)
    requires
        0 <= i < grammar::merged(rs).len() - 1,
    ensures
        ({
            let m = grammar::merged(rs);
            m[i].style != m[i + 1].style || m[i].end != m[i + 1].start
        }),
    decreases rs.len(),
{
    let less = rs.drop_last();
    let m = grammar::merged(less);
    if i < m.len() - 1 {
        runs_that_look_alike_are_one(less, i);
    }
}

/// A link in a quote is found as it is in what is quoted, and one in a list item as it is
/// in the text of the item.
pub proof fn a_link_is_found_in_a_quote_and_in_a_list(b: Seq<u8>, k: int)
    requires
        k >= 0,
        !grammar::fence(b),
        !grammar::separator(decode_utf8(b)),
        grammar::heading(b) is None,
    ensures
        grammar::quote(b) matches Some(at) ==> {
            &&& grammar::link_under(b, at + k) == grammar::link_under(
                b.subrange(at, b.len() as int),
                k,
            )
            &&& forall|o: int| 0 <= o < at ==> #[trigger] grammar::link_under(b, o) is None
        },
        grammar::quote(b) is None ==> (grammar::list(b) matches Some(at) ==> {
            let from = grammar::item_text(b, at);
            &&& grammar::link_under(b, from + k) == grammar::opens(
                b.subrange(from, b.len() as int),
                0,
                0,
                k,
            )
            &&& forall|o: int| 0 <= o < from ==> #[trigger] grammar::link_under(b, o) is None
        }),
        grammar::quote(b) is None && grammar::list(b) is None ==> grammar::link_under(b, k)
            == grammar::opens(b, 0, 0, k),
{
}

} // verus!
