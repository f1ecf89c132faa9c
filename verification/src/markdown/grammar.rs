//! What the markup means: the styled runs of a line, as a function of its bytes.

use vstd::prelude::*;
use vstd::utf8::*;
use crate::ascii;
use crate::text;
use crate::markdown::{MdStyle, Span, MAX_INLINE_NEST};

verus! {

/// A styled byte range, in mathematical integers.
pub struct Run {
    pub start: int,
    pub end: int,
    pub style: MdStyle,
}

pub open spec fn run(start: int, end: int, style: MdStyle) -> Run {
    Run { start, end, style }
}

/// The runs that a list of spans stands for.
pub open spec fn runs(spans: Seq<Span>) -> Seq<Run> {
    spans.map_values(|s: Span| run(s.start as int, s.end as int, s.style))
}

// ---------------------------------------------------------------------------
// Lines
// ---------------------------------------------------------------------------

/// The offset after the run of `c` that begins at `i`.
pub open spec fn run_end(b: Seq<u8>, i: int, c: u8) -> int
    decreases b.len() - i,
{
    if 0 <= i < b.len() && b[i] == c {
        run_end(b, i + 1, c)
    } else {
        i
    }
}

/// Leading spaces, of which at most three count as indentation.
pub open spec fn indent(b: Seq<u8>) -> int {
    if b.len() < 1 || b[0] != ascii::SPACE {
        0
    } else if b.len() < 2 || b[1] != ascii::SPACE {
        1
    } else if b.len() < 3 || b[2] != ascii::SPACE {
        2
    } else {
        3
    }
}

/// Three or more backticks or tildes open or close a code block. What follows
/// backticks may not hold another one.
pub open spec fn fence(b: Seq<u8>) -> bool {
    let i = indent(b);
    &&& i < b.len()
    &&& (b[i] == ascii::BACKTICK || b[i] == ascii::TILDE)
    &&& run_end(b, i, b[i]) - i >= 3
    &&& b[i] == ascii::BACKTICK ==> forall|k: int|
        run_end(b, i, ascii::BACKTICK) <= k < b.len() ==> #[trigger] b[k] != ascii::BACKTICK
}

/// How often `c` occurs in `chars`.
pub open spec fn occurrences(chars: Seq<char>, c: char) -> int
    decreases chars.len(),
{
    if chars.len() == 0 {
        0
    } else {
        occurrences(chars.drop_last(), c) + (if chars.last() == c {
            1int
        } else {
            0
        })
    }
}

/// Three or more of one of `-`, `*` and `_`, with nothing but blanks around them.
pub open spec fn separator(line: Seq<char>) -> bool {
    let t = text::trimmed(line);
    &&& t.len() > 0
    &&& (t[0] == '-' || t[0] == '*' || t[0] == '_')
    &&& forall|k: int| 0 <= k < t.len() ==> #[trigger] t[k] == t[0] || t[k] == ' ' || t[k] == '\t'
    &&& occurrences(t, t[0]) >= 3
}

pub open spec fn blank(c: u8) -> bool {
    c == ascii::SPACE || c == ascii::TAB
}

/// One to six `#` and a blank (or nothing) open a heading: its level, and where
/// its text begins.
pub open spec fn heading(b: Seq<u8>) -> Option<(u8, int)> {
    let i = indent(b);
    let e = run_end(b, i, ascii::HASH);
    let level = e - i;
    if level < 1 || level > 6 {
        None
    } else if e == b.len() {
        Some((level as u8, e))
    } else if blank(b[e]) {
        Some((level as u8, e + 1))
    } else {
        None
    }
}

/// The offset after a run of `>`, each with at most one space after it.
pub open spec fn quote_end(b: Seq<u8>, i: int) -> int
    decreases b.len() - i,
{
    if 0 <= i < b.len() && b[i] == ascii::GREATER {
        if i + 1 < b.len() && b[i + 1] == ascii::SPACE {
            quote_end(b, i + 2)
        } else {
            quote_end(b, i + 1)
        }
    } else {
        i
    }
}

/// Where the text of a quoted line begins.
pub open spec fn quote(b: Seq<u8>) -> Option<int> {
    let i = indent(b);
    if i < b.len() && b[i] == ascii::GREATER {
        Some(quote_end(b, i))
    } else {
        None
    }
}

/// The offset after the blanks that begin at `i`.
pub open spec fn blanks_end(b: Seq<u8>, i: int) -> int
    decreases b.len() - i,
{
    if 0 <= i < b.len() && blank(b[i]) {
        blanks_end(b, i + 1)
    } else {
        i
    }
}

pub open spec fn digit(c: u8) -> bool {
    ascii::ZERO <= c <= ascii::NINE
}

/// The offset after the digits that begin at `i`.
pub open spec fn digits_end(b: Seq<u8>, i: int) -> int
    decreases b.len() - i,
{
    if 0 <= i < b.len() && digit(b[i]) {
        digits_end(b, i + 1)
    } else {
        i
    }
}

/// The offset after the bullet at `i`: one of `-`, `*` and `+`, or one to nine
/// digits with `.` or `)` after them.
pub open spec fn bullet_end(b: Seq<u8>, i: int) -> Option<int> {
    if i >= b.len() {
        None
    } else if b[i] == ascii::DASH || b[i] == ascii::STAR || b[i] == ascii::PLUS {
        Some(i + 1)
    } else if digit(b[i]) {
        let j = digits_end(b, i);
        if j - i <= 9 && j < b.len() && (b[j] == ascii::DOT || b[j] == ascii::CLOSE_PAREN) {
            Some(j + 1)
        } else {
            None
        }
    } else {
        None
    }
}

/// Where the text of a list item begins: after its bullet and one blank.
pub open spec fn list(b: Seq<u8>) -> Option<int> {
    match bullet_end(b, blanks_end(b, 0)) {
        Some(after) => if after < b.len() && blank(b[after]) {
            Some(after + 1)
        } else {
            None
        },
        None => None,
    }
}

/// A task box at the head of `b`: where it ends, and whether it is ticked.
pub open spec fn task(b: Seq<u8>) -> Option<(int, MdStyle)> {
    if b.len() < 3 || b[0] != ascii::OPEN_BRACKET || b[2] != ascii::CLOSE_BRACKET {
        None
    } else {
        let end = if b.len() > 3 && b[3] == ascii::SPACE {
            4int
        } else {
            3
        };
        if b[1] == ascii::SPACE {
            Some((end, MdStyle::TaskOpen))
        } else if b[1] == ascii::LOWER_X || b[1] == ascii::UPPER_X {
            Some((end, MdStyle::TaskDone))
        } else {
            None
        }
    }
}

// ---------------------------------------------------------------------------
// Inside a line
// ---------------------------------------------------------------------------

/// Is the character that ends at `i` alphanumeric?
pub open spec fn word_before(b: Seq<u8>, i: int) -> bool {
    text::char_before(b, i) matches Some(c) && text::char_alphanumeric(c)
}

/// Is the character that begins at `i` alphanumeric?
pub open spec fn word_at(b: Seq<u8>, i: int) -> bool {
    i < b.len() && (text::char_at(b, i) matches Some(c) && text::char_alphanumeric(c))
}

/// The first run of exactly `need` copies of `c`, from `j` on.
pub open spec fn exact_run(b: Seq<u8>, j: int, c: u8, need: int) -> Option<int>
    decreases b.len() - j,
{
    if j < 0 || j >= b.len() {
        None
    } else if b[j] == c {
        proof {
            lemma_run_end(b, j, c);
        }
        if run_end(b, j, c) - j == need {
            Some(j)
        } else {
            exact_run(b, run_end(b, j, c), c, need)
        }
    } else {
        exact_run(b, j + 1, c, need)
    }
}

/// The first run, from `j` on, that can close an emphasis whose text begins at
/// `from`: at least `need` copies of `c`, after something other than a blank,
/// and for an underscore not before a word.
pub open spec fn emphasis_close(b: Seq<u8>, from: int, j: int, c: u8, need: int) -> Option<int>
    decreases b.len() - j,
{
    if j < 0 || j >= b.len() {
        None
    } else if b[j] == c {
        proof {
            lemma_run_end(b, j, c);
        }
        let e = run_end(b, j, c);
        if e - j >= need && j > from && !blank(b[j - 1]) && (c == ascii::UNDERSCORE ==> !word_at(b, e)) {
            Some(j)
        } else {
            emphasis_close(b, from, e, c, need)
        }
    } else {
        emphasis_close(b, from, j + 1, c, need)
    }
}

/// The longest emphasis of `min` to `need` copies of `c` that opens at `i` and
/// is closed: how many copies, and where the closing ones begin.
pub open spec fn emphasis(b: Seq<u8>, i: int, c: u8, need: int, min: int) -> Option<(int, int)>
    decreases need - min,
{
    if need < min {
        None
    } else {
        match emphasis_close(b, i + need, i + need, c, need) {
            Some(j) => Some((need, j)),
            None => if need == min {
                None
            } else {
                emphasis(b, i, c, need - 1, min)
            },
        }
    }
}

pub open spec fn emphasis_style(c: u8, need: int) -> MdStyle {
    if c == ascii::TILDE {
        MdStyle::Strikethrough
    } else if need == 3 {
        MdStyle::BoldItalic
    } else if need == 2 {
        MdStyle::Bold
    } else {
        MdStyle::Italic
    }
}

/// The offset of the first `c` from `i` on, or the end.
pub open spec fn seek(b: Seq<u8>, i: int, c: u8) -> int
    decreases b.len() - i,
{
    if 0 <= i < b.len() && b[i] != c {
        seek(b, i + 1, c)
    } else {
        i
    }
}

/// The offset of the first `[` or `]` from `i` on, or the end.
pub open spec fn seek_bracket(b: Seq<u8>, i: int) -> int
    decreases b.len() - i,
{
    if 0 <= i < b.len() && b[i] != ascii::CLOSE_BRACKET && b[i] != ascii::OPEN_BRACKET {
        seek_bracket(b, i + 1)
    } else {
        i
    }
}

/// The offsets of `]` and `)` of the `[text](url)` that opens at `open`. The
/// text holds no bracket.
pub open spec fn link(b: Seq<u8>, open: int) -> Option<(int, int)> {
    let rb = seek_bracket(b, open + 1);
    if rb + 1 < b.len() && b[rb] == ascii::CLOSE_BRACKET && b[rb + 1] == ascii::OPEN_PAREN {
        let rp = seek(b, rb + 2, ascii::CLOSE_PAREN);
        if rp < b.len() {
            Some((rb, rp))
        } else {
            None
        }
    } else {
        None
    }
}

pub open spec fn url_stop(c: u8) -> bool {
    c == ascii::SPACE || c == ascii::TAB || c == ascii::LESS || c == ascii::GREATER || c == ascii::QUOTE || c == ascii::BACKTICK
}

pub open spec fn url_run(b: Seq<u8>, i: int) -> int
    decreases b.len() - i,
{
    if 0 <= i < b.len() && !url_stop(b[i]) {
        url_run(b, i + 1)
    } else {
        i
    }
}

pub open spec fn sentence_mark(c: u8) -> bool {
    c == ascii::DOT || c == ascii::COMMA || c == ascii::SEMICOLON || c == ascii::COLON || c == ascii::BANG || c == ascii::QUESTION || c == ascii::CLOSE_PAREN || c
        == ascii::CLOSE_BRACKET || c == ascii::CLOSE_BRACE || c == ascii::APOSTROPHE
}

/// `end` moved back over the punctuation before it, not past `floor`.
pub open spec fn url_trim(b: Seq<u8>, floor: int, end: int) -> int
    decreases end - floor,
{
    if 0 <= floor < end <= b.len() && sentence_mark(b[end - 1]) {
        url_trim(b, floor, end - 1)
    } else {
        end
    }
}

pub open spec fn http() -> Seq<u8> {
    seq![ascii::LOWER_H, ascii::LOWER_T, ascii::LOWER_T, ascii::LOWER_P, ascii::COLON, ascii::SLASH, ascii::SLASH]
}

pub open spec fn https() -> Seq<u8> {
    seq![ascii::LOWER_H, ascii::LOWER_T, ascii::LOWER_T, ascii::LOWER_P, ascii::LOWER_S, ascii::COLON, ascii::SLASH, ascii::SLASH]
}

pub open spec fn starts_at(b: Seq<u8>, i: int, word: Seq<u8>) -> bool {
    0 <= i && i + word.len() <= b.len() && b.subrange(i, i + word.len()) =~= word
}

/// How long the scheme of a url at `i` is; nothing where none stands there.
pub open spec fn scheme(b: Seq<u8>, i: int) -> int {
    if starts_at(b, i, http()) {
        7
    } else if starts_at(b, i, https()) {
        8
    } else {
        0
    }
}

/// Where the bare url at `i` ends: at a blank, an angle bracket, a quote or a
/// backtick, less the punctuation that ends the sentence around it.
pub open spec fn autolink(b: Seq<u8>, i: int) -> Option<int> {
    let s = scheme(b, i);
    if s == 0 || word_before(b, i) {
        None
    } else {
        Some(url_trim(b, i + s, url_run(b, i + s)))
    }
}

/// What stands at an offset of a line.
pub enum Token {
    /// Inline code between runs of `ticks` backticks, up to `end`.
    Code { ticks: int, end: int },
    /// An emphasis of `need` marks, with the closing ones at `close`.
    Emphasis { need: int, close: int, style: MdStyle },
    /// A link whose text begins after `open`.
    Link { open: int, rb: int, rp: int },
    /// A bare url, up to `end`.
    Url { end: int },
    /// Prose, up to `next`.
    Plain { next: int },
}

pub open spec fn emphasis_token(b: Seq<u8>, i: int, c: u8) -> Token {
    let e = run_end(b, i, c);
    let count = e - i;
    let min = if c == ascii::TILDE {
        2int
    } else {
        1
    };
    let most = if c == ascii::TILDE {
        2int
    } else {
        3
    };
    let need = if count < most {
        count
    } else {
        most
    };
    let opens = count >= min && e < b.len() && !blank(b[e]) && !(c == ascii::UNDERSCORE && word_before(b, i));
    match emphasis(b, i, c, need, min) {
        Some((n, close)) if opens => Token::Emphasis { need: n, close, style: emphasis_style(c, n) },
        _ => Token::Plain { next: e },
    }
}

pub open spec fn link_token(b: Seq<u8>, i: int) -> Token {
    let open = if b[i] == ascii::BANG {
        i + 1
    } else {
        i
    };
    match link(b, open) {
        Some((rb, rp)) if open < b.len() && b[open] == ascii::OPEN_BRACKET => Token::Link { open, rb, rp },
        _ => Token::Plain { next: i + 1 },
    }
}

#[verifier::opaque]
pub open spec fn token(b: Seq<u8>, i: int) -> Token {
    let c = b[i];
    if c == ascii::BACKTICK {
        let e = run_end(b, i, ascii::BACKTICK);
        match exact_run(b, e, ascii::BACKTICK, e - i) {
            Some(j) => Token::Code { ticks: e - i, end: j + (e - i) },
            None => Token::Plain { next: e },
        }
    } else if c == ascii::STAR || c == ascii::UNDERSCORE || c == ascii::TILDE {
        emphasis_token(b, i, c)
    } else if c == ascii::BANG || c == ascii::OPEN_BRACKET {
        link_token(b, i)
    } else if c == ascii::LOWER_H {
        match autolink(b, i) {
            Some(end) => Token::Url { end },
            None => Token::Plain { next: i + 1 },
        }
    } else {
        Token::Plain { next: i + 1 }
    }
}

/// The prose between two offsets, as one run or none.
pub open spec fn prose(base: int, start: int, end: int) -> Seq<Run> {
    if start < end {
        seq![run(base + start, base + end, MdStyle::Text)]
    } else {
        seq![]
    }
}

/// `rs` with its prose in `style`.
pub open spec fn recoloured(rs: Seq<Run>, style: MdStyle) -> Seq<Run> {
    rs.map_values(
        |r: Run|
            if r.style == MdStyle::Text {
                run(r.start, r.end, style)
            } else {
                r
            },
    )
}

/// Where a token ends.
pub open spec fn token_end(t: Token) -> int {
    match t {
        Token::Plain { next } => next,
        Token::Code { ticks, end } => end,
        Token::Emphasis { need, close, style } => close + need,
        Token::Link { open, rb, rp } => rp + 1,
        Token::Url { end } => end,
    }
}

/// The runs of `b` from offset `i` on, with the prose before `i` reaching back
/// to `from`. `base` is where `b` stands in its line.
pub open spec fn inline(b: Seq<u8>, base: int, depth: int, i: int, from: int) -> Seq<Run>
    decreases MAX_INLINE_NEST + 1 - depth, 2int, b.len() - i,
{
    if i < 0 || i >= b.len() || depth < 0 || depth > MAX_INLINE_NEST {
        prose(base, from, b.len() as int)
    } else {
        proof {
            lemma_token(b, i);
        }
        let t = token(b, i);
        let end = token_end(t);
        match t {
            Token::Plain { next } => inline(b, base, depth, next, from),
            _ => prose(base, from, i) + markup(b, base, depth, i, t) + inline(
                b,
                base,
                depth,
                end,
                end,
            ),
        }
    }
}

/// The runs of the token `t` at `i`.
pub open spec fn markup(b: Seq<u8>, base: int, depth: int, i: int, t: Token) -> Seq<Run>
    decreases MAX_INLINE_NEST + 1 - depth, 1int, 0int,
{
    match t {
        Token::Plain { next } => seq![],
        Token::Code { ticks, end } => seq![
            run(base + i, base + i + ticks, MdStyle::Marker),
            run(base + i + ticks, base + end - ticks, MdStyle::Code),
            run(base + end - ticks, base + end, MdStyle::Marker),
        ],
        Token::Emphasis { need, close, style } => seq![
            run(base + i, base + i + need, MdStyle::Marker),
        ] + wrapped(b.subrange(i + need, close), base + i + need, style, depth) + seq![
            run(base + close, base + close + need, MdStyle::Marker),
        ],
        Token::Link { open, rb, rp } => seq![run(base + i, base + open + 1, MdStyle::Marker)] + (
        if rb > open + 1 {
            wrapped(b.subrange(open + 1, rb), base + open + 1, MdStyle::LinkText, depth)
        } else {
            seq![]
        }) + seq![run(base + rb, base + rb + 2, MdStyle::Marker)] + (if rp > rb + 2 {
            seq![run(base + rb + 2, base + rp, MdStyle::LinkUrl)]
        } else {
            seq![]
        }) + seq![run(base + rp, base + rp + 1, MdStyle::Marker)],
        Token::Url { end } => seq![run(base + i, base + end, MdStyle::LinkUrl)],
    }
}

/// The runs of markup inside other markup: its prose takes the style around it.
/// Past the deepest nesting it is one run.
pub open spec fn wrapped(b: Seq<u8>, base: int, style: MdStyle, depth: int) -> Seq<Run>
    decreases MAX_INLINE_NEST + 1 - depth, 0int, 0int,
{
    if depth < 0 || depth >= MAX_INLINE_NEST {
        seq![run(base, base + b.len(), style)]
    } else {
        recoloured(inline(b, base, depth + 1, 0, 0), style)
    }
}

/// Adjacent runs of one style, joined.
pub open spec fn merged(rs: Seq<Run>) -> Seq<Run>
    decreases rs.len(),
{
    if rs.len() == 0 {
        rs
    } else {
        let m = merged(rs.drop_last());
        let r = rs.last();
        if m.len() > 0 && m.last().style == r.style && m.last().end == r.start {
            m.update(m.len() - 1, run(m.last().start, r.end, r.style))
        } else {
            m.push(r)
        }
    }
}

/// Every run of `rs`, in one style.
pub open spec fn struck(rs: Seq<Run>) -> Seq<Run> {
    rs.map_values(|r: Run| run(r.start, r.end, MdStyle::Strikethrough))
}

/// The runs of the remainder of a quoted line, where it stands in that line.
pub open spec fn quoted(rs: Seq<Run>, at: int) -> Seq<Run> {
    rs.map_values(
        |r: Run|
            run(
                r.start + at,
                r.end + at,
                if r.style == MdStyle::Text {
                    MdStyle::Quote
                } else {
                    r.style
                },
            ),
    )
}

/// The runs of a list item, from the end of its bullet on.
pub open spec fn item(b: Seq<u8>, at: int) -> Seq<Run> {
    let rest = b.subrange(at, b.len() as int);
    match task(rest) {
        Some((n, style)) => {
            let tail = b.subrange(at + n, b.len() as int);
            let inner = if at + n < b.len() {
                inline(tail, at + n, 0, 0, 0)
            } else {
                seq![]
            };
            seq![run(at, at + n, style)] + (if style == MdStyle::TaskDone {
                struck(inner)
            } else {
                inner
            })
        },
        None => if at < b.len() {
            inline(rest, at, 0, 0, 0)
        } else {
            seq![]
        },
    }
}

/// The runs of a line before those of one style are joined.
pub open spec fn raw_line(b: Seq<u8>, in_code_block: bool) -> Seq<Run>
    decreases b.len(), 0int,
{
    let n = b.len() as int;
    if fence(b) {
        seq![run(0, n, MdStyle::Fence)]
    } else if in_code_block {
        seq![run(0, n, MdStyle::CodeBlock)]
    } else if separator(decode_utf8(b)) {
        seq![run(0, n, MdStyle::Separator)]
    } else if let Some((level, at)) = heading(b) {
        seq![run(0, at, MdStyle::HeadingMarker(level))] + (if at < n {
            wrapped(b.subrange(at, n), at, MdStyle::Heading(level), 0)
        } else {
            seq![]
        })
    } else if let Some(at) = quote(b) {
        proof {
            lemma_quote(b);
        }
        seq![run(0, at, MdStyle::QuoteMarker)] + (if at < n {
            quoted(line(b.subrange(at, n), false), at)
        } else {
            seq![]
        })
    } else if let Some(at) = list(b) {
        seq![run(0, at, MdStyle::ListMarker)] + item(b, at)
    } else {
        inline(b, 0, 0, 0, 0)
    }
}

/// Where the text of a line that is shown as a quote begins.
pub open spec fn quoted_from(b: Seq<u8>, in_code_block: bool) -> Option<int> {
    if in_code_block || fence(b) || separator(decode_utf8(b)) || heading(b) is Some {
        None
    } else {
        quote(b)
    }
}

/// The runs of a line.
pub open spec fn line(b: Seq<u8>, in_code_block: bool) -> Seq<Run>
    decreases b.len(), 1int,
{
    if b.len() == 0 {
        seq![]
    } else {
        merged(raw_line(b, in_code_block))
    }
}

/// The number that the digits `b` write.
pub open spec fn number(b: Seq<u8>) -> nat
    decreases b.len(),
{
    if b.len() == 0 {
        0
    } else {
        (number(b.drop_last()) * 10 + (b.last() - ascii::ZERO)) as nat
    }
}

/// The bullet after `b`: the same one, except that an ordered list counts up. A
/// number that does not fit in 64 bits stays as it is.
pub open spec fn next_bullet(b: Seq<u8>) -> Seq<char> {
    let i = blanks_end(b, 0);
    let j = digits_end(b, i);
    let n = number(b.subrange(i, j));
    if i == j || n > u64::MAX {
        decode_utf8(b)
    } else {
        let next = if n == u64::MAX {
            n
        } else {
            n + 1
        };
        decode_utf8(b.subrange(0, i)) + text::decimal_chars(next) + decode_utf8(
            b.subrange(j, b.len() as int),
        )
    }
}

/// What a line hands on to the one after it (its quote marks, its next bullet,
/// an open task box), and where that structure ends.
pub open spec fn carried(b: Seq<u8>) -> Option<(Seq<char>, int)>
    decreases b.len(),
{
    let n = b.len() as int;
    if let Some(end) = quote(b) {
        proof {
            lemma_quote(b);
        }
        let head = decode_utf8(b.subrange(0, end));
        match carried(b.subrange(end, n)) {
            Some((inner, inner_end)) => Some((head + inner, end + inner_end)),
            None => Some((head, end)),
        }
    } else if let Some(end) = list(b) {
        let bullet = next_bullet(b.subrange(0, end));
        match task(b.subrange(end, n)) {
            Some((k, style)) => Some((bullet + seq!['[', ' ', ']', ' '], end + k)),
            None => Some((bullet, end)),
        }
    } else {
        None
    }
}

/// Whether the first `k` of `lines` leave a code block open.
pub open spec fn open_fence(lines: Seq<Seq<u8>>, k: int) -> bool
    decreases k,
{
    if k <= 0 {
        false
    } else {
        open_fence(lines, k - 1) != fence(lines[k - 1])
    }
}

/// The target of the link under `offset` of a text with inline markup, looking
/// from `i` on. A link opens from its bracket to its parenthesis; one without a
/// target opens nothing but what its label holds.
pub open spec fn opens(b: Seq<u8>, depth: int, i: int, offset: int) -> Option<Seq<char>>
    decreases MAX_INLINE_NEST + 1 - depth, 1int, b.len() - i,
{
    if i < 0 || i >= b.len() || depth < 0 || depth > MAX_INLINE_NEST {
        None
    } else {
        proof {
            lemma_token(b, i);
        }
        let t = token(b, i);
        let end = token_end(t);
        if t is Plain || offset >= end {
            opens(b, depth, end, offset)
        } else if offset < i {
            None
        } else {
            match t {
                Token::Plain { next } => None,
                Token::Code { ticks, end } => None,
                Token::Emphasis { need, close, style } => if i + need <= offset < close {
                    opens_within(b.subrange(i + need, close), depth, offset - (i + need))
                } else {
                    None
                },
                Token::Link { open, rb, rp } => {
                    let url = text::trimmed(decode_utf8(b.subrange(rb + 2, rp)));
                    if offset < open {
                        None
                    } else if url.len() > 0 {
                        Some(url)
                    } else if open < offset < rb {
                        opens_within(b.subrange(open + 1, rb), depth, offset - (open + 1))
                    } else {
                        None
                    }
                },
                Token::Url { end } => Some(decode_utf8(b.subrange(i, end))),
            }
        }
    }
}

/// The target of the link under `offset` of markup inside other markup. Past the
/// deepest nesting there is none.
pub open spec fn opens_within(b: Seq<u8>, depth: int, offset: int) -> Option<Seq<char>>
    decreases MAX_INLINE_NEST + 1 - depth, 0int, 0int,
{
    if depth < 0 || depth >= MAX_INLINE_NEST {
        None
    } else {
        opens(b, depth + 1, 0, offset)
    }
}

/// The target of the link under `offset` of the text from `at` on.
pub open spec fn opens_from(b: Seq<u8>, at: int, depth: int, offset: int) -> Option<Seq<char>> {
    if offset < at {
        None
    } else {
        opens(b.subrange(at, b.len() as int), depth, 0, offset - at)
    }
}

/// Where the text of a list item begins, after its bullet and its box.
pub open spec fn item_text(b: Seq<u8>, at: int) -> int {
    match task(b.subrange(at, b.len() as int)) {
        Some((n, style)) => at + n,
        None => at,
    }
}

/// The target of the link under `offset` of a line.
pub open spec fn link_under(b: Seq<u8>, offset: int) -> Option<Seq<char>>
    decreases b.len(),
{
    let n = b.len() as int;
    if fence(b) || separator(decode_utf8(b)) {
        None
    } else if let Some((level, at)) = heading(b) {
        opens_from(b, at, 1, offset)
    } else if let Some(at) = quote(b) {
        proof {
            lemma_quote(b);
        }
        if offset < at {
            None
        } else {
            link_under(b.subrange(at, n), offset - at)
        }
    } else if let Some(at) = list(b) {
        opens_from(b, item_text(b, at), 0, offset)
    } else {
        opens(b, 0, 0, offset)
    }
}

// ---------------------------------------------------------------------------
// Where tokens end
// ---------------------------------------------------------------------------

pub proof fn lemma_run_end(b: Seq<u8>, i: int, c: u8)
    requires
        0 <= i <= b.len(),
    ensures
        i <= run_end(b, i, c) <= b.len(),
        i < b.len() && b[i] == c ==> i < run_end(b, i, c),
        forall|k: int| i <= k < run_end(b, i, c) ==> #[trigger] b[k] == c,
        run_end(b, i, c) < b.len() ==> b[run_end(b, i, c)] != c,
    decreases b.len() - i,
{
    if i < b.len() && b[i] == c {
        lemma_run_end(b, i + 1, c);
    }
}

pub proof fn lemma_exact_run(b: Seq<u8>, j: int, c: u8, need: int)
    requires
        0 <= j <= b.len(),
        need >= 1,
    ensures
        exact_run(b, j, c, need) matches Some(k) ==> j <= k && k + need <= b.len() && (forall|m: int|
            k <= m < k + need ==> #[trigger] b[m] == c),
    decreases b.len() - j,
{
    if j < b.len() {
        lemma_run_end(b, j, c);
        if b[j] == c {
            lemma_exact_run(b, run_end(b, j, c), c, need);
        } else {
            lemma_exact_run(b, j + 1, c, need);
        }
    }
}

pub proof fn lemma_emphasis_close(b: Seq<u8>, from: int, j: int, c: u8, need: int)
    requires
        0 <= from <= j <= b.len(),
        need >= 1,
    ensures
        emphasis_close(b, from, j, c, need) matches Some(k) ==> from < k && k + need <= b.len() && (
        forall|m: int| k <= m < k + need ==> #[trigger] b[m] == c),
    decreases b.len() - j,
{
    if j < b.len() {
        lemma_run_end(b, j, c);
        if b[j] == c {
            lemma_emphasis_close(b, from, run_end(b, j, c), c, need);
        } else {
            lemma_emphasis_close(b, from, j + 1, c, need);
        }
    }
}

pub proof fn lemma_emphasis(b: Seq<u8>, i: int, c: u8, need: int, min: int)
    requires
        0 <= i,
        i + need <= b.len(),
        1 <= min,
    ensures
        emphasis(b, i, c, need, min) matches Some((n, close)) ==> {
            &&& min <= n <= need
            &&& i + n < close
            &&& close + n <= b.len()
            &&& forall|m: int| close <= m < close + n ==> #[trigger] b[m] == c
        },
    decreases need,
{
    if need >= min {
        lemma_emphasis_close(b, i + need, i + need, c, need);
        if need > min {
            lemma_emphasis(b, i, c, need - 1, min);
        }
    }
}

pub proof fn lemma_seek(b: Seq<u8>, i: int, c: u8)
    requires
        0 <= i <= b.len(),
    ensures
        i <= seek(b, i, c) <= b.len(),
        seek(b, i, c) < b.len() ==> b[seek(b, i, c)] == c,
    decreases b.len() - i,
{
    if i < b.len() && b[i] != c {
        lemma_seek(b, i + 1, c);
    }
}

pub proof fn lemma_seek_bracket(b: Seq<u8>, i: int)
    requires
        0 <= i <= b.len(),
    ensures
        i <= seek_bracket(b, i) <= b.len(),
    decreases b.len() - i,
{
    if i < b.len() && b[i] != ascii::CLOSE_BRACKET && b[i] != ascii::OPEN_BRACKET {
        lemma_seek_bracket(b, i + 1);
    }
}

pub proof fn lemma_link(b: Seq<u8>, open: int)
    requires
        0 <= open < b.len(),
    ensures
        link(b, open) matches Some((rb, rp)) ==> {
            &&& open < rb
            &&& rb + 2 <= rp < b.len()
            &&& b[rb] == ascii::CLOSE_BRACKET
            &&& b[rb + 1] == ascii::OPEN_PAREN
            &&& b[rp] == ascii::CLOSE_PAREN
        },
{
    lemma_seek_bracket(b, open + 1);
    let rb = seek_bracket(b, open + 1);
    if rb + 2 <= b.len() {
        lemma_seek(b, rb + 2, ascii::CLOSE_PAREN);
    }
}

pub proof fn lemma_url_run(b: Seq<u8>, i: int)
    requires
        0 <= i <= b.len(),
    ensures
        i <= url_run(b, i) <= b.len(),
        url_run(b, i) < b.len() ==> url_stop(b[url_run(b, i)]),
    decreases b.len() - i,
{
    if i < b.len() && !url_stop(b[i]) {
        lemma_url_run(b, i + 1);
    }
}

pub proof fn lemma_url_trim(b: Seq<u8>, floor: int, end: int)
    requires
        0 <= floor <= end <= b.len(),
    ensures
        floor <= url_trim(b, floor, end) <= end,
        url_trim(b, floor, end) < end ==> sentence_mark(b[url_trim(b, floor, end)]),
    decreases end - floor,
{
    if floor < end && sentence_mark(b[end - 1]) {
        lemma_url_trim(b, floor, end - 1);
    }
}

pub proof fn lemma_autolink(b: Seq<u8>, i: int)
    requires
        0 <= i < b.len(),
    ensures
        autolink(b, i) matches Some(end) ==> {
            &&& i + 7 <= end <= b.len()
            &&& end < b.len() ==> b[end] < 0x80
        },
{
    let s = scheme(b, i);
    if s != 0 {
        lemma_url_run(b, i + s);
        lemma_url_trim(b, i + s, url_run(b, i + s));
    }
}

/// A token ends after it begins, and its parts lie in order inside the text.
pub proof fn lemma_token(b: Seq<u8>, i: int)
    requires
        0 <= i < b.len(),
    ensures
        match token(b, i) {
            Token::Plain { next } => i < next <= b.len(),
            Token::Code { ticks, end } => {
                &&& 1 <= ticks
                &&& i + ticks < end - ticks
                &&& end <= b.len()
                &&& forall|m: int| i <= m < i + ticks ==> #[trigger] b[m] < 0x80
                &&& forall|m: int| end - ticks <= m < end ==> #[trigger] b[m] < 0x80
            },
            Token::Emphasis { need, close, style } => {
                &&& 1 <= need <= 3
                &&& i + need < close
                &&& close + need <= b.len()
                &&& forall|m: int| i <= m < i + need ==> #[trigger] b[m] < 0x80
                &&& forall|m: int| close <= m < close + need ==> #[trigger] b[m] < 0x80
            },
            Token::Link { open, rb, rp } => {
                &&& i <= open <= i + 1
                &&& open < rb
                &&& rb + 2 <= rp < b.len()
                &&& b[i] < 0x80
                &&& b[open] == ascii::OPEN_BRACKET
                &&& b[rb] == ascii::CLOSE_BRACKET
                &&& b[rb + 1] == ascii::OPEN_PAREN
                &&& b[rp] == ascii::CLOSE_PAREN
            },
            Token::Url { end } => i < end <= b.len() && b[i] < 0x80 && (end < b.len() ==> b[end]
                < 0x80),
        },
{
    reveal(token);
    let c = b[i];
    lemma_run_end(b, i, c);
    let e = run_end(b, i, c);
    if c == ascii::BACKTICK {
        lemma_exact_run(b, e, ascii::BACKTICK, e - i);
    } else if c == ascii::STAR || c == ascii::UNDERSCORE || c == ascii::TILDE {
        let min = if c == ascii::TILDE {
            2int
        } else {
            1
        };
        let most = if c == ascii::TILDE {
            2int
        } else {
            3
        };
        let need = if e - i < most {
            e - i
        } else {
            most
        };
        lemma_emphasis(b, i, c, need, min);
    } else if c == ascii::BANG || c == ascii::OPEN_BRACKET {
        let open = if c == ascii::BANG {
            i + 1
        } else {
            i
        };
        if open < b.len() {
            lemma_link(b, open);
        }
    } else if c == ascii::LOWER_H {
        lemma_autolink(b, i);
    }
}

pub proof fn lemma_indent(b: Seq<u8>)
    ensures
        0 <= indent(b) <= b.len(),
        forall|k: int| 0 <= k < indent(b) ==> #[trigger] b[k] == ascii::SPACE,
{
}

pub proof fn lemma_quote_end(b: Seq<u8>, i: int)
    requires
        0 <= i <= b.len(),
    ensures
        i <= quote_end(b, i) <= b.len(),
        i < b.len() && b[i] == ascii::GREATER ==> i < quote_end(b, i) && b[quote_end(b, i) - 1] < 0x80,
    decreases b.len() - i,
{
    if i < b.len() && b[i] == ascii::GREATER {
        if i + 1 < b.len() && b[i + 1] == ascii::SPACE {
            lemma_quote_end(b, i + 2);
        } else {
            lemma_quote_end(b, i + 1);
        }
    }
}

pub proof fn lemma_quote(b: Seq<u8>)
    ensures
        quote(b) matches Some(at) ==> 0 < at <= b.len() && b[at - 1] < 0x80,
{
    lemma_indent(b);
    lemma_quote_end(b, indent(b));
}

pub proof fn lemma_heading(b: Seq<u8>)
    ensures
        heading(b) matches Some((level, at)) ==> 0 < at <= b.len() && 1 <= level <= 6 && b[at - 1]
            < 0x80,
{
    lemma_indent(b);
    lemma_run_end(b, indent(b), ascii::HASH);
}

pub proof fn lemma_blanks_end(b: Seq<u8>, i: int)
    requires
        0 <= i <= b.len(),
    ensures
        i <= blanks_end(b, i) <= b.len(),
        blanks_end(b, i) < b.len() ==> !blank(b[blanks_end(b, i)]),
    decreases b.len() - i,
{
    if i < b.len() && blank(b[i]) {
        lemma_blanks_end(b, i + 1);
    }
}

pub proof fn lemma_digits_end(b: Seq<u8>, i: int)
    requires
        0 <= i <= b.len(),
    ensures
        i <= digits_end(b, i) <= b.len(),
        i < b.len() && digit(b[i]) ==> i < digits_end(b, i),
        forall|k: int| i <= k < digits_end(b, i) ==> digit(#[trigger] b[k]),
        digits_end(b, i) < b.len() ==> !digit(b[digits_end(b, i)]),
    decreases b.len() - i,
{
    if i < b.len() && digit(b[i]) {
        lemma_digits_end(b, i + 1);
    }
}

pub proof fn lemma_list(b: Seq<u8>)
    ensures
        list(b) matches Some(at) ==> 0 < at <= b.len() && b[at - 1] < 0x80,
{
    lemma_blanks_end(b, 0);
    let i = blanks_end(b, 0);
    lemma_digits_end(b, i);
}

} // verus!
