//! A markdown highlighter that works one line at a time.

pub mod cover;
pub mod grammar;
pub mod laws;

use vstd::prelude::*;
use vstd::utf8::*;
use vstd::string::StringSliceAdditionalSpecFns;
use vstd::std_specs::iter::IteratorSpec;
use crate::ascii;
use crate::text;

verus! {

/// The visual role of a byte range on a line.
#[derive(Clone, Copy, Debug, PartialEq, Eq, Structural)]
pub enum MdStyle {
    /// Ordinary prose.
    Text,
    /// Heading body text; the number is the level, one to six.
    Heading(u8),
    /// The `###` sigil and the space after it, for a heading of that level.
    HeadingMarker(u8),
    Bold,
    Italic,
    BoldItalic,
    Strikethrough,
    /// Inline `code` body (between the backticks).
    Code,
    /// Text inside a fenced code block.
    CodeBlock,
    /// The ``` fence line itself.
    Fence,
    /// Punctuation that is markup, not content: `*`, `_`, `` ` ``, `~`, `[`, `]`,
    /// `(`, `)`. Rendered dim.
    Marker,
    /// The visible text of a `[text](url)` link.
    LinkText,
    /// The url part of a `[text](url)`, and bare autolinks.
    LinkUrl,
    /// The `- `, `* `, `+ `, `1. ` bullet at the head of a list item.
    ListMarker,
    /// An unchecked `[ ]` task box.
    TaskOpen,
    /// A checked `[x]` task box.
    TaskDone,
    /// The `>` blockquote sigil.
    QuoteMarker,
    /// Text inside a blockquote.
    Quote,
    /// A thematic-break line: `---`, `***`, `___`.
    Separator,
}

/// A styled byte range of a single line.
#[derive(Clone, Copy, Debug, PartialEq, Eq, Structural)]
pub struct Span {
    /// Byte offset into the line (not the document).
    pub start: usize,
    /// Byte offset into the line, exclusive.
    pub end: usize,
    pub style: MdStyle,
}

/// How deep inline markup may nest before the scanner draws what is left flat.
pub const MAX_INLINE_NEST: u8 = 8;

impl Span {
    fn new(start: usize, end: usize, style: MdStyle) -> (r: Span)
        ensures
            r == (Span { start, end, style }),
    {
        Span { start, end, style }
    }
}

// ---------------------------------------------------------------------------
// Block-level probes
// ---------------------------------------------------------------------------

/// True when `line` opens or closes a fenced code block: three or more backticks
/// or tildes, indented by up to three spaces, with an info string or nothing
/// after them.
pub fn is_fence(line: &str) -> (r: bool)
    ensures
        r == grammar::fence(line.spec_bytes()),
{
    let b = line.as_bytes();
    let i: usize = indentation(b);
    if i >= b.len() {
        return false;
    }
    let c: u8 = b[i];
    if c != ascii::BACKTICK && c != ascii::TILDE {
        return false;
    }
    let run: usize = run_len(b, i, c);
    if run < 3 {
        return false;
    }
    if c == ascii::BACKTICK {
        let mut k: usize = i + run;
        while k < b.len()
            invariant
                b@ == line.spec_bytes(),
                i == grammar::indent(b@),
                c == b@[i as int],
                c == ascii::BACKTICK,
                i + run == grammar::run_end(b@, i as int, c),
                i + run <= k <= b@.len(),
                forall|m: int| i + run <= m < k ==> #[trigger] b@[m] != ascii::BACKTICK,
            decreases b@.len() - k,
        {
            if b[k] == ascii::BACKTICK {
                return false;
            }
            k = k + 1;
        }
    }
    true
}

fn indentation(b: &[u8]) -> (i: usize)
    ensures
        i == grammar::indent(b@),
        i <= b@.len(),
{
    let mut i: usize = 0;
    while i < b.len() && i < 3 && b[i] == ascii::SPACE
        invariant
            i <= 3,
            i <= b@.len(),
            forall|k: int| 0 <= k < i ==> #[trigger] b@[k] == ascii::SPACE,
        decreases 3 - i,
    {
        i = i + 1;
    }
    assert(i >= 1 ==> b@[0] == ascii::SPACE);
    assert(i >= 2 ==> b@[1] == ascii::SPACE);
    assert(i >= 3 ==> b@[2] == ascii::SPACE);
    i
}

/// True when `line` is a thematic break: three or more of `-`, `*` or `_`,
/// possibly with blanks between them.
pub fn is_separator(line: &str) -> (r: bool)
    ensures
        r == grammar::separator(line@),
{
    let t = line.trim();
    let first: char = match text::first_char(t) {
        Some(c) => c,
        None => return false,
    };
    if first != '-' && first != '*' && first != '_' {
        return false;
    }
    let mut count: usize = 0;
    let mut chars = t.chars();
    let ghost mut seen: int = 0;
    let _n: usize = t.as_bytes().len();
    proof {
        text::lemma_char_count(t@);
        assert(t@.take(0) =~= Seq::<char>::empty());
    }
    loop
        invariant
            t@ == text::trimmed(line@),
            first == '-' || first == '*' || first == '_',
            0 <= seen <= t@.len(),
            t@.len() <= usize::MAX,
            t@.len() > 0,
            first == t@[0],
            chars.obeys_prophetic_iter_laws(),
            chars.remaining() == t@.skip(seen),
            count == grammar::occurrences(t@.take(seen), first),
            count <= seen,
            forall|k: int|
                0 <= k < seen ==> #[trigger] t@[k] == first || t@[k] == ' ' || t@[k] == '\t',
        decreases t@.len() - seen,
    {
        match chars.next() {
            None => {
                assert(t@.take(seen) =~= t@);
                return count >= 3;
            },
            Some(c) => {
                assert(c == t@[seen]);
                assert(t@.skip(seen).drop_first() =~= t@.skip(seen + 1));
                assert(t@.take(seen + 1).drop_last() =~= t@.take(seen));
                if c == first {
                    count = count + 1;
                } else if c != ' ' && c != '\t' {
                    return false;
                }
                proof {
                    seen = seen + 1;
                }
            },
        }
    }
}

/// How many copies of `c` begin at `i`.
fn run_len(b: &[u8], i: usize, c: u8) -> (n: usize)
    requires
        i <= b@.len(),
    ensures
        i + n == grammar::run_end(b@, i as int, c),
        i + n <= b@.len(),
{
    let mut j: usize = i;
    while j < b.len() && b[j] == c
        invariant
            i <= j <= b@.len(),
            grammar::run_end(b@, i as int, c) == grammar::run_end(b@, j as int, c),
        decreases b@.len() - j,
    {
        j = j + 1;
    }
    j - i
}

/// `(level, marker_end)` when the line opens a heading.
fn heading_at(line: &str) -> (r: Option<(u8, usize)>)
    ensures
        grammar::heading(line.spec_bytes()) == (match r {
            Some((level, at)) => Some((level, at as int)),
            None => None,
        }),
{
    let b = line.as_bytes();
    let n: usize = b.len();
    let start: usize = indentation(b);
    let level: usize = run_len(b, start, ascii::HASH);
    let i: usize = start + level;
    if level == 0 || level > 6 {
        return None;
    }
    if i == n {
        return Some((level as u8, i));
    }
    if is_space(b[i]) {
        return Some((level as u8, i + 1));
    }
    None
}

fn is_space(c: u8) -> (r: bool)
    ensures
        r == grammar::blank(c),
{
    c == ascii::SPACE || c == ascii::TAB
}

/// End offset of the blockquote sigil run (`>`, `> `, `>> `, `> > `), if any.
fn quote_at(line: &str) -> (r: Option<usize>)
    ensures
        grammar::quote(line.spec_bytes()) == (match r {
            Some(at) => Some(at as int),
            None => None,
        }),
{
    let b = line.as_bytes();
    let mut i: usize = indentation(b);
    if i >= b.len() || b[i] != ascii::GREATER {
        return None;
    }
    let ghost start = i as int;
    while i < b.len() && b[i] == ascii::GREATER
        invariant
            i <= b@.len(),
            grammar::quote_end(b@, start) == grammar::quote_end(b@, i as int),
        decreases b@.len() - i,
    {
        i = i + 1;
        if i < b.len() && b[i] == ascii::SPACE {
            i = i + 1;
        }
    }
    Some(i)
}

/// End offset of a list bullet including its trailing blank, if any.
pub fn list_marker_end(line: &str) -> (r: Option<usize>)
    ensures
        grammar::list(line.spec_bytes()) == (match r {
            Some(at) => Some(at as int),
            None => None,
        }),
{
    list_at(line)
}

fn list_at(line: &str) -> (r: Option<usize>)
    ensures
        grammar::list(line.spec_bytes()) == (match r {
            Some(at) => Some(at as int),
            None => None,
        }),
{
    let b = line.as_bytes();
    let mut i: usize = 0;
    while i < b.len() && is_space(b[i])
        invariant
            i <= b@.len(),
            grammar::blanks_end(b@, 0) == grammar::blanks_end(b@, i as int),
        decreases b@.len() - i,
    {
        i = i + 1;
    }
    if i >= b.len() {
        return None;
    }
    let c: u8 = b[i];
    let after: usize = if c == ascii::DASH || c == ascii::STAR || c == ascii::PLUS {
        i + 1
    } else if is_digit(c) {
        let j: usize = i + digits_len(b, i);
        if j - i > 9 {
            return None;
        }
        if j < b.len() && (b[j] == ascii::DOT || b[j] == ascii::CLOSE_PAREN) {
            j + 1
        } else {
            return None;
        }
    } else {
        return None;
    };
    if after < b.len() && is_space(b[after]) {
        Some(after + 1)
    } else {
        None
    }
}

fn is_digit(c: u8) -> (r: bool)
    ensures
        r == grammar::digit(c),
{
    ascii::ZERO <= c && c <= ascii::NINE
}

/// How many digits begin at `i`.
fn digits_len(b: &[u8], i: usize) -> (n: usize)
    requires
        i <= b@.len(),
    ensures
        i + n == grammar::digits_end(b@, i as int),
        i + n <= b@.len(),
{
    let mut j: usize = i;
    while j < b.len() && is_digit(b[j])
        invariant
            i <= j <= b@.len(),
            grammar::digits_end(b@, i as int) == grammar::digits_end(b@, j as int),
        decreases b@.len() - j,
    {
        j = j + 1;
    }
    j - i
}

/// `(end, style)` for a `[ ]` / `[x]` task box at the head of `rest`.
fn task_at(rest: &str) -> (r: Option<(usize, MdStyle)>)
    ensures
        grammar::task(rest.spec_bytes()) == (match r {
            Some((end, style)) => Some((end as int, style)),
            None => None,
        }),
{
    let b = rest.as_bytes();
    if b.len() < 3 || b[0] != ascii::OPEN_BRACKET || b[2] != ascii::CLOSE_BRACKET {
        return None;
    }
    let style = if b[1] == ascii::SPACE {
        MdStyle::TaskOpen
    } else if b[1] == ascii::LOWER_X || b[1] == ascii::UPPER_X {
        MdStyle::TaskDone
    } else {
        return None;
    };
    let end: usize = if b.len() > 3 && b[3] == ascii::SPACE {
        4
    } else {
        3
    };
    Some((end, style))
}

// ---------------------------------------------------------------------------
// Inline scanner
// ---------------------------------------------------------------------------

/// Is the char immediately before byte offset `i` alphanumeric?
fn alnum_before(s: &str, i: usize) -> (r: bool)
    requires
        text::boundary(s.spec_bytes(), i as int),
    ensures
        r == grammar::word_before(s.spec_bytes(), i as int),
{
    proof {
        text::lemma_str(s);
        assert(text::boundary(s.spec_bytes(), 0)) by {
            text::lemma_boundary(s.spec_bytes(), 0);
            is_char_boundary_start_end_of_seq(s.spec_bytes());
        }
    }
    let head = text::slice(s, 0, i);
    proof {
        text::lemma_str(head);
    }
    match text::last_char(head) {
        Some(c) => c.is_alphanumeric(),
        None => false,
    }
}

/// Is the char starting at byte offset `i` alphanumeric?
fn alnum_at(s: &str, i: usize) -> (r: bool)
    requires
        text::boundary(s.spec_bytes(), i as int),
    ensures
        r == grammar::word_at(s.spec_bytes(), i as int),
{
    let n: usize = s.as_bytes().len();
    if i >= n {
        return false;
    }
    proof {
        text::lemma_str(s);
    }
    let tail = text::slice(s, i, n);
    proof {
        text::lemma_str(tail);
    }
    match text::first_char(tail) {
        Some(c) => c.is_alphanumeric(),
        None => false,
    }
}

/// Find a run of exactly `need` copies of `c` at or after `from`.
fn find_exact_run(b: &[u8], from: usize, c: u8, need: usize) -> (r: Option<usize>)
    requires
        from <= b@.len(),
    ensures
        grammar::exact_run(b@, from as int, c, need as int) == (match r {
            Some(j) => Some(j as int),
            None => None,
        }),
{
    let mut j: usize = from;
    while j < b.len()
        invariant
            j <= b@.len(),
            grammar::exact_run(b@, from as int, c, need as int) == grammar::exact_run(
                b@,
                j as int,
                c,
                need as int,
            ),
        decreases b@.len() - j,
    {
        if b[j] == c {
            let r: usize = run_len(b, j, c);
            proof {
                grammar::lemma_run_end(b@, j as int, c);
            }
            if r == need {
                return Some(j);
            }
            j = j + r;
        } else {
            j = j + 1;
        }
    }
    None
}

/// Find a closing emphasis run of at least `need` copies of `c` at or after
/// `from`. An underscore does not close inside a word.
fn find_emph_close(s: &str, from: usize, c: u8, need: usize) -> (r: Option<usize>)
    requires
        from <= s.spec_bytes().len(),
        c < 0x80,
    ensures
        grammar::emphasis_close(s.spec_bytes(), from as int, from as int, c, need as int) == (
        match r {
            Some(j) => Some(j as int),
            None => None,
        }),
{
    let b = s.as_bytes();
    let mut j: usize = from;
    while j < b.len()
        invariant
            from <= j <= b@.len(),
            b@ == s.spec_bytes(),
            c < 0x80,
            grammar::emphasis_close(b@, from as int, from as int, c, need as int)
                == grammar::emphasis_close(b@, from as int, j as int, c, need as int),
        decreases b@.len() - j,
    {
        if b[j] == c {
            let r: usize = run_len(b, j, c);
            proof {
                grammar::lemma_run_end(b@, j as int, c);
                text::lemma_str(s);
                text::lemma_ascii_boundary(b@, j + r - 1);
            }
            if r >= need && j > from && !is_space(b[j - 1]) && (c != ascii::UNDERSCORE
                || !alnum_at(s, j + r)) {
                return Some(j);
            }
            j = j + r;
        } else {
            j = j + 1;
        }
    }
    None
}

/// `(close_bracket, close_paren)` for a `[text](url)` starting at `open`.
fn find_link(b: &[u8], open: usize) -> (r: Option<(usize, usize)>)
    requires
        open < b@.len(),
    ensures
        grammar::link(b@, open as int) == (match r {
            Some((rb, rp)) => Some((rb as int, rp as int)),
            None => None,
        }),
{
    let n: usize = b.len();
    let mut rb: usize = open + 1;
    while rb < n && b[rb] != ascii::CLOSE_BRACKET
        invariant
            n == b@.len(),
            open < rb <= n,
            grammar::seek_bracket(b@, open + 1) == grammar::seek_bracket(b@, rb as int),
        decreases b@.len() - rb,
    {
        // Bail on a nested `[` rather than mis-pairing across it.
        if b[rb] == ascii::OPEN_BRACKET {
            return None;
        }
        rb = rb + 1;
    }
    if rb >= n || rb + 1 >= n || b[rb + 1] != ascii::OPEN_PAREN {
        return None;
    }
    let mut rp: usize = rb + 2;
    while rp < n && b[rp] != ascii::CLOSE_PAREN
        invariant
            n == b@.len(),
            rb + 2 <= rp <= n,
            grammar::seek(b@, rb + 2, ascii::CLOSE_PAREN) == grammar::seek(
                b@,
                rp as int,
                ascii::CLOSE_PAREN,
            ),
        decreases b@.len() - rp,
    {
        rp = rp + 1;
    }
    if rp >= n {
        return None;
    }
    Some((rb, rp))
}

/// How long the url scheme at `i` is; zero where there is none.
fn scheme_len(b: &[u8], i: usize) -> (n: usize)
    requires
        i <= b@.len(),
    ensures
        n == grammar::scheme(b@, i as int),
        n == 0 || n == 7 || n == 8,
        i + n <= b@.len(),
{
    let left: usize = b.len() - i;
    if left >= 7 && b[i] == ascii::LOWER_H && b[i + 1] == ascii::LOWER_T && b[i + 2]
        == ascii::LOWER_T && b[i + 3] == ascii::LOWER_P {
        if b[i + 4] == ascii::COLON && b[i + 5] == ascii::SLASH && b[i + 6] == ascii::SLASH {
            assert(b@.subrange(i as int, i + 7) =~= grammar::http());
            return 7;
        }
        if left >= 8 && b[i + 4] == ascii::LOWER_S && b[i + 5] == ascii::COLON && b[i + 6]
            == ascii::SLASH && b[i + 7] == ascii::SLASH {
            assert(b@.subrange(i as int, i + 8) =~= grammar::https());
            assert(b@.subrange(i as int, i + 7)[4] != grammar::http()[4]);
            return 8;
        }
    }
    proof {
        if grammar::starts_at(b@, i as int, grammar::http()) {
            let w = b@.subrange(i as int, i + 7);
            assert(w[0] == b@[i as int] && w[1] == b@[i + 1] && w[2] == b@[i + 2] && w[3] == b@[i
                + 3] && w[4] == b@[i + 4] && w[5] == b@[i + 5] && w[6] == b@[i + 6]);
        }
        if grammar::starts_at(b@, i as int, grammar::https()) {
            let w = b@.subrange(i as int, i + 8);
            assert(w[0] == b@[i as int] && w[1] == b@[i + 1] && w[2] == b@[i + 2] && w[3] == b@[i
                + 3] && w[4] == b@[i + 4] && w[5] == b@[i + 5] && w[6] == b@[i + 6] && w[7] == b@[i
                + 7]);
        }
    }
    0
}

/// End offset of a bare `http://` / `https://` run starting at `i`.
fn autolink_end(s: &str, i: usize) -> (r: Option<usize>)
    requires
        text::boundary(s.spec_bytes(), i as int),
    ensures
        grammar::autolink(s.spec_bytes(), i as int) == (match r {
            Some(end) => Some(end as int),
            None => None,
        }),
{
    let b = s.as_bytes();
    let n: usize = b.len();
    let scheme: usize = scheme_len(b, i);
    if scheme == 0 {
        return None;
    }
    if alnum_before(s, i) {
        return None;
    }
    let floor: usize = i + scheme;
    let mut end: usize = floor;
    while end < n && !ends_url(b[end])
        invariant
            n == b@.len(),
            floor <= end <= n,
            grammar::url_run(b@, floor as int) == grammar::url_run(b@, end as int),
        decreases b@.len() - end,
    {
        end = end + 1;
    }
    // Don't swallow sentence punctuation that trails the url.
    let ghost stop = end as int;
    while end > floor && trails_url(b[end - 1])
        invariant
            floor <= end <= b@.len(),
            grammar::url_trim(b@, floor as int, stop) == grammar::url_trim(
                b@,
                floor as int,
                end as int,
            ),
        decreases end,
    {
        end = end - 1;
    }
    Some(end)
}

fn ends_url(c: u8) -> (r: bool)
    ensures
        r == grammar::url_stop(c),
{
    c == ascii::SPACE || c == ascii::TAB || c == ascii::LESS || c == ascii::GREATER || c
        == ascii::QUOTE || c == ascii::BACKTICK
}

fn trails_url(c: u8) -> (r: bool)
    ensures
        r == grammar::sentence_mark(c),
{
    c == ascii::DOT || c == ascii::COMMA || c == ascii::SEMICOLON || c == ascii::COLON || c
        == ascii::BANG || c == ascii::QUESTION || c == ascii::CLOSE_PAREN || c
        == ascii::CLOSE_BRACKET || c == ascii::CLOSE_BRACE || c == ascii::APOSTROPHE
}

fn push(out: &mut Vec<Span>, start: usize, end: usize, style: MdStyle)
    ensures
        grammar::runs(final(out)@) == grammar::runs(old(out)@) + seq![
            grammar::run(start as int, end as int, style),
        ],
{
    out.push(Span::new(start, end, style));
    assert(grammar::runs(out@) =~= grammar::runs(old(out)@) + seq![
        grammar::run(start as int, end as int, style),
    ]);
}

fn push_text(out: &mut Vec<Span>, base: usize, start: usize, end: usize)
    requires
        base + end <= usize::MAX,
    ensures
        grammar::runs(final(out)@) == grammar::runs(old(out)@) + grammar::prose(
            base as int,
            start as int,
            end as int,
        ),
{
    if start < end {
        push(out, base + start, base + end, MdStyle::Text);
    } else {
        assert(grammar::runs(out@) =~= grammar::runs(old(out)@) + Seq::<grammar::Run>::empty());
    }
}

/// Highlight `inner` (a substring at byte offset `base` within the line) and
/// append its spans, recolouring only its plain text to `wrap`.
///
/// Code, links and further emphasis found inside a heading, a link label or an
/// emphasis run keep their own style, while the surrounding prose takes the
/// wrapper's. At [`MAX_INLINE_NEST`] `inner` becomes one flat span.
fn highlight_wrapped(inner: &str, base: usize, wrap: MdStyle, depth: u8, out: &mut Vec<Span>)
    requires
        depth <= MAX_INLINE_NEST,
        base + inner.spec_bytes().len() <= usize::MAX,
    ensures
        grammar::runs(final(out)@) == grammar::runs(old(out)@) + grammar::wrapped(
            inner.spec_bytes(),
            base as int,
            wrap,
            depth as int,
        ),
    decreases MAX_INLINE_NEST - depth, 0int,
{
    if depth >= MAX_INLINE_NEST {
        let n: usize = inner.as_bytes().len();
        push(out, base, base + n, wrap);
        return;
    }
    let from: usize = out.len();
    highlight_inline(inner, base, depth + 1, out);
    let ghost before = grammar::runs(old(out)@);
    let ghost added = grammar::inline(inner.spec_bytes(), base as int, depth + 1, 0, 0);
    let ghost painted = out@;
    let mut k: usize = from;
    assert(grammar::runs(painted).len() == painted.len());
    assert(grammar::runs(painted).len() == before.len() + added.len());
    while k < out.len()
        invariant
            from == before.len(),
            grammar::runs(painted) == before + added,
            painted.len() == before.len() + added.len(),
            from <= k <= out@.len(),
            out@.len() == painted.len(),
            forall|m: int| 0 <= m < from ==> #[trigger] out@[m] == painted[m],
            forall|m: int| k <= m < out@.len() ==> #[trigger] out@[m] == painted[m],
            forall|m: int|
                from <= m < k ==> (#[trigger] out@[m]).start == painted[m].start && out@[m].end
                    == painted[m].end && out@[m].style == (if painted[m].style == MdStyle::Text {
                    wrap
                } else {
                    painted[m].style
                }),
        decreases out@.len() - k,
    {
        let mut span = out[k];
        if span.style == MdStyle::Text {
            span.style = wrap;
            out.set(k, span);
        }
        k = k + 1;
    }
    proof {
        let want = before + grammar::recoloured(added, wrap);
        let got = grammar::runs(out@);
        assert(got.len() == want.len());
        assert forall|m: int| 0 <= m < got.len() implies got[m] == want[m] by {
            let p = grammar::runs(painted)[m];
            assert(p == (before + added)[m]);
            assert(out@[m] == out@[m]);
            if m >= from {
                assert(p == added[m - from]);
            }
        }
        assert(got =~= want);
    }
}

/// What stands at an offset of the text being scanned.
enum Piece {
    /// Inline code between runs of `ticks` backticks, up to `end`.
    Code { ticks: usize, end: usize },
    /// An emphasis of `need` marks, with the closing ones at `close`.
    Emphasis { need: usize, close: usize, style: MdStyle },
    /// A link whose text begins after `open`.
    Link { open: usize, rb: usize, rp: usize },
    /// A bare url, up to `end`.
    Url { end: usize },
    /// Prose, up to `next`.
    Plain { next: usize },
}

impl Piece {
    spec fn token(self) -> grammar::Token {
        match self {
            Piece::Code { ticks, end } => grammar::Token::Code {
                ticks: ticks as int,
                end: end as int,
            },
            Piece::Emphasis { need, close, style } => grammar::Token::Emphasis {
                need: need as int,
                close: close as int,
                style,
            },
            Piece::Link { open, rb, rp } => grammar::Token::Link {
                open: open as int,
                rb: rb as int,
                rp: rp as int,
            },
            Piece::Url { end } => grammar::Token::Url { end: end as int },
            Piece::Plain { next } => grammar::Token::Plain { next: next as int },
        }
    }
}

/// The markup that begins at `i`, or the prose up to where markup may begin.
fn piece_at(s: &str, i: usize) -> (r: Piece)
    requires
        i < s.spec_bytes().len(),
    ensures
        r.token() == grammar::token(s.spec_bytes(), i as int),
{
    let b = s.as_bytes();
    let n: usize = b.len();
    let c: u8 = b[i];
    proof {
        reveal(grammar::token);
        text::lemma_str(s);
        grammar::lemma_token(b@, i as int);
        grammar::lemma_run_end(b@, i as int, c);
        if c < 0x80 {
            text::lemma_ascii_boundary(b@, i as int);
        }
    }
    if c == ascii::BACKTICK {
        let run: usize = run_len(b, i, c);
        match find_exact_run(b, i + run, c, run) {
            Some(j) => Piece::Code { ticks: run, end: j + run },
            None => Piece::Plain { next: i + run },
        }
    } else if c == ascii::STAR || c == ascii::UNDERSCORE || c == ascii::TILDE {
        emphasis_at(s, i, c)
    } else if c == ascii::BANG || c == ascii::OPEN_BRACKET {
        let open: usize = if c == ascii::BANG {
            i + 1
        } else {
            i
        };
        let link = if open < n && b[open] == ascii::OPEN_BRACKET {
            find_link(b, open)
        } else {
            None
        };
        match link {
            Some((rb, rp)) => Piece::Link { open, rb, rp },
            None => Piece::Plain { next: i + 1 },
        }
    } else if c == ascii::LOWER_H {
        match autolink_end(s, i) {
            Some(end) => Piece::Url { end },
            None => Piece::Plain { next: i + 1 },
        }
    } else {
        Piece::Plain { next: i + 1 }
    }
}

fn emphasis_style(c: u8, need: usize) -> (r: MdStyle)
    ensures
        r == grammar::emphasis_style(c, need as int),
{
    if c == ascii::TILDE {
        MdStyle::Strikethrough
    } else if need == 3 {
        MdStyle::BoldItalic
    } else if need == 2 {
        MdStyle::Bold
    } else {
        MdStyle::Italic
    }
}

/// The emphasis that the run of `c` at `i` opens, if it opens one.
fn emphasis_at(s: &str, i: usize, c: u8) -> (r: Piece)
    requires
        i < s.spec_bytes().len(),
        s.spec_bytes()[i as int] == c,
        c == ascii::STAR || c == ascii::UNDERSCORE || c == ascii::TILDE,
    ensures
        r.token() == grammar::emphasis_token(s.spec_bytes(), i as int, c),
{
    let b = s.as_bytes();
    let n: usize = b.len();
    let run: usize = run_len(b, i, c);
    proof {
        grammar::lemma_run_end(b@, i as int, c);
        text::lemma_str(s);
        text::lemma_ascii_boundary(b@, i as int);
    }
    let min: usize = if c == ascii::TILDE {
        2
    } else {
        1
    };
    let most: usize = if c == ascii::TILDE {
        2
    } else {
        3
    };
    let opens = run >= min && i + run < n && !is_space(b[i + run]) && !(c == ascii::UNDERSCORE
        && alnum_before(s, i));
    if !opens {
        return Piece::Plain { next: i + run };
    }
    let longest: usize = if run < most {
        run
    } else {
        most
    };
    match longest_emphasis(s, i, c, longest, min) {
        Some((need, close)) => Piece::Emphasis { need, close, style: emphasis_style(c, need) },
        None => Piece::Plain { next: i + run },
    }
}

/// The longest emphasis of `min` to `longest` copies of `c` that opens at `i`:
/// how many marks it takes, and where the closing ones begin.
fn longest_emphasis(s: &str, i: usize, c: u8, longest: usize, min: usize) -> (r: Option<
    (usize, usize),
>)
    requires
        1 <= min <= longest,
        i + longest <= s.spec_bytes().len(),
        c < 0x80,
    ensures
        grammar::emphasis(s.spec_bytes(), i as int, c, longest as int, min as int) == (match r {
            Some((need, close)) => Some((need as int, close as int)),
            None => None,
        }),
{
    let _n: usize = s.as_bytes().len();
    let mut need: usize = longest;
    loop
        invariant
            i + longest <= s.spec_bytes().len() <= usize::MAX,
            1 <= min <= need <= longest,
            c < 0x80,
            grammar::emphasis(s.spec_bytes(), i as int, c, longest as int, min as int)
                == grammar::emphasis(s.spec_bytes(), i as int, c, need as int, min as int),
        decreases need,
    {
        match find_emph_close(s, i + need, c, need) {
            Some(j) => {
                return Some((need, j));
            },
            None => {},
        }
        if need == min {
            return None;
        }
        need = need - 1;
    }
}

/// Append the spans of the markup at `i`; the result is where it ends.
fn push_markup(s: &str, base: usize, depth: u8, i: usize, piece: Piece, out: &mut Vec<Span>) -> (end:
    usize)
    requires
        depth <= MAX_INLINE_NEST,
        base + s.spec_bytes().len() <= usize::MAX,
        i < s.spec_bytes().len(),
        piece.token() == grammar::token(s.spec_bytes(), i as int),
    ensures
        end == grammar::token_end(piece.token()),
        grammar::runs(final(out)@) == grammar::runs(old(out)@) + grammar::markup(
            s.spec_bytes(),
            base as int,
            depth as int,
            i as int,
            piece.token(),
        ),
    decreases MAX_INLINE_NEST - depth, 1int,
{
    let ghost b = s.spec_bytes();
    let ghost goal = grammar::runs(old(out)@) + grammar::markup(
        b,
        base as int,
        depth as int,
        i as int,
        piece.token(),
    );
    proof {
        text::lemma_str(s);
        grammar::lemma_token(b, i as int);
    }
    match piece {
        Piece::Plain { next } => {
            assert(goal =~= grammar::runs(out@));
            next
        },
        Piece::Code { ticks, end } => {
            // The ticks are markup. A run of them is as long as it can be, so
            // there is always something in between.
            push(out, base + i, base + (i + ticks), MdStyle::Marker);
            push(out, base + (i + ticks), base + (end - ticks), MdStyle::Code);
            push(out, base + (end - ticks), base + end, MdStyle::Marker);
            assert(goal =~= grammar::runs(out@));
            end
        },
        Piece::Emphasis { need, close, style } => {
            proof {
                text::lemma_ascii_boundary(b, i + need - 1);
                text::lemma_ascii_boundary(b, close as int);
            }
            push(out, base + i, base + (i + need), MdStyle::Marker);
            // The close is strictly after the open, so this inner slice is never
            // empty.
            let inner = text::slice(s, i + need, close);
            highlight_wrapped(inner, base + (i + need), style, depth, out);
            push(out, base + close, base + (close + need), MdStyle::Marker);
            assert(goal =~= grammar::runs(out@));
            close + need
        },
        Piece::Link { open, rb, rp } => {
            proof {
                text::lemma_ascii_boundary(b, open as int);
                text::lemma_ascii_boundary(b, rb as int);
            }
            // `!` + `[`
            push(out, base + i, base + (open + 1), MdStyle::Marker);
            if rb > open + 1 {
                let label = text::slice(s, open + 1, rb);
                highlight_wrapped(label, base + (open + 1), MdStyle::LinkText, depth, out);
            }
            // `](`
            push(out, base + rb, base + (rb + 2), MdStyle::Marker);
            if rp > rb + 2 {
                push(out, base + (rb + 2), base + rp, MdStyle::LinkUrl);
            }
            push(out, base + rp, base + (rp + 1), MdStyle::Marker);
            assert(goal =~= grammar::runs(out@));
            rp + 1
        },
        Piece::Url { end } => {
            push(out, base + i, base + end, MdStyle::LinkUrl);
            end
        },
    }
}

/// Scan `s` left to right, appending contiguous spans covering
/// `base..base + s.len()`. `depth` is the inline-nesting level.
fn highlight_inline(s: &str, base: usize, depth: u8, out: &mut Vec<Span>)
    requires
        depth <= MAX_INLINE_NEST,
        base + s.spec_bytes().len() <= usize::MAX,
    ensures
        grammar::runs(final(out)@) == grammar::runs(old(out)@) + grammar::inline(
            s.spec_bytes(),
            base as int,
            depth as int,
            0,
            0,
        ),
    decreases MAX_INLINE_NEST - depth, 2int,
{
    let n: usize = s.as_bytes().len();
    let ghost b = s.spec_bytes();
    let mut i: usize = 0;
    let mut text_start: usize = 0;
    let ghost goal = grammar::runs(old(out)@) + grammar::inline(b, base as int, depth as int, 0, 0);
    proof {
        text::lemma_str(s);
    }

    while i < n
        invariant
            b == s.spec_bytes(),
            n == b.len(),
            valid_utf8(b),
            text_start <= i <= n,
            depth <= MAX_INLINE_NEST,
            base + n <= usize::MAX,
            goal == grammar::runs(out@) + grammar::inline(
                b,
                base as int,
                depth as int,
                i as int,
                text_start as int,
            ),
        decreases n - i,
    {
        proof {
            grammar::lemma_token(b, i as int);
        }
        let piece = piece_at(s, i);
        match piece {
            Piece::Plain { next } => {
                i = next;
            },
            _ => {
                push_text(out, base, text_start, i);
                i = push_markup(s, base, depth, i, piece, out);
                text_start = i;
                assert(goal =~= grammar::runs(out@) + grammar::inline(
                    b,
                    base as int,
                    depth as int,
                    i as int,
                    text_start as int,
                ));
            },
        }
    }

    push_text(out, base, text_start, n);
}

/// Collapse adjacent spans that share a style.
fn merge(spans: &mut Vec<Span>)
    ensures
        grammar::runs(final(spans)@) == grammar::merged(grammar::runs(old(spans)@)),
{
    let ghost all = grammar::runs(spans@);
    let n: usize = spans.len();
    if n < 2 {
        proof {
            reveal_with_fuel(grammar::merged, 2);
            assert(all =~= grammar::merged(all));
        }
        return;
    }
    let mut write: usize = 0;
    let mut read: usize = 1;
    proof {
        reveal_with_fuel(grammar::merged, 2);
        assert(grammar::runs(spans@.take(1)) =~= grammar::merged(all.take(1)));
    }
    while read < n
        invariant
            spans@.len() == n,
            write < read <= n,
            all.len() == n,
            grammar::runs(spans@.take(write + 1)) == grammar::merged(all.take(read as int)),
            forall|m: int|
                read <= m < n ==> grammar::runs(spans@)[m] == #[trigger] all[m],
        decreases n - read,
    {
        let ghost kept = grammar::runs(spans@.take(write + 1));
        let cur = spans[read];
        let last = spans[write];
        proof {
            assert(all[read as int] == grammar::runs(spans@)[read as int]);
            assert(all.take(read + 1).drop_last() =~= all.take(read as int));
            assert(all.take(read + 1).last() == all[read as int]);
            assert(kept.len() == write + 1);
            assert(kept.last() == grammar::run(last.start as int, last.end as int, last.style));
        }
        if last.style == cur.style && last.end == cur.start {
            spans.set(write, Span::new(last.start, cur.end, last.style));
            assert(grammar::runs(spans@.take(write + 1)) =~= kept.update(
                write as int,
                grammar::run(last.start as int, cur.end as int, cur.style),
            ));
        } else {
            write = write + 1;
            spans.set(write, cur);
            assert(grammar::runs(spans@.take(write + 1)) =~= kept.push(
                grammar::run(cur.start as int, cur.end as int, cur.style),
            ));
        }
        read = read + 1;
    }
    spans.truncate(write + 1);
    assert(all.take(n as int) =~= all);
}

// ---------------------------------------------------------------------------
// Lines
// ---------------------------------------------------------------------------

/// Where the text of a line that is shown as a quote begins.
fn quoted_at(line: &str, in_code_block: bool) -> (r: Option<usize>)
    ensures
        grammar::quoted_from(line.spec_bytes(), in_code_block) == (match r {
            Some(at) => Some(at as int),
            None => None,
        }),
        r matches Some(at) ==> 0 < at <= line.spec_bytes().len() && text::boundary(
            line.spec_bytes(),
            at as int,
        ),
{
    proof {
        text::lemma_str(line);
        grammar::lemma_quote(line.spec_bytes());
    }
    if in_code_block || is_fence(line) || is_separator(line) || heading_at(line).is_some() {
        return None;
    }
    let r = quote_at(line);
    proof {
        if let Some(at) = r {
            text::lemma_ascii_boundary(line.spec_bytes(), at - 1);
        }
    }
    r
}

/// `stops` are the places where the quotes inside one another begin, up to what
/// is not a quote.
spec fn peeled(b: Seq<u8>, in_code_block: bool, stops: Seq<usize>) -> bool {
    &&& stops.len() > 0
    &&& stops[0] == 0
    &&& forall|k: int|
        0 <= k < stops.len() ==> (#[trigger] stops[k]) <= b.len() && text::boundary(
            b,
            stops[k] as int,
        )
    &&& forall|k: int|
        0 <= k < stops.len() - 1 ==> #[trigger] peels(b, in_code_block, stops, k)
}

/// The text from one of the stops on is a quote of what begins at the next.
spec fn peels(b: Seq<u8>, in_code_block: bool, stops: Seq<usize>, k: int) -> bool {
    stops[k] < stops[k + 1] && grammar::quoted_from(
        b.subrange(stops[k] as int, b.len() as int),
        in_code_block && k == 0,
    ) == Some(stops[k + 1] - stops[k])
}

/// Highlight a single line. `in_code_block` is true when the previous lines put
/// us inside a fenced code block (the fence line itself is passed with the state
/// that was active before it).
///
/// The spans cover the line: they are sorted, non-empty, without gap or overlap,
/// cut at character boundaries, and no two neighbours share a style.
pub fn highlight_line(line: &str, in_code_block: bool) -> (out: Vec<Span>)
    ensures
        grammar::runs(out@) == grammar::line(line.spec_bytes(), in_code_block),
        cover::covers(line.spec_bytes(), grammar::runs(out@)),
{
    let ghost b = line.spec_bytes();
    let n: usize = line.as_bytes().len();
    proof {
        text::lemma_str(line);
        text::lemma_boundary(b, 0);
        is_char_boundary_start_end_of_seq(b);
    }
    let mut stops: Vec<usize> = Vec::new();
    stops.push(0);
    let mut at: usize = 0;
    let mut more = true;
    while more
        invariant
            b == line.spec_bytes(),
            n == b.len(),
            valid_utf8(b),
            text::boundary(b, n as int),
            peeled(b, in_code_block, stops@),
            at == stops@.last(),
            !more ==> grammar::quoted_from(
                b.subrange(at as int, n as int),
                in_code_block && stops@.len() == 1,
            ) is None,
        decreases more as nat, n - at,
    {
        let rest = text::slice(line, at, n);
        match quoted_at(rest, in_code_block && stops.len() == 1) {
            Some(step) => {
                let ghost was = stops@;
                proof {
                    if at + step < n {
                        assert(rest.spec_bytes()[step as int] == b[at + step]);
                    }
                }
                at = at + step;
                stops.push(at);
                assert(peeled(b, in_code_block, stops@)) by {
                    assert forall|k: int| 0 <= k < stops@.len() - 1 implies #[trigger] peels(
                        b,
                        in_code_block,
                        stops@,
                        k,
                    ) by {
                        if k < was.len() - 1 {
                            assert(peels(b, in_code_block, was, k));
                        }
                    }
                }
            },
            None => {
                more = false;
            },
        }
    }
    let mut k: usize = stops.len() - 1;
    let rest = text::slice(line, at, n);
    let mut out = highlight_plain(rest, in_code_block && k == 0);
    while k > 0
        invariant
            b == line.spec_bytes(),
            n == b.len(),
            valid_utf8(b),
            text::boundary(b, n as int),
            k < stops@.len(),
            peeled(b, in_code_block, stops@),
            grammar::runs(out@) == grammar::line(
                b.subrange(stops@[k as int] as int, n as int),
                in_code_block && k == 0,
            ),
        decreases k,
    {
        let inner: usize = stops[k];
        let outer: usize = stops[k - 1];
        let ghost part = b.subrange(outer as int, n as int);
        let ghost tail = b.subrange(inner as int, n as int);
        proof {
            assert(peels(b, in_code_block, stops@, k - 1));
            text::lemma_slice_valid(b, inner as int, n as int);
            cover::line_is_covered(tail, false);
            assert(part.subrange(inner - outer, part.len() as int) =~= tail);
        }
        let mut wider: Vec<Span> = Vec::new();
        push(&mut wider, 0, inner - outer, MdStyle::QuoteMarker);
        push_quoted(&out, inner - outer, n - outer, &mut wider);
        proof {
            assert(tail.len() == 0 ==> grammar::runs(out@) =~= seq![]);
            assert(grammar::runs(wider@) =~= grammar::raw_line(part, in_code_block && k == 1));
        }
        merge(&mut wider);
        out = wider;
        k = k - 1;
    }
    assert(b.subrange(0, n as int) =~= b);
    proof {
        cover::line_is_covered(b, in_code_block);
    }
    out
}

/// Highlight a line that is not shown as a quote.
fn highlight_plain(line: &str, in_code_block: bool) -> (out: Vec<Span>)
    requires
        grammar::quoted_from(line.spec_bytes(), in_code_block) is None,
    ensures
        grammar::runs(out@) == grammar::line(line.spec_bytes(), in_code_block),
{
    let mut out: Vec<Span> = Vec::new();
    if line.as_bytes().len() == 0 {
        assert(grammar::runs(out@) =~= Seq::<grammar::Run>::empty());
        return out;
    }
    build_line(line, in_code_block, &mut out);
    merge(&mut out);
    out
}

fn build_line(line: &str, in_code_block: bool, out: &mut Vec<Span>)
    requires
        old(out)@.len() == 0,
        line.spec_bytes().len() > 0,
        grammar::quoted_from(line.spec_bytes(), in_code_block) is None,
    ensures
        grammar::runs(final(out)@) == grammar::raw_line(line.spec_bytes(), in_code_block),
{
    let ghost b = line.spec_bytes();
    let len: usize = line.as_bytes().len();
    proof {
        text::lemma_str(line);
        assert(grammar::runs(out@) =~= Seq::<grammar::Run>::empty());
    }

    if is_fence(line) {
        push(out, 0, len, MdStyle::Fence);
        assert(grammar::runs(out@) =~= grammar::raw_line(b, in_code_block));
        return;
    }
    if in_code_block {
        push(out, 0, len, MdStyle::CodeBlock);
        assert(grammar::runs(out@) =~= grammar::raw_line(b, in_code_block));
        return;
    }
    if is_separator(line) {
        push(out, 0, len, MdStyle::Separator);
        assert(grammar::runs(out@) =~= grammar::raw_line(b, in_code_block));
        return;
    }
    match heading_at(line) {
        Some((level, at)) => {
            proof {
                grammar::lemma_heading(b);
                text::lemma_ascii_boundary(b, at - 1);
            }
            push(out, 0, at, MdStyle::HeadingMarker(level));
            if at < len {
                // Inline markup nests inside a heading: it is parsed like any
                // other line, and only its plain prose takes the heading style.
                let rest = text::slice(line, at, len);
                highlight_wrapped(rest, at, MdStyle::Heading(level), 0, out);
            }
            assert(grammar::runs(out@) =~= grammar::raw_line(b, in_code_block));
            return;
        },
        None => {},
    }
    match list_at(line) {
        Some(at) => {
            proof {
                grammar::lemma_list(b);
                text::lemma_ascii_boundary(b, at - 1);
            }
            push(out, 0, at, MdStyle::ListMarker);
            push_item(line, at, out);
            assert(grammar::runs(out@) =~= grammar::raw_line(b, in_code_block));
            return;
        },
        None => {},
    }
    highlight_inline(line, 0, 0, out);
    assert(grammar::runs(out@) =~= grammar::raw_line(b, in_code_block));
}

/// Append the spans of a quoted remainder that begins at `at`.
fn push_quoted(inner: &Vec<Span>, at: usize, len: usize, out: &mut Vec<Span>)
    requires
        at <= len,
        cover::tiles(grammar::runs(inner@), 0, len - at),
    ensures
        grammar::runs(final(out)@) == grammar::runs(old(out)@) + grammar::quoted(
            grammar::runs(inner@),
            at as int,
        ),
{
    let ghost rs = grammar::runs(inner@);
    let ghost before = grammar::runs(out@);
    let mut k: usize = 0;
    assert(before =~= before + grammar::quoted(rs, at as int).take(0));
    while k < inner.len()
        invariant
            k <= inner@.len(),
            at <= len,
            rs == grammar::runs(inner@),
            cover::tiles(rs, 0, len - at),
            grammar::runs(out@) == before + grammar::quoted(rs, at as int).take(k as int),
        decreases inner@.len() - k,
    {
        let s = inner[k];
        proof {
            cover::lemma_tiles_bound(rs, 0, len - at, k as int);
            assert(rs[k as int] == grammar::run(s.start as int, s.end as int, s.style));
            assert(grammar::quoted(rs, at as int).take(k + 1) =~= grammar::quoted(
                rs,
                at as int,
            ).take(k as int).push(grammar::quoted(rs, at as int)[k as int]));
        }
        let style = if s.style == MdStyle::Text {
            MdStyle::Quote
        } else {
            s.style
        };
        push(out, s.start + at, s.end + at, style);
        k = k + 1;
        assert(grammar::runs(out@) =~= before + grammar::quoted(rs, at as int).take(k as int));
    }
    assert(grammar::quoted(rs, at as int).take(k as int) =~= grammar::quoted(rs, at as int));
}

/// Append the spans of a list item whose bullet ends at `at`.
///
/// The whole content of a ticked task is struck, not only its plain prose: its
/// code and emphasis read as done too. Only the bullet and the box keep their
/// own styling, so the line still reads as a task.
fn push_item(line: &str, at: usize, out: &mut Vec<Span>)
    requires
        at <= line.spec_bytes().len(),
        text::boundary(line.spec_bytes(), at as int),
    ensures
        grammar::runs(final(out)@) == grammar::runs(old(out)@) + grammar::item(
            line.spec_bytes(),
            at as int,
        ),
{
    let ghost b = line.spec_bytes();
    let ghost before = grammar::runs(out@);
    let len: usize = line.as_bytes().len();
    proof {
        text::lemma_str(line);
    }
    let rest = text::slice(line, at, len);
    match task_at(rest) {
        Some((n, style)) => {
            proof {
                assert(rest.spec_bytes()[n - 1] == b[at + n - 1]);
                text::lemma_ascii_boundary(b, at + n - 1);
            }
            push(out, at, at + n, style);
            let from: usize = out.len();
            let ghost boxed = grammar::runs(out@);
            let ghost inner = if at + n < len {
                grammar::inline(b.subrange(at + n, len as int), at + n, 0, 0, 0)
            } else {
                Seq::<grammar::Run>::empty()
            };
            if at + n < len {
                let tail = text::slice(line, at + n, len);
                highlight_inline(tail, at + n, 0, out);
            } else {
                assert(grammar::runs(out@) =~= boxed + inner);
            }
            if style == MdStyle::TaskDone {
                proof {
                    assert(grammar::runs(out@).len() == out@.len());
                    assert(boxed.len() == from);
                    assert(grammar::runs(out@).take(from as int) =~= boxed);
                    assert(grammar::runs(out@).skip(from as int) =~= inner);
                }
                strike(out, from);
            }
            assert(grammar::runs(out@) =~= before + grammar::item(b, at as int));
        },
        None => {
            if at < len {
                highlight_inline(rest, at, 0, out);
            } else {
                assert(grammar::runs(out@) =~= before + grammar::item(b, at as int));
            }
        },
    }
}

/// Strike every span from index `from` on.
fn strike(out: &mut Vec<Span>, from: usize)
    requires
        from <= old(out)@.len(),
    ensures
        grammar::runs(final(out)@) == grammar::runs(old(out)@).take(from as int) + grammar::struck(
            grammar::runs(old(out)@).skip(from as int),
        ),
{
    let ghost painted = out@;
    let mut k: usize = from;
    while k < out.len()
        invariant
            from <= k <= out@.len(),
            out@.len() == painted.len(),
            forall|m: int| 0 <= m < from ==> #[trigger] out@[m] == painted[m],
            forall|m: int| k <= m < out@.len() ==> #[trigger] out@[m] == painted[m],
            forall|m: int|
                from <= m < k ==> (#[trigger] out@[m]).start == painted[m].start && out@[m].end
                    == painted[m].end && out@[m].style == MdStyle::Strikethrough,
        decreases out@.len() - k,
    {
        let span = out[k];
        out.set(k, Span::new(span.start, span.end, MdStyle::Strikethrough));
        k = k + 1;
    }
    assert(grammar::runs(out@) =~= grammar::runs(painted).take(from as int) + grammar::struck(
        grammar::runs(painted).skip(from as int),
    ));
}

/// The bytes of each line.
pub open spec fn line_bytes(lines: Seq<&str>) -> Seq<Seq<u8>> {
    lines.map_values(|l: &str| l.spec_bytes())
}

/// Highlight a whole document, tracking fence state across lines.
/// `out[i]` corresponds to `lines[i]`.
pub fn highlight_document(lines: &[&str]) -> (out: Vec<Vec<Span>>)
    ensures
        out@.len() == lines@.len(),
        forall|k: int|
            0 <= k < lines@.len() ==> {
                let rs = grammar::runs((#[trigger] out@[k])@);
                &&& rs == grammar::line(
                    lines@[k].spec_bytes(),
                    grammar::open_fence(line_bytes(lines@), k),
                )
                &&& cover::covers(lines@[k].spec_bytes(), rs)
            },
{
    let mut in_code_block = false;
    let mut out: Vec<Vec<Span>> = Vec::new();
    let mut i: usize = 0;
    while i < lines.len()
        invariant
            i <= lines@.len(),
            out@.len() == i,
            in_code_block == grammar::open_fence(line_bytes(lines@), i as int),
            forall|k: int|
                0 <= k < i ==> {
                    let rs = grammar::runs((#[trigger] out@[k])@);
                    &&& rs == grammar::line(
                        lines@[k].spec_bytes(),
                        grammar::open_fence(line_bytes(lines@), k),
                    )
                    &&& cover::covers(lines@[k].spec_bytes(), rs)
                },
        decreases lines@.len() - i,
    {
        let line = lines[i];
        assert(line_bytes(lines@)[i as int] == line.spec_bytes());
        out.push(highlight_line(line, in_code_block));
        if is_fence(line) {
            in_code_block = !in_code_block;
        }
        i = i + 1;
    }
    out
}

/// The target of the link under `offset` of a text with inline markup.
fn link_in(s: &str, depth: u8, offset: usize) -> (r: Option<String>)
    requires
        depth <= MAX_INLINE_NEST,
    ensures
        grammar::opens(s.spec_bytes(), depth as int, 0, offset as int) == (match r {
            Some(url) => Some(url@),
            None => None,
        }),
    decreases MAX_INLINE_NEST - depth, 1int,
{
    let n: usize = s.as_bytes().len();
    let ghost b = s.spec_bytes();
    let ghost goal = grammar::opens(b, depth as int, 0, offset as int);
    let mut i: usize = 0;
    proof {
        text::lemma_str(s);
    }
    while i < n
        invariant
            b == s.spec_bytes(),
            n == b.len(),
            valid_utf8(b),
            i <= n,
            depth <= MAX_INLINE_NEST,
            goal == grammar::opens(b, depth as int, 0, offset as int),
            goal == grammar::opens(b, depth as int, i as int, offset as int),
        decreases n - i,
    {
        proof {
            grammar::lemma_token(b, i as int);
        }
        let piece = piece_at(s, i);
        let end: usize = match piece {
            Piece::Plain { next } => next,
            Piece::Code { end, .. } => end,
            Piece::Emphasis { need, close, .. } => close + need,
            Piece::Link { rp, .. } => rp + 1,
            Piece::Url { end } => end,
        };
        assert(end == grammar::token_end(piece.token()));
        let plain = match piece {
            Piece::Plain { .. } => true,
            _ => false,
        };
        if plain || offset >= end {
            i = end;
        } else if offset < i {
            return None;
        } else {
            return link_of(s, depth, i, piece, offset);
        }
    }
    None
}

/// The target of the link under `offset` of the markup at `i`.
fn link_of(s: &str, depth: u8, i: usize, piece: Piece, offset: usize) -> (r: Option<String>)
    requires
        depth <= MAX_INLINE_NEST,
        i < s.spec_bytes().len(),
        piece.token() == grammar::token(s.spec_bytes(), i as int),
        !(piece is Plain),
        i <= offset < grammar::token_end(piece.token()),
    ensures
        grammar::opens(s.spec_bytes(), depth as int, i as int, offset as int) == (match r {
            Some(url) => Some(url@),
            None => None,
        }),
    decreases MAX_INLINE_NEST - depth, 0int,
{
    let ghost b = s.spec_bytes();
    proof {
        text::lemma_str(s);
        grammar::lemma_token(b, i as int);
    }
    match piece {
        Piece::Plain { .. } => None,
        Piece::Code { .. } => None,
        Piece::Emphasis { need, close, .. } => {
            proof {
                text::lemma_ascii_boundary(b, i + need - 1);
                text::lemma_ascii_boundary(b, close as int);
                if depth == MAX_INLINE_NEST {
                    assert(grammar::opens_within(
                        b.subrange(i + need, close as int),
                        depth as int,
                        offset - (i + need),
                    ) is None);
                }
            }
            if depth < MAX_INLINE_NEST && i + need <= offset && offset < close {
                let inner = text::slice(s, i + need, close);
                let r = link_in(inner, depth + 1, offset - (i + need));
                assert(grammar::opens_within(inner.spec_bytes(), depth as int, offset - (i + need)) == (
                match r {
                    Some(url) => Some(url@),
                    None => None,
                }));
                r
            } else {
                None
            }
        },
        Piece::Link { open, rb, rp } => {
            proof {
                text::lemma_ascii_boundary(b, open as int);
                text::lemma_ascii_boundary(b, rb as int);
                text::lemma_ascii_boundary(b, rb + 1);
                text::lemma_ascii_boundary(b, rp as int);
                if depth == MAX_INLINE_NEST {
                    assert(grammar::opens_within(
                        b.subrange(open + 1, rb as int),
                        depth as int,
                        offset - (open + 1),
                    ) is None);
                }
            }
            if offset < open {
                return None;
            }
            // Clickable across the whole construct.
            let target = text::slice(s, rb + 2, rp);
            proof {
                text::lemma_str(target);
            }
            let url = target.trim();
            assert(url@ == text::trimmed(decode_utf8(b.subrange(rb + 2, rp as int))));
            if !url.is_empty() {
                Some(url.to_owned())
            } else if depth < MAX_INLINE_NEST && open < offset && offset < rb {
                let label = text::slice(s, open + 1, rb);
                let r = link_in(label, depth + 1, offset - (open + 1));
                assert(grammar::opens_within(label.spec_bytes(), depth as int, offset - (open + 1)) == (
                match r {
                    Some(url) => Some(url@),
                    None => None,
                }));
                r
            } else {
                None
            }
        },
        Piece::Url { end } => {
            proof {
                text::lemma_ascii_boundary(b, i as int);
                if end < b.len() {
                    text::lemma_ascii_boundary(b, end as int);
                }
            }
            // The run itself is the URL.
            let url = text::slice(s, i, end);
            proof {
                text::lemma_str(url);
            }
            Some(url.to_owned())
        },
    }
}

/// The target of the link under `offset` of the text from `at` on.
fn link_from(line: &str, at: usize, depth: u8, offset: usize) -> (r: Option<String>)
    requires
        depth <= MAX_INLINE_NEST,
        text::boundary(line.spec_bytes(), at as int),
    ensures
        grammar::opens_from(line.spec_bytes(), at as int, depth as int, offset as int) == (match r {
            Some(url) => Some(url@),
            None => None,
        }),
{
    if offset < at {
        return None;
    }
    proof {
        text::lemma_str(line);
    }
    let rest = text::slice(line, at, line.as_bytes().len());
    link_in(rest, depth, offset - at)
}

/// The URL to open for a click at byte `offset` within `line`, if the offset
/// lands on a link. Covers a `[text](url)` anywhere from the opening `[` through
/// the closing `)`, and a bare `http(s)://…` autolink. It walks the same tokens
/// that [`highlight_line`] paints with, so what reads as a link is exactly what
/// opens. `None` when the offset is on ordinary text.
pub fn link_at(line: &str, offset: usize) -> (r: Option<String>)
    ensures
        grammar::link_under(line.spec_bytes(), offset as int) == (match r {
            Some(url) => Some(url@),
            None => None,
        }),
{
    let n: usize = line.as_bytes().len();
    let ghost b = line.spec_bytes();
    let ghost goal = grammar::link_under(b, offset as int);
    let mut from: usize = 0;
    proof {
        text::lemma_str(line);
        text::lemma_boundary(b, 0);
        is_char_boundary_start_end_of_seq(b);
        assert(b.subrange(0, n as int) =~= b);
    }
    loop
        invariant
            b == line.spec_bytes(),
            n == b.len(),
            valid_utf8(b),
            text::boundary(b, n as int),
            text::boundary(b, from as int),
            from <= n,
            from <= offset || from == 0,
            goal == grammar::link_under(b, offset as int),
            goal == grammar::link_under(b.subrange(from as int, n as int), offset - from),
        decreases n - from,
    {
        let rest = text::slice(line, from, n);
        let ghost part = rest.spec_bytes();
        let at: usize = offset - from;
        proof {
            text::lemma_str(rest);
            grammar::lemma_heading(part);
            grammar::lemma_quote(part);
            grammar::lemma_list(part);
        }
        if is_fence(rest) || is_separator(rest) {
            return None;
        }
        match heading_at(rest) {
            Some((_, start)) => {
                proof {
                    text::lemma_ascii_boundary(part, start - 1);
                }
                return link_from(rest, start, 1, at);
            },
            None => {},
        }
        match quote_at(rest) {
            Some(start) => {
                if at < start {
                    return None;
                }
                proof {
                    text::lemma_ascii_boundary(part, start - 1);
                    if from + start < n {
                        assert(part[start as int] == b[from + start]);
                    }
                    assert(part.subrange(start as int, part.len() as int) =~= b.subrange(
                        from + start,
                        n as int,
                    ));
                }
                from = from + start;
            },
            None => {
                match list_at(rest) {
                    Some(bullet) => {
                        proof {
                            text::lemma_ascii_boundary(part, bullet - 1);
                        }
                        let item = text::slice(rest, bullet, n - from);
                        let start: usize = match task_at(item) {
                            Some((box_len, _)) => bullet + box_len,
                            None => bullet,
                        };
                        proof {
                            if start > bullet {
                                assert(item.spec_bytes()[start - bullet - 1] == part[start - 1]);
                                text::lemma_ascii_boundary(part, start - 1);
                            }
                        }
                        return link_from(rest, start, 0, at);
                    },
                    None => {
                        return link_in(rest, 0, at);
                    },
                }
            },
        }
    }
}

// ---------------------------------------------------------------------------
// Carrying structure onto the next line
// ---------------------------------------------------------------------------

/// What is carried after `prefix`, which ends at `at`, with what the remainder
/// carries.
spec fn carried_on(prefix: Seq<char>, at: int, rest: Option<(Seq<char>, int)>) -> Option<
    (Seq<char>, int),
> {
    match rest {
        Some((inner, end)) => Some((prefix + inner, at + end)),
        None => if at > 0 {
            Some((prefix, at))
        } else {
            None
        },
    }
}

/// The prefix that carries a line's structure onto the next one, and the byte
/// offset where that structure ends.
pub fn marker(line: &str) -> (r: Option<(String, usize)>)
    ensures
        grammar::carried(line.spec_bytes()) == (match r {
            Some((prefix, end)) => Some((prefix@, end as int)),
            None => None,
        }),
        r matches Some((prefix, end)) ==> end <= line.spec_bytes().len(),
{
    let ghost b = line.spec_bytes();
    let n: usize = line.as_bytes().len();
    proof {
        text::lemma_str(line);
        text::lemma_boundary(b, 0);
        is_char_boundary_start_end_of_seq(b);
        assert(b.subrange(0, n as int) =~= b);
    }
    // A quote can hold a list, or another quote, so carry all of them.
    let mut prefix = String::new();
    let mut from: usize = 0;
    let mut quotes = true;
    assert(carried_on(prefix@, 0, grammar::carried(b)) == grammar::carried(b)) by {
        if let Some((inner, end)) = grammar::carried(b) {
            assert(prefix@ + inner =~= inner);
        }
    }
    while quotes
        invariant
            b == line.spec_bytes(),
            n == b.len(),
            valid_utf8(b),
            text::boundary(b, n as int),
            text::boundary(b, from as int),
            from <= n,
            grammar::carried(b) == carried_on(
                prefix@,
                from as int,
                grammar::carried(b.subrange(from as int, n as int)),
            ),
            !quotes ==> grammar::quote(b.subrange(from as int, n as int)) is None,
        decreases quotes as nat, n - from,
    {
        let rest = text::slice(line, from, n);
        let ghost part = rest.spec_bytes();
        match quote_at(rest) {
            Some(end) => {
                proof {
                    text::lemma_str(rest);
                    grammar::lemma_quote(part);
                    text::lemma_ascii_boundary(part, end - 1);
                    if from + end < n {
                        assert(part[end as int] == b[from + end]);
                    }
                    assert(part.subrange(end as int, part.len() as int) =~= b.subrange(
                        from + end,
                        n as int,
                    ));
                }
                let head = text::slice(rest, 0, end);
                let ghost was = prefix@;
                prefix.push_str(head);
                proof {
                    text::lemma_str(head);
                    if let Some((inner, inner_end)) = grammar::carried(
                        b.subrange(from + end, n as int),
                    ) {
                        assert(was + (head@ + inner) =~= prefix@ + inner);
                    }
                }
                from = from + end;
            },
            None => {
                quotes = false;
            },
        }
    }
    let rest = text::slice(line, from, n);
    match list_marker(rest) {
        Some((bullet, end)) => {
            prefix.push_str(bullet.as_str());
            Some((prefix, from + end))
        },
        None => if from > 0 {
            Some((prefix, from))
        } else {
            None
        },
    }
}

/// The prefix that carries a list item onto the next line.
fn list_marker(line: &str) -> (r: Option<(String, usize)>)
    requires
        grammar::quote(line.spec_bytes()) is None,
    ensures
        grammar::carried(line.spec_bytes()) == (match r {
            Some((prefix, end)) => Some((prefix@, end as int)),
            None => None,
        }),
        r matches Some((prefix, end)) ==> end <= line.spec_bytes().len(),
{
    let ghost b = line.spec_bytes();
    let n: usize = line.as_bytes().len();
    proof {
        text::lemma_str(line);
        is_char_boundary_start_end_of_seq(b);
        text::lemma_boundary(b, 0);
    }
    match list_at(line) {
        Some(end) => {
            proof {
                grammar::lemma_list(b);
                text::lemma_ascii_boundary(b, end - 1);
            }
            let bullet = text::slice(line, 0, end);
            let item = text::slice(line, end, n);
            let mut next = next_bullet(bullet);
            let mut stop: usize = end;
            match task_at(item) {
                Some((len, _)) => {
                    // A carried-over task starts unticked whether or not this
                    // one is.
                    next.push_str("[ ] ");
                    proof {
                        reveal_strlit("[ ] ");
                        assert("[ ] "@ =~= seq!['[', ' ', ']', ' ']);
                    }
                    stop = end + len;
                },
                None => {},
            }
            Some((next, stop))
        },
        None => None,
    }
}

/// The bullet that follows `bullet`: the same one, except that an ordered list
/// counts up.
fn next_bullet(bullet: &str) -> (r: String)
    ensures
        r@ == grammar::next_bullet(bullet.spec_bytes()),
{
    let b = bullet.as_bytes();
    let n: usize = b.len();
    let mut i: usize = 0;
    proof {
        text::lemma_str(bullet);
        text::lemma_boundary(b@, 0);
        is_char_boundary_start_end_of_seq(b@);
    }
    while i < n && is_space(b[i])
        invariant
            b@ == bullet.spec_bytes(),
            valid_utf8(b@),
            text::boundary(b@, i as int),
            n == b@.len(),
            i <= n,
            grammar::blanks_end(b@, 0) == grammar::blanks_end(b@, i as int),
        decreases n - i,
    {
        proof {
            text::lemma_ascii_boundary(b@, i as int);
        }
        i = i + 1;
    }
    let mut j: usize = i;
    let mut value: u64 = 0;
    let mut fits = true;
    assert(b@.subrange(i as int, i as int) =~= Seq::<u8>::empty());
    while j < n && is_digit(b[j])
        invariant
            b@ == bullet.spec_bytes(),
            valid_utf8(b@),
            text::boundary(b@, j as int),
            n == b@.len(),
            i <= j <= n,
            grammar::digits_end(b@, i as int) == grammar::digits_end(b@, j as int),
            fits ==> value == grammar::number(b@.subrange(i as int, j as int)),
            !fits ==> grammar::number(b@.subrange(i as int, j as int)) > u64::MAX,
        decreases n - j,
    {
        let d: u64 = (b[j] - ascii::ZERO) as u64;
        proof {
            text::lemma_ascii_boundary(b@, j as int);
            let s = b@.subrange(i as int, j + 1);
            assert(s.drop_last() =~= b@.subrange(i as int, j as int));
            assert(s.last() == b@[j as int]);
        }
        if fits {
            match value.checked_mul(10) {
                Some(tens) => match tens.checked_add(d) {
                    Some(v) => {
                        value = v;
                    },
                    None => {
                        fits = false;
                    },
                },
                None => {
                    fits = false;
                },
            }
        }
        j = j + 1;
    }
    if i == j || !fits {
        return bullet.to_owned();
    }
    let head = text::slice(bullet, 0, i);
    let tail = text::slice(bullet, j, n);
    proof {
        text::lemma_str(head);
        text::lemma_str(tail);
    }
    let next: u64 = if value == u64::MAX {
        value
    } else {
        value + 1
    };
    let mut out = head.to_owned();
    out.push_str(text::decimal(next).as_str());
    out.push_str(tail);
    out
}

} // verus!
