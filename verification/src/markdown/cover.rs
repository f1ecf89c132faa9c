//! The runs of a line cover it: without gap or overlap, cut at characters, and
//! no two neighbours of one style.

use vstd::prelude::*;
use vstd::utf8::*;
use crate::markdown::MdStyle;
use crate::markdown::MAX_INLINE_NEST;
use crate::markdown::grammar;
use crate::markdown::grammar::{Run, Token};
use crate::text;

verus! {

/// `rs` is a chain of non-empty runs from `lo` to `hi`.
pub open spec fn tiles(rs: Seq<Run>, lo: int, hi: int) -> bool {
    &&& rs.len() == 0 ==> lo == hi
    &&& rs.len() > 0 ==> rs[0].start == lo && rs.last().end == hi
    &&& forall|i: int| 0 <= i < rs.len() ==> (#[trigger] rs[i]).start < rs[i].end
    &&& forall|i: int, j: int|
        0 <= i && j == i + 1 && j < rs.len() ==> (#[trigger] rs[i]).end == (#[trigger] rs[j]).start
}

/// Every run of `rs` begins and ends between characters of `b`, which stands at
/// `base`.
pub open spec fn aligned(rs: Seq<Run>, b: Seq<u8>, base: int) -> bool {
    forall|i: int|
        0 <= i < rs.len() ==> text::boundary(b, (#[trigger] rs[i]).start - base) && text::boundary(
            b,
            rs[i].end - base,
        )
}

/// No two neighbours share a style.
pub open spec fn distinct(rs: Seq<Run>) -> bool {
    forall|i: int, j: int|
        0 <= i && j == i + 1 && j < rs.len() ==> (#[trigger] rs[i]).style != (
        #[trigger] rs[j]).style
}

/// What holds of the runs of every line.
pub open spec fn covers(b: Seq<u8>, rs: Seq<Run>) -> bool {
    &&& b.len() == 0 ==> rs.len() == 0
    &&& tiles(rs, 0, b.len() as int)
    &&& aligned(rs, b, 0)
    &&& distinct(rs)
}

/// A run of a chain lies between its ends.
pub proof fn lemma_tiles_bound(rs: Seq<Run>, lo: int, hi: int, k: int)
    requires
        tiles(rs, lo, hi),
        0 <= k < rs.len(),
    ensures
        lo <= rs[k].start < rs[k].end <= hi,
    decreases rs.len() - k,
{
    lemma_tiles_below(rs, lo, hi, k);
    if k + 1 < rs.len() {
        lemma_tiles_bound(rs, lo, hi, k + 1);
        assert(rs[k].end == rs[k + 1].start);
    }
}

proof fn lemma_tiles_below(rs: Seq<Run>, lo: int, hi: int, k: int)
    requires
        tiles(rs, lo, hi),
        0 <= k < rs.len(),
    ensures
        lo <= rs[k].start,
    decreases k,
{
    if k > 0 {
        lemma_tiles_below(rs, lo, hi, k - 1);
        assert(rs[k - 1].end == rs[k].start);
    }
}

proof fn lemma_tiles_join(a: Seq<Run>, c: Seq<Run>, lo: int, mid: int, hi: int)
    requires
        tiles(a, lo, mid),
        tiles(c, mid, hi),
    ensures
        tiles(a + c, lo, hi),
{
    let rs = a + c;
    if c.len() == 0 {
        assert(rs =~= a);
    } else if a.len() == 0 {
        assert(rs =~= c);
    } else {
        assert(rs.last() == c.last());
        assert forall|i: int, j: int| 0 <= i && j == i + 1 && j < rs.len() implies (
        #[trigger] rs[i]).end == (#[trigger] rs[j]).start by {
            if j < a.len() {
                assert(rs[i] == a[i] && rs[j] == a[j]);
            } else if i >= a.len() {
                assert(rs[i] == c[i - a.len()] && rs[j] == c[j - a.len()]);
            } else {
                assert(rs[i] == a.last() && rs[j] == c[0]);
            }
        }
    }
}

proof fn lemma_aligned_join(a: Seq<Run>, c: Seq<Run>, b: Seq<u8>, base: int)
    requires
        aligned(a, b, base),
        aligned(c, b, base),
    ensures
        aligned(a + c, b, base),
{
    let rs = a + c;
    assert forall|i: int| 0 <= i < rs.len() implies text::boundary(b, (#[trigger] rs[i]).start
        - base) && text::boundary(b, rs[i].end - base) by {
        if i < a.len() {
            assert(rs[i] == a[i]);
        } else {
            assert(rs[i] == c[i - a.len()]);
        }
    }
}

/// One run over `start..end`.
proof fn lemma_one(r: Run, b: Seq<u8>, base: int)
    requires
        r.start < r.end,
        text::boundary(b, r.start - base),
        text::boundary(b, r.end - base),
    ensures
        tiles(seq![r], r.start, r.end),
        aligned(seq![r], b, base),
{
}

/// A part of `b` that is covered where it stands is covered in `b`.
proof fn lemma_aligned_part(rs: Seq<Run>, b: Seq<u8>, lo: int, hi: int, base: int)
    requires
        0 <= lo <= hi <= b.len(),
        text::boundary(b, hi),
        aligned(rs, b.subrange(lo, hi), base + lo),
    ensures
        aligned(rs, b, base),
{
    let part = b.subrange(lo, hi);
    assert forall|i: int| 0 <= i < rs.len() implies text::boundary(b, (#[trigger] rs[i]).start
        - base) && text::boundary(b, rs[i].end - base) by {
        let s = rs[i].start - base - lo;
        let e = rs[i].end - base - lo;
        assert(text::boundary(part, s) && text::boundary(part, e));
        assert(s < part.len() ==> part[s] == b[s + lo]);
        assert(e < part.len() ==> part[e] == b[e + lo]);
    }
}

/// Another style on the same ranges.
proof fn lemma_restyled(rs: Seq<Run>, out: Seq<Run>, lo: int, hi: int, b: Seq<u8>, base: int)
    requires
        tiles(rs, lo, hi),
        aligned(rs, b, base),
        out.len() == rs.len(),
        forall|i: int|
            0 <= i < rs.len() ==> (#[trigger] out[i]).start == rs[i].start && out[i].end == rs[i].end,
    ensures
        tiles(out, lo, hi),
        aligned(out, b, base),
{
    assert forall|i: int, j: int| 0 <= i && j == i + 1 && j < out.len() implies (
    #[trigger] out[i]).end == (#[trigger] out[j]).start by {
        assert(rs[i].end == rs[j].start);
    }
    assert forall|i: int| 0 <= i < out.len() implies text::boundary(b, (#[trigger] out[i]).start
        - base) && text::boundary(b, out[i].end - base) by {
        assert(rs[i].start == out[i].start);
    }
    assert forall|i: int| 0 <= i < out.len() implies (#[trigger] out[i]).start < out[i].end by {
        assert(rs[i].start == out[i].start);
    }
    if rs.len() > 0 {
        assert(out[0].start == rs[0].start);
        assert(out[rs.len() - 1].end == rs[rs.len() - 1].end);
    }
}

/// The tokens of a text cover it from `from` on.
proof fn lemma_inline(b: Seq<u8>, base: int, depth: int, i: int, from: int)
    requires
        valid_utf8(b),
        0 <= depth <= MAX_INLINE_NEST,
        0 <= from <= i <= b.len(),
        text::boundary(b, from),
    ensures
        tiles(grammar::inline(b, base, depth, i, from), base + from, base + b.len()),
        aligned(grammar::inline(b, base, depth, i, from), b, base),
    decreases MAX_INLINE_NEST + 1 - depth, 2int, b.len() - i,
{
    let n = b.len() as int;
    if i >= n {
        if from < n {
            lemma_one(grammar::run(base + from, base + n, MdStyle::Text), b, base);
        }
    } else {
        grammar::lemma_token(b, i);
        let t = grammar::token(b, i);
        let end = grammar::token_end(t);
        match t {
            Token::Plain { next } => {
                lemma_inline(b, base, depth, next, from);
            },
            _ => {
                lemma_markup(b, base, depth, i);
                let head = grammar::prose(base, from, i);
                let body = grammar::markup(b, base, depth, i, t);
                if from < i {
                    lemma_one(grammar::run(base + from, base + i, MdStyle::Text), b, base);
                }
                lemma_inline(b, base, depth, end, end);
                let rest = grammar::inline(b, base, depth, end, end);
                lemma_tiles_join(head, body, base + from, base + i, base + end);
                lemma_aligned_join(head, body, b, base);
                lemma_tiles_join(head + body, rest, base + from, base + end, base + n);
                lemma_aligned_join(head + body, rest, b, base);
            },
        }
    }
}

/// Markup covers what stands between its ends.
#[verifier::rlimit(60)]
#[verifier::spinoff_prover]
proof fn lemma_markup(b: Seq<u8>, base: int, depth: int, i: int)
    requires
        valid_utf8(b),
        0 <= depth <= MAX_INLINE_NEST,
        0 <= i < b.len(),
        !(grammar::token(b, i) is Plain),
    ensures
        text::boundary(b, i),
        text::boundary(b, grammar::token_end(grammar::token(b, i))),
        tiles(
            grammar::markup(b, base, depth, i, grammar::token(b, i)),
            base + i,
            base + grammar::token_end(grammar::token(b, i)),
        ),
        aligned(grammar::markup(b, base, depth, i, grammar::token(b, i)), b, base),
    decreases MAX_INLINE_NEST + 1 - depth, 1int, 0int,
{
    let t = grammar::token(b, i);
    grammar::lemma_token(b, i);
    match t {
        Token::Plain { next } => {},
        Token::Code { ticks, end } => {
            assert(b[i] < 0x80);
            text::lemma_ascii_boundary(b, i);
            text::lemma_ascii_boundary(b, i + ticks - 1);
            text::lemma_ascii_boundary(b, end - ticks);
            text::lemma_ascii_boundary(b, end - 1);
            let open = seq![grammar::run(base + i, base + i + ticks, MdStyle::Marker)];
            let body = seq![grammar::run(base + i + ticks, base + end - ticks, MdStyle::Code)];
            let shut = seq![grammar::run(base + end - ticks, base + end, MdStyle::Marker)];
            lemma_one(open[0], b, base);
            lemma_one(body[0], b, base);
            lemma_one(shut[0], b, base);
            lemma_tiles_join(open, body, base + i, base + i + ticks, base + end - ticks);
            lemma_aligned_join(open, body, b, base);
            lemma_tiles_join(open + body, shut, base + i, base + end - ticks, base + end);
            lemma_aligned_join(open + body, shut, b, base);
            assert(grammar::markup(b, base, depth, i, t) =~= open + body + shut);
        },
        Token::Url { end } => {
            text::lemma_ascii_boundary(b, i);
            if end < b.len() {
                text::lemma_ascii_boundary(b, end);
            }
            lemma_one(grammar::run(base + i, base + end, MdStyle::LinkUrl), b, base);
        },
        Token::Emphasis { need, close, style } => {
            assert(b[i] < 0x80);
            text::lemma_ascii_boundary(b, i);
            text::lemma_ascii_boundary(b, i + need - 1);
            text::lemma_ascii_boundary(b, close);
            text::lemma_ascii_boundary(b, close + need - 1);
            let open = seq![grammar::run(base + i, base + i + need, MdStyle::Marker)];
            let shut = seq![grammar::run(base + close, base + close + need, MdStyle::Marker)];
            let mid = grammar::wrapped(b.subrange(i + need, close), base + i + need, style, depth);
            lemma_one(open[0], b, base);
            lemma_one(shut[0], b, base);
            lemma_wrapped_part(b, base, i + need, close, style, depth);
            lemma_tiles_join(open, mid, base + i, base + i + need, base + close);
            lemma_aligned_join(open, mid, b, base);
            lemma_tiles_join(open + mid, shut, base + i, base + close, base + close + need);
            lemma_aligned_join(open + mid, shut, b, base);
        },
        Token::Link { open, rb, rp } => {
            text::lemma_ascii_boundary(b, i);
            text::lemma_ascii_boundary(b, open);
            text::lemma_ascii_boundary(b, rb);
            text::lemma_ascii_boundary(b, rb + 1);
            text::lemma_ascii_boundary(b, rp);
            let r1 = seq![grammar::run(base + i, base + open + 1, MdStyle::Marker)];
            lemma_one(r1[0], b, base);
            let r2 = if rb > open + 1 {
                grammar::wrapped(
                    b.subrange(open + 1, rb),
                    base + open + 1,
                    MdStyle::LinkText,
                    depth,
                )
            } else {
                seq![]
            };
            if rb > open + 1 {
                lemma_wrapped_part(b, base, open + 1, rb, MdStyle::LinkText, depth);
            }
            let r3 = seq![grammar::run(base + rb, base + rb + 2, MdStyle::Marker)];
            lemma_one(r3[0], b, base);
            let r4 = if rp > rb + 2 {
                seq![grammar::run(base + rb + 2, base + rp, MdStyle::Marker)]
            } else {
                seq![]
            };
            if rp > rb + 2 {
                lemma_one(r4[0], b, base);
            }
            let r5 = seq![grammar::run(base + rp, base + rp + 1, MdStyle::Marker)];
            lemma_one(r5[0], b, base);
            lemma_tiles_join(r1, r2, base + i, base + open + 1, base + rb);
            lemma_aligned_join(r1, r2, b, base);
            lemma_tiles_join(r1 + r2, r3, base + i, base + rb, base + rb + 2);
            lemma_aligned_join(r1 + r2, r3, b, base);
            lemma_tiles_join(r1 + r2 + r3, r4, base + i, base + rb + 2, base + rp);
            lemma_aligned_join(r1 + r2 + r3, r4, b, base);
            lemma_tiles_join(r1 + r2 + r3 + r4, r5, base + i, base + rp, base + rp + 1);
            lemma_aligned_join(r1 + r2 + r3 + r4, r5, b, base);
        },
    }
}

/// Wrapped markup covers its part of `b`.
proof fn lemma_wrapped_part(b: Seq<u8>, base: int, lo: int, hi: int, style: MdStyle, depth: int)
    requires
        valid_utf8(b),
        0 <= depth <= MAX_INLINE_NEST,
        0 <= lo < hi <= b.len(),
        text::boundary(b, lo),
        text::boundary(b, hi),
    ensures
        tiles(grammar::wrapped(b.subrange(lo, hi), base + lo, style, depth), base + lo, base + hi),
        aligned(grammar::wrapped(b.subrange(lo, hi), base + lo, style, depth), b, base),
    decreases MAX_INLINE_NEST + 1 - depth, 0int, 1int,
{
    let part = b.subrange(lo, hi);
    text::lemma_slice_valid(b, lo, hi);
    if depth >= MAX_INLINE_NEST {
        lemma_one(grammar::run(base + lo, base + hi, style), b, base);
    } else {
        assert(text::boundary(part, 0)) by {
            assert(part[0] == b[lo]);
        }
        lemma_inline(part, base + lo, depth + 1, 0, 0);
        let inner = grammar::inline(part, base + lo, depth + 1, 0, 0);
        lemma_aligned_part(inner, b, lo, hi, base);
        lemma_restyled(
            inner,
            grammar::recoloured(inner, style),
            base + lo,
            base + hi,
            b,
            base,
        );
    }
}

/// Joining neighbours keeps a cover one, and leaves no two alike.
proof fn lemma_merged(rs: Seq<Run>, lo: int, hi: int, b: Seq<u8>)
    requires
        tiles(rs, lo, hi),
        aligned(rs, b, 0),
    ensures
        tiles(grammar::merged(rs), lo, hi),
        aligned(grammar::merged(rs), b, 0),
        distinct(grammar::merged(rs)),
        rs.len() > 0 ==> grammar::merged(rs).len() > 0,
    decreases rs.len(),
{
    if rs.len() > 0 {
        let rest = rs.drop_last();
        let r = rs.last();
        if rest.len() > 0 {
            assert(rs[rest.len() - 1].end == rs[rest.len() as int].start);
        }
        assert(tiles(rest, lo, r.start)) by {
            assert forall|i: int, j: int|
                0 <= i && j == i + 1 && j < rest.len() implies (#[trigger] rest[i]).end == (
            #[trigger] rest[j]).start by {
                assert(rest[i] == rs[i] && rest[j] == rs[j]);
            }
        }
        assert(aligned(rest, b, 0)) by {
            assert forall|i: int| 0 <= i < rest.len() implies text::boundary(
                b,
                (#[trigger] rest[i]).start - 0,
            ) && text::boundary(b, rest[i].end - 0) by {
                assert(rest[i] == rs[i]);
            }
        }
        lemma_merged(rest, lo, r.start, b);
        let m = grammar::merged(rest);
        let out = grammar::merged(rs);
        assert forall|i: int, j: int| 0 <= i && j == i + 1 && j < out.len() implies (
        #[trigger] out[i]).end == (#[trigger] out[j]).start && out[i].style != out[j].style by {
            if j < m.len() {
                assert(m[i].end == m[j].start && m[i].style != m[j].style);
            }
        }
        assert forall|i: int| 0 <= i < out.len() implies (#[trigger] out[i]).start < out[i].end
            && text::boundary(b, out[i].start - 0) && text::boundary(b, out[i].end - 0) by {
            assert(rs[rs.len() - 1] == r);
            if i < m.len() {
                assert(m[i].start < m[i].end);
                assert(text::boundary(b, m[i].start - 0) && text::boundary(b, m[i].end - 0));
            }
        }
    }
}

/// The runs of a line that are quoted cover the line they stand in.
proof fn lemma_quoted(rs: Seq<Run>, b: Seq<u8>, at: int)
    requires
        0 <= at <= b.len(),
        text::boundary(b, b.len() as int),
        tiles(rs, 0, b.len() - at),
        aligned(rs, b.subrange(at, b.len() as int), 0),
    ensures
        tiles(grammar::quoted(rs, at), at, b.len() as int),
        aligned(grammar::quoted(rs, at), b, 0),
{
    let out = grammar::quoted(rs, at);
    let part = b.subrange(at, b.len() as int);
    assert forall|i: int, j: int| 0 <= i && j == i + 1 && j < out.len() implies (
    #[trigger] out[i]).end == (#[trigger] out[j]).start by {
        assert(rs[i].end == rs[j].start);
    }
    assert forall|i: int| 0 <= i < out.len() implies (#[trigger] out[i]).start < out[i].end by {
        assert(rs[i].start < rs[i].end);
    }
    assert forall|i: int| 0 <= i < out.len() implies text::boundary(b, (#[trigger] out[i]).start
        - 0) && text::boundary(b, out[i].end - 0) by {
        let s = rs[i].start;
        let e = rs[i].end;
        assert(text::boundary(part, s - 0) && text::boundary(part, e - 0));
        assert(s < part.len() ==> part[s] == b[s + at]);
        assert(e < part.len() ==> part[e] == b[e + at]);
    }
    if rs.len() > 0 {
        assert(rs[0].start == 0);
        assert(rs[rs.len() - 1].end == b.len() - at);
    }
}

/// The text of a list item covers the line from its bullet on.
proof fn lemma_item(b: Seq<u8>, at: int)
    requires
        valid_utf8(b),
        0 <= at <= b.len(),
        text::boundary(b, at),
    ensures
        tiles(grammar::item(b, at), at, b.len() as int),
        aligned(grammar::item(b, at), b, 0),
{
    let n = b.len() as int;
    let rest = b.subrange(at, n);
    match grammar::task(rest) {
        Some((k, style)) => {
            assert(rest[k - 1] == b[at + k - 1]);
            text::lemma_ascii_boundary(b, at + k - 1);
            let head = seq![grammar::run(at, at + k, style)];
            lemma_one(head[0], b, 0);
            let inner = if at + k < n {
                grammar::inline(b.subrange(at + k, n), at + k, 0, 0, 0)
            } else {
                seq![]
            };
            if at + k < n {
                lemma_inline_part(b, at + k);
            }
            lemma_restyled(inner, grammar::struck(inner), at + k, n, b, 0);
            let tail = if style == MdStyle::TaskDone {
                grammar::struck(inner)
            } else {
                inner
            };
            lemma_tiles_join(head, tail, at, at + k, n);
            lemma_aligned_join(head, tail, b, 0);
        },
        None => {
            if at < n {
                lemma_inline_part(b, at);
            }
        },
    }
}

/// Markup from `lo` to the end of a line covers that part of it.
proof fn lemma_inline_part(b: Seq<u8>, lo: int)
    requires
        valid_utf8(b),
        0 <= lo < b.len(),
        text::boundary(b, lo),
    ensures
        tiles(grammar::inline(b.subrange(lo, b.len() as int), lo, 0, 0, 0), lo, b.len() as int),
        aligned(grammar::inline(b.subrange(lo, b.len() as int), lo, 0, 0, 0), b, 0),
{
    let n = b.len() as int;
    let part = b.subrange(lo, n);
    text::lemma_slice_valid(b, lo, n);
    assert(part[0] == b[lo]);
    lemma_inline(part, lo, 0, 0, 0);
    lemma_aligned_part(grammar::inline(part, lo, 0, 0, 0), b, lo, n, 0);
}

/// Every line is covered by its runs.
pub proof fn line_is_covered(b: Seq<u8>, in_code_block: bool)
    requires
        valid_utf8(b),
    ensures
        covers(b, grammar::line(b, in_code_block)),
    decreases b.len(),
{
    let n = b.len() as int;
    if n > 0 {
        let rs = grammar::raw_line(b, in_code_block);
        text::lemma_boundary(b, 0);
        is_char_boundary_start_end_of_seq(b);
        if grammar::fence(b) {
            lemma_one(grammar::run(0, n, MdStyle::Fence), b, 0);
        } else if in_code_block {
            lemma_one(grammar::run(0, n, MdStyle::CodeBlock), b, 0);
        } else if grammar::separator(decode_utf8(b)) {
            lemma_one(grammar::run(0, n, MdStyle::Separator), b, 0);
        } else if let Some((level, at)) = grammar::heading(b) {
            grammar::lemma_heading(b);
            text::lemma_ascii_boundary(b, at - 1);
            let head = seq![grammar::run(0, at, MdStyle::HeadingMarker(level))];
            lemma_one(head[0], b, 0);
            let tail = if at < n {
                grammar::wrapped(b.subrange(at, n), at, MdStyle::Heading(level), 0)
            } else {
                seq![]
            };
            if at < n {
                lemma_wrapped_part(b, 0, at, n, MdStyle::Heading(level), 0);
            }
            lemma_tiles_join(head, tail, 0, at, n);
            lemma_aligned_join(head, tail, b, 0);
        } else if let Some(at) = grammar::quote(b) {
            grammar::lemma_quote(b);
            text::lemma_ascii_boundary(b, at - 1);
            let head = seq![grammar::run(0, at, MdStyle::QuoteMarker)];
            lemma_one(head[0], b, 0);
            let part = b.subrange(at, n);
            let tail = if at < n {
                grammar::quoted(grammar::line(part, false), at)
            } else {
                seq![]
            };
            if at < n {
                text::lemma_slice_valid(b, at, n);
                line_is_covered(part, false);
                lemma_quoted(grammar::line(part, false), b, at);
            }
            lemma_tiles_join(head, tail, 0, at, n);
            lemma_aligned_join(head, tail, b, 0);
        } else if let Some(at) = grammar::list(b) {
            grammar::lemma_list(b);
            text::lemma_ascii_boundary(b, at - 1);
            let head = seq![grammar::run(0, at, MdStyle::ListMarker)];
            lemma_one(head[0], b, 0);
            lemma_item(b, at);
            lemma_tiles_join(head, grammar::item(b, at), 0, at, n);
            lemma_aligned_join(head, grammar::item(b, at), b, 0);
        } else {
            lemma_inline(b, 0, 0, 0, 0);
        }
        lemma_merged(rs, 0, n, b);
    }
}

} // verus!
