//! Byte offsets into UTF-8 text: where characters begin, and how to cut there.

use vstd::prelude::*;
use vstd::utf8::*;
use vstd::string::StringSliceAdditionalSpecFns;

verus! {

/// A byte offset at which `bytes` can be cut without splitting a character.
///
/// For valid UTF-8 this is [`is_char_boundary`], stated without recursion.
pub open spec fn boundary(bytes: Seq<u8>, at: int) -> bool {
    0 <= at <= bytes.len() && (at < bytes.len() ==> !is_continuation_byte(bytes[at]))
}

/// The two notions of a boundary agree on valid UTF-8.
pub proof fn lemma_boundary(bytes: Seq<u8>, at: int)
    requires
        valid_utf8(bytes),
    ensures
        boundary(bytes, at) <==> is_char_boundary(bytes, at),
{
    if 0 <= at < bytes.len() {
        is_char_boundary_iff_not_is_continuation_byte(bytes, at);
    } else {
        is_char_boundary_start_end_of_seq(bytes);
        if at != bytes.len() {
            lemma_boundary_in_range(bytes, at);
        }
    }
}

proof fn lemma_boundary_in_range(bytes: Seq<u8>, at: int)
    requires
        valid_utf8(bytes),
        at < 0 || at > bytes.len(),
    ensures
        !is_char_boundary(bytes, at),
{
    reveal_with_fuel(is_char_boundary, 1);
}

/// The first byte of valid UTF-8 begins a character.
proof fn lemma_first_byte(bytes: Seq<u8>)
    requires
        valid_utf8(bytes),
        bytes.len() > 0,
    ensures
        !is_continuation_byte(bytes[0]),
{
}

/// A character of one byte stands between two boundaries.
pub proof fn lemma_ascii_boundary(bytes: Seq<u8>, at: int)
    requires
        valid_utf8(bytes),
        0 <= at < bytes.len(),
        bytes[at] < 0x80,
    ensures
        boundary(bytes, at),
        boundary(bytes, at + 1),
{
    lemma_boundary(bytes, at);
    valid_utf8_split(bytes, at);
    let tail = bytes.subrange(at, bytes.len() as int);
    assert(tail[0] == bytes[at]);
    let rest = pop_first_scalar(tail);
    if rest.len() > 0 {
        lemma_first_byte(rest);
        assert(rest[0] == bytes[at + 1]);
    }
}

/// What lies between two boundaries is text of its own.
pub proof fn lemma_slice_valid(bytes: Seq<u8>, from: int, to: int)
    requires
        valid_utf8(bytes),
        boundary(bytes, from),
        boundary(bytes, to),
        from <= to,
    ensures
        valid_utf8(bytes.subrange(from, to)),
{
    lemma_boundary(bytes, to);
    valid_utf8_split(bytes, to);
    let head = bytes.subrange(0, to);
    lemma_boundary(head, from);
    valid_utf8_split(head, from);
    assert(head.subrange(from, head.len() as int) =~= bytes.subrange(from, to));
}

/// The bytes of a `str` are valid UTF-8, and its characters are what they decode to.
pub proof fn lemma_str(s: &str)
    ensures
        valid_utf8(s.spec_bytes()),
        decode_utf8(s.spec_bytes()) == s@,
{
    encode_utf8_valid_utf8(s@);
    encode_utf8_decode_utf8(s@);
}

/// Encoding one text after another encodes them together.
pub proof fn lemma_encode_concat(a: Seq<char>, c: Seq<char>)
    ensures
        encode_utf8(a + c) == encode_utf8(a) + encode_utf8(c),
    decreases a.len(),
{
    if a.len() == 0 {
        assert(a + c =~= c);
        assert(encode_utf8(a) + encode_utf8(c) =~= encode_utf8(c));
    } else {
        assert((a + c).drop_first() =~= a.drop_first() + c);
        lemma_encode_concat(a.drop_first(), c);
        assert(encode_utf8(a + c) =~= encode_utf8(a) + encode_utf8(c));
    }
}

/// Text between two boundaries encodes back to the bytes it was cut from.
pub proof fn lemma_part_encodes(bytes: Seq<u8>, from: int, to: int)
    requires
        valid_utf8(bytes),
        boundary(bytes, from),
        boundary(bytes, to),
        from <= to,
    ensures
        encode_utf8(decode_utf8(bytes.subrange(from, to))) == bytes.subrange(from, to),
{
    lemma_slice_valid(bytes, from, to);
    decode_utf8_encode_utf8(bytes.subrange(from, to));
}

/// Where two texts join, a character begins.
pub proof fn lemma_join_boundary(a: Seq<u8>, c: Seq<u8>)
    requires
        valid_utf8(c),
    ensures
        boundary(a + c, a.len() as int),
{
    if c.len() > 0 {
        lemma_first_byte(c);
        assert((a + c)[a.len() as int] == c[0]);
    }
}

/// A character takes at least one byte.
pub proof fn lemma_char_count(chars: Seq<char>)
    ensures
        chars.len() <= encode_utf8(chars).len(),
    decreases chars.len(),
{
    if chars.len() > 0 {
        lemma_char_count(chars.drop_first());
        encode_utf8_first_scalar(chars);
    }
}

/// `&s[from..to]`.
pub fn slice<'a>(s: &'a str, from: usize, to: usize) -> (r: &'a str)
    requires
        from <= to,
        boundary(s.spec_bytes(), from as int),
        boundary(s.spec_bytes(), to as int),
    ensures
        r.spec_bytes() == s.spec_bytes().subrange(from as int, to as int),
{
    let ghost b = s.spec_bytes();
    proof {
        lemma_str(s);
        lemma_boundary(b, to as int);
    }
    let (head, _tail) = s.split_at(to);
    proof {
        lemma_str(head);
        assert(boundary(head.spec_bytes(), from as int));
        lemma_boundary(head.spec_bytes(), from as int);
    }
    let (_skip, r) = head.split_at(from);
    assert(r.spec_bytes() =~= b.subrange(from as int, to as int));
    r
}

/// Whether Unicode counts `c` as alphanumeric, as [`char::is_alphanumeric`] answers it.
pub uninterp spec fn char_alphanumeric(c: char) -> bool;

/// [`char::is_alphanumeric`]: a property of the character alone, read from Unicode's tables.
pub assume_specification[ char::is_alphanumeric ](c: char) -> (r: bool)
    ensures
        r == char_alphanumeric(c),
;

/// Whether Unicode gives `c` the property White_Space.
pub open spec fn char_whitespace(c: char) -> bool {
    let n = c as u32;
    ||| 0x09 <= n <= 0x0d
    ||| n == 0x20
    ||| n == 0x85
    ||| n == 0xa0
    ||| n == 0x1680
    ||| 0x2000 <= n <= 0x200a
    ||| n == 0x2028
    ||| n == 0x2029
    ||| n == 0x202f
    ||| n == 0x205f
    ||| n == 0x3000
}

/// [`char::is_whitespace`]: whether the character has the property White_Space.
pub assume_specification[ char::is_whitespace ](c: char) -> (r: bool)
    ensures
        r == char_whitespace(c),
;

/// `chars` without the white space it begins with.
pub open spec fn trimmed_start(chars: Seq<char>) -> Seq<char>
    decreases chars.len(),
{
    if chars.len() > 0 && char_whitespace(chars[0]) {
        trimmed_start(chars.skip(1))
    } else {
        chars
    }
}

/// `chars` without the white space it ends with.
pub open spec fn trimmed_end(chars: Seq<char>) -> Seq<char>
    decreases chars.len(),
{
    if chars.len() > 0 && char_whitespace(chars.last()) {
        trimmed_end(chars.drop_last())
    } else {
        chars
    }
}

/// `chars` without the white space around it.
pub open spec fn trimmed(chars: Seq<char>) -> Seq<char> {
    trimmed_end(trimmed_start(chars))
}

/// [`str::trim`]: the text without leading and trailing white space.
pub assume_specification[ str::trim ](s: &str) -> (r: &str)
    ensures
        r@ == trimmed(s@),
;

/// The character that ends at byte offset `at`, if there is one.
pub open spec fn char_before(bytes: Seq<u8>, at: int) -> Option<char> {
    let chars = decode_utf8(bytes.subrange(0, at));
    if chars.len() > 0 {
        Some(chars.last())
    } else {
        None
    }
}

/// The character that begins at byte offset `at`, if there is one.
pub open spec fn char_at(bytes: Seq<u8>, at: int) -> Option<char> {
    let chars = decode_utf8(bytes.subrange(at, bytes.len() as int));
    if chars.len() > 0 {
        Some(chars[0])
    } else {
        None
    }
}

/// Text of which only the first byte begins a character is one character long.
proof fn lemma_single_char(bytes: Seq<u8>)
    requires
        valid_utf8(bytes),
        bytes.len() > 0,
        forall|k: int| 0 < k < bytes.len() ==> is_continuation_byte(#[trigger] bytes[k]),
    ensures
        decode_utf8(bytes).len() == 1,
{
    let rest = pop_first_scalar(bytes);
    if rest.len() > 0 {
        lemma_first_byte(rest);
        assert(rest[0] == bytes[length_of_first_scalar(bytes)]);
    }
    assert(rest.len() == 0);
    assert(decode_utf8(rest).len() == 0);
}

/// The first character of `s`.
pub fn first_char(s: &str) -> (r: Option<char>)
    ensures
        r == (if s@.len() > 0 {
            Some(s@[0])
        } else {
            None
        }),
{
    let mut chars = s.chars();
    chars.next()
}

/// The last character of `s`.
pub fn last_char(s: &str) -> (r: Option<char>)
    ensures
        r == (if s@.len() > 0 {
            Some(s@.last())
        } else {
            None
        }),
{
    let ghost b = s.spec_bytes();
    proof {
        lemma_str(s);
    }
    let n: usize = s.as_bytes().len();
    if n == 0 {
        return None;
    }
    let bytes = s.as_bytes();
    let mut at: usize = n - 1;
    while at > 0 && bytes[at] >= 0x80 && bytes[at] <= 0xbf
        invariant
            bytes@ == b,
            n == b.len(),
            at < n,
            forall|k: int| at < k < n ==> is_continuation_byte(#[trigger] b[k]),
        decreases at,
    {
        at = at - 1;
    }
    proof {
        lemma_first_byte(b);
        assert(boundary(b, at as int));
        lemma_boundary(b, at as int);
        decode_utf8_split(b, at as int);
    }
    let (_head, tail) = s.split_at(at);
    proof {
        lemma_str(tail);
        lemma_single_char(tail.spec_bytes());
    }
    first_char(tail)
}

/// [`String::push`]: the character goes to the end.
pub assume_specification[ String::push ](s: &mut String, c: char)
    ensures
        final(s)@ == old(s)@.push(c),
;

/// [`String::push_str`]: the text goes to the end.
pub assume_specification[ String::push_str ](s: &mut String, t: &str)
    ensures
        final(s)@ == old(s)@ + t@,
;

/// The decimal digit `d`.
pub open spec fn digit_char(d: int) -> char {
    (48 + d) as char
}

/// `n` in decimal, without leading zeros.
pub open spec fn decimal_chars(n: nat) -> Seq<char>
    decreases n,
{
    if n < 10 {
        seq![digit_char(n as int)]
    } else {
        decimal_chars(n / 10).push(digit_char((n % 10) as int))
    }
}

/// `n` in decimal.
pub fn decimal(n: u64) -> (r: String)
    ensures
        r@ == decimal_chars(n as nat),
    decreases n,
{
    let mut out = if n < 10 {
        String::new()
    } else {
        decimal(n / 10)
    };
    let d: u8 = 48 + (n % 10) as u8;
    out.push(d as char);
    proof {
        if n < 10 {
            assert(out@ =~= decimal_chars(n as nat));
        }
    }
    out
}

/// What [`str::to_lowercase`] makes of a text.
pub uninterp spec fn lowered(chars: Seq<char>) -> Seq<char>;

/// [`str::to_lowercase`]: the text in lower case, which depends on the text alone.
pub assume_specification[ str::to_lowercase ](s: &str) -> (r: String)
    ensures
        r@ == lowered(s@),
;

/// The characters of a text.
pub fn chars(s: &str) -> (r: Vec<char>)
    ensures
        r@ == s@,
{
    let mut out: Vec<char> = Vec::new();
    let ghost all = s@;
    for c in it: s.chars()
        invariant
            it.seq() == all,
            out@ == all.take(it.index()),
    {
        out.push(c);
    }
    assert(all.take(all.len() as int) =~= all);
    out
}

/// Whether `chars` are the characters of `word`.
pub fn spells(chars: &Vec<char>, word: &str) -> (r: bool)
    ensures
        r == (chars@ == word@),
{
    let w = self::chars(word);
    if chars.len() != w.len() {
        return false;
    }
    let n: usize = w.len();
    let mut i: usize = 0;
    while i < n
        invariant
            i <= n,
            n == w@.len(),
            n == chars@.len(),
            w@ == word@,
            forall|j: int| 0 <= j < i ==> #[trigger] chars@[j] == w@[j],
        decreases n - i,
    {
        if chars[i] != w[i] {
            return false;
        }
        i = i + 1;
    }
    assert(chars@ =~= w@);
    true
}

/// The text of some of `chars`.
pub fn join(chars: &Vec<char>, from: usize, to: usize) -> (r: String)
    requires
        from <= to <= chars@.len(),
    ensures
        r@ == chars@.subrange(from as int, to as int),
{
    let mut out = String::new();
    let mut i: usize = from;
    while i < to
        invariant
            from <= i <= to <= chars@.len(),
            out@ == chars@.subrange(from as int, i as int),
        decreases to - i,
    {
        out.push(chars[i]);
        assert(chars@.subrange(from as int, i as int).push(chars@[i as int]) =~= chars@.subrange(
            from as int,
            i + 1,
        ));
        i = i + 1;
    }
    out
}

/// `part` occurs in `whole` at `at`.
pub open spec fn occurs_at(whole: Seq<char>, part: Seq<char>, at: int) -> bool {
    0 <= at && at + part.len() <= whole.len() && whole.subrange(at, at + part.len()) == part
}

/// `part` occurs in `whole`.
pub open spec fn occurs(whole: Seq<char>, part: Seq<char>) -> bool {
    exists|at: int| #[trigger] occurs_at(whole, part, at)
}

/// Whether `part` occurs in `whole`.
pub fn has_part(whole: &Vec<char>, part: &Vec<char>) -> (r: bool)
    ensures
        r == occurs(whole@, part@),
{
    let n: usize = whole.len();
    let mut at: usize = 0;
    while at <= n && part.len() <= n - at
        invariant
            n == whole@.len(),
            at <= n + 1,
            forall|k: int| 0 <= k < at ==> !#[trigger] occurs_at(whole@, part@, k),
        decreases whole@.len() + 1 - at,
    {
        let mut k: usize = 0;
        while k < part.len() && whole[at + k] == part[k]
            invariant
                n == whole@.len(),
                at + part@.len() <= n,
                k <= part@.len(),
                forall|m: int| 0 <= m < k ==> whole@[at + m] == #[trigger] part@[m],
            decreases part@.len() - k,
        {
            k = k + 1;
        }
        if k == part.len() {
            proof {
                assert(whole@.subrange(at as int, at + part@.len()) =~= part@);
                assert(occurs_at(whole@, part@, at as int));
            }
            return true;
        }
        proof {
            assert(whole@.subrange(at as int, at + part@.len())[k as int] == whole@[at + k]);
            assert(!occurs_at(whole@, part@, at as int));
        }
        if at == n {
            assert(forall|k: int| k > n ==> !#[trigger] occurs_at(whole@, part@, k));
            return false;
        }
        at = at + 1;
    }
    false
}

/// The index of the first line feed from `from` on, or the end.
pub open spec fn line_feed(chars: Seq<char>) -> int
    decreases chars.len(),
{
    if chars.len() == 0 || chars[0] == '\n' {
        0
    } else {
        1 + line_feed(chars.skip(1))
    }
}

/// The lines of a text: a line feed ends each, with a carriage return before it or
/// without, and the last need not be ended.
pub open spec fn lines_of(chars: Seq<char>) -> Seq<Seq<char>>
    decreases chars.len(),
{
    if chars.len() == 0 {
        seq![]
    } else {
        let k = line_feed(chars);
        if 0 <= k < chars.len() {
            let line = chars.take(k);
            seq![
                if k > 0 && line.last() == '\r' {
                    line.drop_last()
                } else {
                    line
                },
            ] + lines_of(chars.skip(k + 1))
        } else {
            seq![chars]
        }
    }
}

proof fn lemma_line_feed(chars: Seq<char>)
    ensures
        0 <= line_feed(chars) <= chars.len(),
        forall|i: int| 0 <= i < line_feed(chars) ==> #[trigger] chars[i] != '\n',
        line_feed(chars) < chars.len() ==> chars[line_feed(chars)] == '\n',
    decreases chars.len(),
{
    if chars.len() > 0 && chars[0] != '\n' {
        let rest = chars.skip(1);
        lemma_line_feed(rest);
        assert forall|i: int| 0 <= i < line_feed(chars) implies #[trigger] chars[i] != '\n' by {
            if i > 0 {
                assert(rest[i - 1] == chars[i]);
            }
        }
        if line_feed(chars) < chars.len() {
            assert(rest[line_feed(rest)] == chars[line_feed(chars)]);
        }
    }
}

/// A line feed with none before it is the first.
proof fn lemma_line_feed_at(chars: Seq<char>, k: int)
    requires
        0 <= k <= chars.len(),
        forall|i: int| 0 <= i < k ==> #[trigger] chars[i] != '\n',
        k < chars.len() ==> chars[k] == '\n',
    ensures
        line_feed(chars) == k,
{
    lemma_line_feed(chars);
    let m = line_feed(chars);
    if m < k {
        assert(chars[m] != '\n');
    } else if k < m {
        assert(chars[k] != '\n');
    }
}

/// Where each line of a text begins and ends.
pub fn lines(chars: &Vec<char>) -> (r: Vec<(usize, usize)>)
    ensures
        r@.len() == lines_of(chars@).len(),
        forall|i: int|
            0 <= i < r@.len() ==> {
                let (from, to) = #[trigger] r@[i];
                from <= to <= chars@.len() && chars@.subrange(from as int, to as int) == lines_of(
                    chars@,
                )[i]
            },
{
    let mut out: Vec<(usize, usize)> = Vec::new();
    let mut at: usize = 0;
    assert(chars@.skip(0) =~= chars@);
    while at < chars.len()
        invariant
            at <= chars@.len(),
            out@.len() + lines_of(chars@.skip(at as int)).len() == lines_of(chars@).len(),
            forall|i: int|
                0 <= i < out@.len() ==> {
                    let (from, to) = #[trigger] out@[i];
                    from <= to <= chars@.len() && chars@.subrange(from as int, to as int)
                        == lines_of(chars@)[i]
                },
            forall|i: int|
                0 <= i < lines_of(chars@.skip(at as int)).len() ==> #[trigger] lines_of(
                    chars@.skip(at as int),
                )[i] == lines_of(chars@)[out@.len() + i],
        decreases chars@.len() - at,
    {
        let ghost rest = chars@.skip(at as int);
        let mut end: usize = at;
        while end < chars.len() && chars[end] != '\n'
            invariant
                at <= end <= chars@.len(),
                forall|i: int| at <= i < end ==> #[trigger] chars@[i] != '\n',
            decreases chars@.len() - end,
        {
            end = end + 1;
        }
        proof {
            lemma_line_feed_at(rest, end - at);
        }
        let stop: usize = if end < chars.len() && end > at && chars[end - 1] == '\r' {
            end - 1
        } else {
            end
        };
        let ghost was = out@;
        out.push((at, stop));
        proof {
            let k = end - at;
            assert(lines_of(rest)[0] == lines_of(chars@)[was.len() as int]);
            if end < chars@.len() {
                let line = rest.take(k);
                let first = if k > 0 && line.last() == '\r' {
                    line.drop_last()
                } else {
                    line
                };
                assert(chars@.subrange(at as int, stop as int) =~= first);
                assert(lines_of(rest) =~= seq![first] + lines_of(rest.skip(k + 1)));
                assert(rest.skip(k + 1) =~= chars@.skip(end + 1));
                assert forall|i: int| 0 <= i < lines_of(chars@.skip(end + 1)).len() implies #[trigger] lines_of(
                    chars@.skip(end + 1),
                )[i] == lines_of(chars@)[was.len() + 1 + i] by {
                    assert(lines_of(rest)[i + 1] == lines_of(chars@)[was.len() + (i + 1)]);
                }
            } else {
                assert(chars@.subrange(at as int, stop as int) =~= rest);
                assert(lines_of(rest) =~= seq![rest]);
                assert(chars@.skip(chars@.len() as int) =~= Seq::<char>::empty());
            }
        }
        at = if end < chars.len() {
            end + 1
        } else {
            end
        };
    }
    out
}

/// A text cut at its line feeds: one more row than there are line feeds.
pub open spec fn rows_of(chars: Seq<char>) -> Seq<Seq<char>>
    decreases chars.len(),
{
    let k = line_feed(chars);
    if 0 <= k < chars.len() {
        seq![chars.take(k)] + rows_of(chars.skip(k + 1))
    } else {
        seq![chars]
    }
}

/// A row holds no line feed, and a text has one row at least.
pub proof fn lemma_rows(chars: Seq<char>)
    ensures
        rows_of(chars).len() >= 1,
        forall|i: int| 0 <= i < rows_of(chars).len() ==> !(#[trigger] rows_of(chars)[i]).contains('\n'),
    decreases chars.len(),
{
    lemma_line_feed(chars);
    let k = line_feed(chars);
    if k < chars.len() {
        let rest = chars.skip(k + 1);
        lemma_rows(rest);
        assert forall|i: int| 0 <= i < rows_of(chars).len() implies !(
        #[trigger] rows_of(chars)[i]).contains('\n') by {
            if i > 0 {
                assert(rows_of(chars)[i] == rows_of(rest)[i - 1]);
            }
        }
    } else {
        assert(!chars.contains('\n'));
    }
}

/// Where each row of a text begins and ends.
pub fn rows(chars: &Vec<char>) -> (r: Vec<(usize, usize)>)
    ensures
        r@.len() == rows_of(chars@).len(),
        forall|i: int|
            0 <= i < r@.len() ==> {
                let (from, to) = #[trigger] r@[i];
                from <= to <= chars@.len() && chars@.subrange(from as int, to as int) == rows_of(
                    chars@,
                )[i]
            },
{
    let n: usize = chars.len();
    let mut out: Vec<(usize, usize)> = Vec::new();
    let mut at: usize = 0;
    let mut end: usize = 0;
    let mut more = true;
    assert(chars@.skip(0) =~= chars@);
    while more
        invariant
            n == chars@.len(),
            at <= end <= n,
            forall|i: int| at <= i < end ==> #[trigger] chars@[i] != '\n',
            forall|i: int|
                0 <= i < out@.len() ==> {
                    let (from, to) = #[trigger] out@[i];
                    from <= to <= chars@.len() && chars@.subrange(from as int, to as int)
                        == rows_of(chars@)[i]
                },
            more ==> out@.len() + rows_of(chars@.skip(at as int)).len() == rows_of(chars@).len(),
            more ==> forall|i: int|
                0 <= i < rows_of(chars@.skip(at as int)).len() ==> #[trigger] rows_of(
                    chars@.skip(at as int),
                )[i] == rows_of(chars@)[out@.len() + i],
            !more ==> out@.len() == rows_of(chars@).len(),
        decreases
            n - end,
            (if more {
                1int
            } else {
                0int
            }),
    {
        if end < n && chars[end] != '\n' {
            end = end + 1;
        } else {
            let ghost rest = chars@.skip(at as int);
            let ghost k = end - at;
            proof {
                lemma_line_feed_at(rest, k);
            }
            let ghost was = out@;
            out.push((at, end));
            assert(chars@.subrange(at as int, end as int) =~= rest.take(k));
            assert(rows_of(rest)[0] == rows_of(chars@)[was.len() as int]);
            if end < n {
                proof {
                    assert(rest.skip(k + 1) =~= chars@.skip(end + 1));
                    assert(rows_of(rest) =~= seq![rest.take(k)] + rows_of(chars@.skip(end + 1)));
                    assert forall|i: int| 0 <= i < rows_of(chars@.skip(end + 1)).len() implies #[trigger] rows_of(
                        chars@.skip(end + 1),
                    )[i] == rows_of(chars@)[was.len() + 1 + i] by {
                        assert(rows_of(rest)[i + 1] == rows_of(chars@)[was.len() + (i + 1)]);
                    }
                }
                end = end + 1;
                at = end;
            } else {
                assert(rest.take(k) =~= rest);
                assert(rows_of(rest) =~= seq![rest]);
                more = false;
            }
        }
    }
    out
}

/// Where the text between `from` and `to` begins once it is without leading white
/// space.
pub fn trim_start(chars: &Vec<char>, from: usize, to: usize) -> (r: usize)
    requires
        from <= to <= chars@.len(),
    ensures
        from <= r <= to,
        chars@.subrange(r as int, to as int) == trimmed_start(
            chars@.subrange(from as int, to as int),
        ),
{
    let mut i: usize = from;
    while i < to && chars[i].is_whitespace()
        invariant
            from <= i <= to <= chars@.len(),
            trimmed_start(chars@.subrange(i as int, to as int)) == trimmed_start(
                chars@.subrange(from as int, to as int),
            ),
        decreases to - i,
    {
        assert(chars@.subrange(i as int, to as int).skip(1) =~= chars@.subrange(i + 1, to as int));
        i = i + 1;
    }
    i
}

/// Where the text between `from` and `to` ends once it is without trailing white
/// space.
pub fn trim_end(chars: &Vec<char>, from: usize, to: usize) -> (r: usize)
    requires
        from <= to <= chars@.len(),
    ensures
        from <= r <= to,
        chars@.subrange(from as int, r as int) == trimmed_end(
            chars@.subrange(from as int, to as int),
        ),
{
    let mut i: usize = to;
    while i > from && chars[i - 1].is_whitespace()
        invariant
            from <= i <= to <= chars@.len(),
            trimmed_end(chars@.subrange(from as int, i as int)) == trimmed_end(
                chars@.subrange(from as int, to as int),
            ),
        decreases i - from,
    {
        assert(chars@.subrange(from as int, i as int).drop_last() =~= chars@.subrange(
            from as int,
            i - 1,
        ));
        i = i - 1;
    }
    i
}

/// A text has no more lines than characters.
pub proof fn lemma_few_lines(chars: Seq<char>)
    ensures
        lines_of(chars).len() <= chars.len(),
    decreases chars.len(),
{
    if chars.len() > 0 {
        let k = line_feed(chars);
        if 0 <= k < chars.len() {
            lemma_few_lines(chars.skip(k + 1));
        }
    }
}

/// A line that is ended, then the rest.
pub proof fn lemma_line_then(line: Seq<char>, rest: Seq<char>)
    requires
        forall|i: int| 0 <= i < line.len() ==> #[trigger] line[i] != '\n',
        line.len() > 0 ==> line.last() != '\r',
    ensures
        lines_of(line + seq!['\n'] + rest) == seq![line] + lines_of(rest),
{
    let s = line + seq!['\n'] + rest;
    let k = line.len() as int;
    assert forall|i: int| 0 <= i < k implies #[trigger] s[i] != '\n' by {
        assert(s[i] == line[i]);
    }
    lemma_line_feed_at(s, k);
    assert(s.take(k) =~= line);
    assert(s.skip(k + 1) =~= rest);
}

/// Text that does not begin with white space is left as it is.
pub proof fn lemma_trim_start_none(s: Seq<char>)
    requires
        s.len() > 0 ==> !char_whitespace(s[0]),
    ensures
        trimmed_start(s) == s,
{
}

/// Leading white space goes.
pub proof fn lemma_trim_start_some(lead: Seq<char>, s: Seq<char>)
    requires
        forall|i: int| 0 <= i < lead.len() ==> char_whitespace(#[trigger] lead[i]),
        s.len() > 0 ==> !char_whitespace(s[0]),
    ensures
        trimmed_start(lead + s) == s,
    decreases lead.len(),
{
    if lead.len() == 0 {
        assert(lead + s =~= s);
    } else {
        let t = lead + s;
        assert(t[0] == lead[0]);
        assert(t.skip(1) =~= lead.skip(1) + s);
        assert forall|i: int| 0 <= i < lead.skip(1).len() implies char_whitespace(
            #[trigger] lead.skip(1)[i],
        ) by {
            assert(lead.skip(1)[i] == lead[i + 1]);
        }
        lemma_trim_start_some(lead.skip(1), s);
    }
}

/// A text that trimming leaves as it is neither begins nor ends with white space.
pub proof fn lemma_trimmed_ends(s: Seq<char>)
    requires
        trimmed(s) == s,
    ensures
        s.len() > 0 ==> !char_whitespace(s[0]) && !char_whitespace(s.last()),
{
    if s.len() > 0 {
        lemma_trim_shrinks(s);
        lemma_trim_end_shrinks(trimmed_start(s));
        if char_whitespace(s[0]) {
            lemma_trim_shrinks(s.skip(1));
        } else if char_whitespace(s.last()) {
            lemma_trim_end_shrinks(s.drop_last());
        }
    }
}

proof fn lemma_trim_shrinks(s: Seq<char>)
    ensures
        trimmed_start(s).len() <= s.len(),
    decreases s.len(),
{
    if s.len() > 0 && char_whitespace(s[0]) {
        lemma_trim_shrinks(s.skip(1));
    }
}

proof fn lemma_trim_end_shrinks(s: Seq<char>)
    ensures
        trimmed_end(s).len() <= s.len(),
    decreases s.len(),
{
    if s.len() > 0 && char_whitespace(s.last()) {
        lemma_trim_end_shrinks(s.drop_last());
    }
}

/// No line feed in a text.
pub open spec fn one_line(t: Seq<char>) -> bool {
    forall|i: int| 0 <= i < t.len() ==> #[trigger] t[i] != '\n'
}

pub proof fn lemma_one_line_skip(t: Seq<char>, k: int)
    requires
        one_line(t),
        0 <= k <= t.len(),
    ensures
        one_line(t.skip(k)),
        one_line(t.take(k)),
{
    assert forall|i: int| 0 <= i < t.skip(k).len() implies #[trigger] t.skip(k)[i] != '\n' by {
        assert(t.skip(k)[i] == t[i + k]);
    }
}

proof fn lemma_one_line_start(t: Seq<char>)
    requires
        one_line(t),
    ensures
        one_line(trimmed_start(t)),
        trimmed_start(t).len() > 0 ==> !char_whitespace(trimmed_start(t)[0]),
    decreases t.len(),
{
    if t.len() > 0 && char_whitespace(t[0]) {
        lemma_one_line_skip(t, 1);
        lemma_one_line_start(t.skip(1));
    }
}

proof fn lemma_one_line_end(t: Seq<char>)
    requires
        one_line(t),
    ensures
        one_line(trimmed_end(t)),
        trimmed_end(t).len() > 0 ==> !char_whitespace(trimmed_end(t).last()) && trimmed_end(t)[0]
            == t[0],
    decreases t.len(),
{
    if t.len() > 0 && char_whitespace(t.last()) {
        lemma_one_line_skip(t, t.len() - 1);
        assert(t.drop_last() =~= t.take(t.len() - 1));
        lemma_one_line_end(t.drop_last());
    }
}

/// What was trimmed has no white space around it, and stays one line.
pub proof fn lemma_trimmed_line(t: Seq<char>)
    requires
        one_line(t),
    ensures
        one_line(trimmed(t)),
        one_line(trimmed_start(t)),
        trimmed(trimmed(t)) == trimmed(t),
{
    lemma_one_line_start(t);
    lemma_one_line_end(trimmed_start(t));
}

/// Every line of a text is one line.
pub proof fn lemma_lines_are_lines(chars: Seq<char>)
    ensures
        forall|i: int| 0 <= i < lines_of(chars).len() ==> one_line(#[trigger] lines_of(chars)[i]),
    decreases chars.len(),
{
    if chars.len() > 0 {
        lemma_line_feed(chars);
        let k = line_feed(chars);
        let all = lines_of(chars);
        if k < chars.len() {
            let line = chars.take(k);
            let rest = lines_of(chars.skip(k + 1));
            lemma_lines_are_lines(chars.skip(k + 1));
            assert forall|i: int| 0 <= i < all.len() implies one_line(#[trigger] all[i]) by {
                if i > 0 {
                    assert(all[i] == rest[i - 1]);
                }
            }
        }
    }
}

proof fn lemma_trim_end_some(s: Seq<char>, tail: Seq<char>)
    requires
        forall|i: int| 0 <= i < tail.len() ==> char_whitespace(#[trigger] tail[i]),
        s.len() > 0 ==> !char_whitespace(s.last()),
    ensures
        trimmed_end(s + tail) == s,
    decreases tail.len(),
{
    if tail.len() == 0 {
        assert(s + tail =~= s);
    } else {
        assert((s + tail).last() == tail.last());
        assert((s + tail).drop_last() =~= s + tail.drop_last());
        lemma_trim_end_some(s, tail.drop_last());
    }
}

/// Trimming takes the white space around a text, all of it, and nothing else.
pub proof fn trimming_takes_what_is_around(lead: Seq<char>, core: Seq<char>, tail: Seq<char>)
    requires
        forall|i: int| 0 <= i < lead.len() ==> char_whitespace(#[trigger] lead[i]),
        forall|i: int| 0 <= i < tail.len() ==> char_whitespace(#[trigger] tail[i]),
        core.len() > 0 ==> !char_whitespace(core[0]) && !char_whitespace(core.last()),
    ensures
        trimmed(lead + core + tail) == core,
        core.len() > 0 ==> trimmed_start(lead + core + tail) == core + tail,
{
    if core.len() > 0 {
        assert(lead + core + tail =~= lead + (core + tail));
        lemma_trim_start_some(lead, core + tail);
        lemma_trim_end_some(core, tail);
    } else {
        let all = lead + tail;
        assert(lead + core + tail =~= all);
        assert forall|i: int| 0 <= i < all.len() implies char_whitespace(#[trigger] all[i]) by {
            if i >= lead.len() {
                assert(all[i] == tail[i - lead.len()]);
            }
        }
        lemma_trim_start_some(all, seq![]);
        assert(all + Seq::<char>::empty() =~= all);
    }
}

/// A line ends at a line feed, with a carriage return before it or without, and
/// what comes after is read on its own. A last line need not be ended.
pub proof fn a_line_ends_at_a_feed(line: Seq<char>, rest: Seq<char>)
    requires
        !line.contains('\n'),
    ensures
        line.len() > 0 ==> lines_of(line) == seq![line],
        lines_of(line + seq!['\r', '\n'] + rest) == seq![line] + lines_of(rest),
        line.len() > 0 && line.last() == '\r' || lines_of(line + seq!['\n'] + rest) == seq![line]
            + lines_of(rest),
        lines_of(Seq::<char>::empty()).len() == 0,
{
    assert forall|i: int| 0 <= i < line.len() implies #[trigger] line[i] != '\n' by {}
    lemma_line_feed_at(line, line.len() as int);
    if line.len() == 0 || line.last() != '\r' {
        lemma_line_then(line, rest);
    }
    let s = line + seq!['\r', '\n'] + rest;
    let k: int = line.len() + 1int;
    assert forall|i: int| 0 <= i < k implies #[trigger] s[i] != '\n' by {
        if i < line.len() {
            assert(s[i] == line[i]);
        }
    }
    lemma_line_feed_at(s, k);
    assert(s.take(k).last() == '\r');
    assert(s.take(k).drop_last() =~= line);
    assert(s.skip(k + 1) =~= rest);
}

/// A text is cut at every line feed, and nowhere else.
pub proof fn a_row_ends_at_a_feed(row: Seq<char>, rest: Seq<char>)
    requires
        !row.contains('\n'),
    ensures
        rows_of(row) == seq![row],
        rows_of(row + seq!['\n'] + rest) == seq![row] + rows_of(rest),
{
    assert forall|i: int| 0 <= i < row.len() implies #[trigger] row[i] != '\n' by {}
    lemma_line_feed_at(row, row.len() as int);
    let s = row + seq!['\n'] + rest;
    let k = row.len() as int;
    assert forall|i: int| 0 <= i < k implies #[trigger] s[i] != '\n' by {
        assert(s[i] == row[i]);
    }
    lemma_line_feed_at(s, k);
    assert(s.take(k) =~= row);
    assert(s.skip(k + 1) =~= rest);
}

/// A number is written digit by digit, the last digit last, and none in front that is
/// not needed.
pub proof fn a_number_is_its_digits(n: nat, d: nat)
    requires
        d < 10,
    ensures
        n > 0 ==> decimal_chars(10 * n + d) == decimal_chars(n).push("0123456789"@[d as int]),
        decimal_chars(d) == seq!["0123456789"@[d as int]],
{
    reveal_strlit("0123456789");
    assert((10 * n + d) / 10 == n);
    assert((10 * n + d) % 10 == d);
    assert(digit_char(d as int) == "0123456789"@[d as int]);
    assert(decimal_chars(d) =~= seq!["0123456789"@[d as int]]);
}

} // verus!
