//! Caret arithmetic over Unicode text. Byte offsets in, byte offsets out; every
//! boundary comes from `unicode-segmentation` rather than from guessing which
//! scalar values glue to which.

pub mod laws;

use unicode_segmentation::UnicodeSegmentation;
use vstd::prelude::*;
use vstd::utf8::*;
use vstd::string::StringSliceAdditionalSpecFns;
use crate::text;

verus! {

/// The offsets at which the extended grapheme clusters of a text begin, as
/// `UnicodeSegmentation::grapheme_indices` finds them from the front.
pub uninterp spec fn clusters(s: Seq<char>) -> Seq<usize>;

/// The offset at which the last extended grapheme cluster of a text begins, as
/// `UnicodeSegmentation::grapheme_indices` finds it from the back.
pub uninterp spec fn last_cluster(s: Seq<char>) -> Option<usize>;

/// The offsets at which the pieces between word boundaries begin, as
/// `UnicodeSegmentation::split_word_bound_indices` finds them from the front.
pub uninterp spec fn pieces(s: Seq<char>) -> Seq<usize>;

/// The same offsets as `UnicodeSegmentation::split_word_bound_indices` finds them
/// from the back, the last piece first.
pub uninterp spec fn pieces_back(s: Seq<char>) -> Seq<usize>;

/// `starts` cuts `b` into pieces, none of them empty, at character boundaries.
pub open spec fn cuts(starts: Seq<usize>, b: Seq<u8>) -> bool {
    &&& starts.len() == 0 <==> b.len() == 0
    &&& starts.len() > 0 ==> starts[0] == 0
    &&& forall|i: int| 0 <= i < starts.len() ==> #[trigger] starts[i] < b.len()
    &&& forall|i: int| 0 <= i < starts.len() ==> text::boundary(b, #[trigger] starts[i] as int)
    &&& forall|i: int, j: int|
        0 <= i < j < starts.len() ==> #[trigger] starts[i] < #[trigger] starts[j]
}

/// `starts` read backwards cuts `b` into pieces.
pub open spec fn cuts_back(starts: Seq<usize>, b: Seq<u8>) -> bool {
    &&& starts.len() == 0 <==> b.len() == 0
    &&& starts.len() > 0 ==> starts.last() == 0
    &&& forall|i: int| 0 <= i < starts.len() ==> #[trigger] starts[i] < b.len()
    &&& forall|i: int| 0 <= i < starts.len() ==> text::boundary(b, #[trigger] starts[i] as int)
    &&& forall|i: int, j: int|
        0 <= i < j < starts.len() ==> #[trigger] starts[i] > #[trigger] starts[j]
}

/// `UnicodeSegmentation::grapheme_indices`, collected: the offsets are a function
/// of the text, and the clusters follow one another from its start to its end.
#[verifier::external_body]
fn cluster_starts(s: &str) -> (r: Vec<usize>)
    ensures
        r@ == clusters(s@),
        cuts(r@, s.spec_bytes()),
{
    s.grapheme_indices(true).map(|(i, _)| i).collect()
}

/// `UnicodeSegmentation::grapheme_indices`, asked for its last item: the offset is
/// a function of the text, and there is one unless the text is empty.
#[verifier::external_body]
fn last_cluster_start(s: &str) -> (r: Option<usize>)
    ensures
        r == last_cluster(s@),
        r is None <==> s.spec_bytes().len() == 0,
        r matches Some(i) ==> i < s.spec_bytes().len() && text::boundary(s.spec_bytes(), i as int),
{
    s.grapheme_indices(true).next_back().map(|(i, _)| i)
}

/// `UnicodeSegmentation::split_word_bound_indices`, collected: the offsets are a
/// function of the text, and the pieces follow one another from its start to its
/// end.
#[verifier::external_body]
fn piece_starts(s: &str) -> (r: Vec<usize>)
    ensures
        r@ == pieces(s@),
        cuts(r@, s.spec_bytes()),
{
    s.split_word_bound_indices().map(|(i, _)| i).collect()
}

/// `UnicodeSegmentation::split_word_bound_indices`, collected from the back: the
/// offsets are a function of the text, and the pieces follow one another from its
/// end to its start.
#[verifier::external_body]
fn piece_starts_back(s: &str) -> (r: Vec<usize>)
    ensures
        r@ == pieces_back(s@),
        cuts_back(r@, s.spec_bytes()),
{
    s.split_word_bound_indices().rev().map(|(i, _)| i).collect()
}

// ---------------------------------------------------------------------------
// Clusters
// ---------------------------------------------------------------------------

/// The greatest of `starts` that is no greater than `at`; zero without one.
pub open spec fn start_at_or_before(starts: Seq<usize>, at: int) -> int
    decreases starts.len(),
{
    if starts.len() == 0 {
        0
    } else if starts.last() <= at {
        starts.last() as int
    } else {
        start_at_or_before(starts.drop_last(), at)
    }
}

/// The greatest of the ascending `starts` that is no greater than `at`.
pub fn start_in(starts: &Vec<usize>, at: usize) -> (r: usize)
    ensures
        r == start_at_or_before(starts@, at as int),
        r <= at,
        starts@.len() > 0 && starts@[0] == 0 ==> starts@.contains(r),
{
    let mut k: usize = starts.len();
    assert(starts@.take(starts@.len() as int) =~= starts@);
    while k > 0
        invariant
            k <= starts@.len(),
            start_at_or_before(starts@, at as int) == start_at_or_before(
                starts@.take(k as int),
                at as int,
            ),
            forall|m: int| k <= m < starts@.len() ==> #[trigger] starts@[m] > at,
        decreases k,
    {
        assert(starts@.take(k as int).last() == starts@[k - 1]);
        assert(starts@.take(k as int).drop_last() =~= starts@.take(k - 1));
        if starts[k - 1] <= at {
            assert(starts@.contains(starts@[k - 1]));
            return starts[k - 1];
        }
        k = k - 1;
    }
    0
}

/// Where the cluster that holds byte `at` begins.
pub open spec fn cluster_at_or_before(s: Seq<char>, at: int) -> int {
    let n = encode_utf8(s).len();
    start_at_or_before(
        clusters(s),
        if at < n {
            at
        } else {
            n as int
        },
    )
}

pub fn grapheme_start_at_or_before(s: &str, at: usize) -> (r: usize)
    ensures
        r == cluster_at_or_before(s@, at as int),
        r <= at,
        text::boundary(s.spec_bytes(), r as int),
{
    let n: usize = s.as_bytes().len();
    let starts = cluster_starts(s);
    proof {
        text::lemma_str(s);
        text::lemma_boundary(s.spec_bytes(), 0);
        is_char_boundary_start_end_of_seq(s.spec_bytes());
    }
    start_in(
        &starts,
        if at < n {
            at
        } else {
            n
        },
    )
}

/// The text before byte `at`.
pub open spec fn head(s: Seq<char>, at: int) -> Seq<char> {
    decode_utf8(encode_utf8(s).subrange(0, at))
}

/// The text from byte `at` on.
pub open spec fn tail(s: Seq<char>, at: int) -> Seq<char> {
    let b = encode_utf8(s);
    decode_utf8(b.subrange(at, b.len() as int))
}

/// The text before byte `at`, or all of it.
pub fn head_of<'a>(s: &'a str, at: usize) -> (r: &'a str)
    requires
        text::boundary(s.spec_bytes(), at as int),
    ensures
        r@ == head(s@, at as int),
        r.spec_bytes() == s.spec_bytes().subrange(0, at as int),
{
    proof {
        text::lemma_str(s);
        text::lemma_boundary(s.spec_bytes(), 0);
        is_char_boundary_start_end_of_seq(s.spec_bytes());
    }
    let r = text::slice(s, 0, at);
    proof {
        text::lemma_str(r);
    }
    r
}

/// The text from byte `at` on.
pub fn tail_of<'a>(s: &'a str, at: usize) -> (r: &'a str)
    requires
        text::boundary(s.spec_bytes(), at as int),
    ensures
        r@ == tail(s@, at as int),
        r.spec_bytes() == s.spec_bytes().subrange(at as int, s.spec_bytes().len() as int),
{
    let n: usize = s.as_bytes().len();
    proof {
        text::lemma_str(s);
    }
    let r = text::slice(s, at, n);
    proof {
        text::lemma_str(r);
    }
    r
}

/// Where the cluster that ends at `at` begins.
pub fn grapheme_start_before(s: &str, at: usize) -> (r: Option<usize>)
    requires
        text::boundary(s.spec_bytes(), at as int),
    ensures
        r == last_cluster(head(s@, at as int)),
        r is None <==> at == 0,
        r matches Some(i) ==> i < at && text::boundary(s.spec_bytes(), i as int),
{
    let h = head_of(s, at);
    let r = last_cluster_start(h);
    proof {
        if let Some(i) = r {
            assert(h.spec_bytes()[i as int] == s.spec_bytes()[i as int]);
        }
    }
    r
}

/// How long the first piece of a text of `n` bytes is, when its pieces begin at
/// `starts`.
pub open spec fn first_piece(starts: Seq<usize>, n: int) -> Option<int> {
    if starts.len() == 0 {
        None
    } else if starts.len() == 1 {
        Some(n)
    } else {
        Some(starts[1] as int)
    }
}

/// Where the cluster that begins at `at` ends.
pub open spec fn cluster_end(s: Seq<char>, at: int) -> Option<int> {
    match first_piece(clusters(tail(s, at)), encode_utf8(s).len() - at) {
        Some(n) => Some(at + n),
        None => None,
    }
}

pub fn grapheme_end_after(s: &str, at: usize) -> (r: Option<usize>)
    requires
        text::boundary(s.spec_bytes(), at as int),
    ensures
        cluster_end(s@, at as int) == (match r {
            Some(e) => Some(e as int),
            None => None,
        }),
        r is None <==> at == s.spec_bytes().len(),
        r matches Some(e) ==> at < e <= s.spec_bytes().len() && text::boundary(
            s.spec_bytes(),
            e as int,
        ),
{
    let n: usize = s.as_bytes().len();
    let t = tail_of(s, at);
    let starts = cluster_starts(t);
    proof {
        assert(t.spec_bytes().len() == n - at);
    }
    if starts.len() == 0 {
        None
    } else if starts.len() == 1 {
        Some(n)
    } else {
        proof {
            assert(starts@[0] < starts@[1]);
            assert(t.spec_bytes()[starts@[1] as int] == s.spec_bytes()[at + starts@[1]]);
        }
        Some(at + starts[1])
    }
}

// ---------------------------------------------------------------------------
// Words
// ---------------------------------------------------------------------------

/// A piece that holds something other than white space.
pub open spec fn wordy(w: Seq<char>) -> bool {
    exists|i: int| 0 <= i < w.len() && !text::char_whitespace(#[trigger] w[i])
}

/// Is there anything but white space in `w`?
fn is_word(w: &str) -> (r: bool)
    ensures
        r == wordy(w@),
{
    let mut chars = w.chars();
    let ghost mut seen: int = 0;
    assert(w@.skip(0) =~= w@);
    loop
        invariant
            0 <= seen <= w@.len(),
            vstd::std_specs::iter::IteratorSpec::obeys_prophetic_iter_laws(&chars),
            vstd::std_specs::iter::IteratorSpec::remaining(&chars) == w@.skip(seen),
            forall|k: int| 0 <= k < seen ==> text::char_whitespace(#[trigger] w@[k]),
        decreases w@.len() - seen,
    {
        match chars.next() {
            None => {
                return false;
            },
            Some(c) => {
                assert(c == w@[seen]);
                assert(w@.skip(seen).drop_first() =~= w@.skip(seen + 1));
                if !c.is_whitespace() {
                    return true;
                }
                proof {
                    seen = seen + 1;
                }
            },
        }
    }
}

/// The piece of `s` between two offsets.
pub open spec fn piece(s: Seq<char>, from: int, to: int) -> Seq<char> {
    decode_utf8(encode_utf8(s).subrange(from, to))
}

fn piece_is_word(s: &str, from: usize, to: usize) -> (r: bool)
    requires
        from <= to,
        text::boundary(s.spec_bytes(), from as int),
        text::boundary(s.spec_bytes(), to as int),
    ensures
        r == wordy(piece(s@, from as int, to as int)),
{
    let w = text::slice(s, from, to);
    proof {
        text::lemma_str(w);
    }
    is_word(w)
}

/// Where the first wordy piece begins, going back from `end` over the pieces
/// that begin at `starts` from index `k` on; zero without one.
pub open spec fn word_start_in(s: Seq<char>, starts: Seq<usize>, k: int, end: int) -> int
    decreases starts.len() - k,
{
    if k < 0 || k >= starts.len() {
        0
    } else if wordy(piece(s, starts[k] as int, end)) {
        starts[k] as int
    } else {
        word_start_in(s, starts, k + 1, starts[k] as int)
    }
}

/// Going back over the pieces of `head`, where the first wordy one begins.
pub fn word_start_over(head: &str, starts: &Vec<usize>) -> (r: usize)
    requires
        cuts_back(starts@, head.spec_bytes()),
    ensures
        r == word_start_in(head@, starts@, 0, head.spec_bytes().len() as int),
        r <= head.spec_bytes().len(),
        text::boundary(head.spec_bytes(), r as int),
{
    let n: usize = head.as_bytes().len();
    let mut end: usize = n;
    let mut k: usize = 0;
    proof {
        text::lemma_str(head);
        text::lemma_boundary(head.spec_bytes(), 0);
        is_char_boundary_start_end_of_seq(head.spec_bytes());
    }
    while k < starts.len()
        invariant
            k <= starts@.len(),
            n == head.spec_bytes().len(),
            end <= n,
            cuts_back(starts@, head.spec_bytes()),
            text::boundary(head.spec_bytes(), end as int),
            k == 0 ==> end == n,
            k > 0 ==> end == starts@[k - 1],
            word_start_in(head@, starts@, 0, n as int) == word_start_in(
                head@,
                starts@,
                k as int,
                end as int,
            ),
        decreases starts@.len() - k,
    {
        let start: usize = starts[k];
        proof {
            if k > 0 {
                assert(starts@[k - 1] > starts@[k as int]);
            }
        }
        if piece_is_word(head, start, end) {
            return start;
        }
        end = start;
        k = k + 1;
    }
    0
}

/// Start of the word behind the caret: over any run of separators, then the word
/// itself.
pub open spec fn word_start(s: Seq<char>, at: int) -> int {
    let h = head(s, at);
    word_start_in(h, pieces_back(h), 0, at)
}

pub fn word_start_before(s: &str, at: usize) -> (r: usize)
    requires
        text::boundary(s.spec_bytes(), at as int),
    ensures
        r == word_start(s@, at as int),
        r <= at,
        text::boundary(s.spec_bytes(), r as int),
{
    let h = head_of(s, at);
    let starts = piece_starts_back(h);
    let r: usize = word_start_over(h, &starts);
    proof {
        if r < at {
            assert(h.spec_bytes()[r as int] == s.spec_bytes()[r as int]);
        }
    }
    r
}

/// Where the piece that begins at `starts[k]` ends, in a text of `n` bytes.
pub open spec fn piece_end(starts: Seq<usize>, k: int, n: int) -> int {
    if k + 1 < starts.len() {
        starts[k + 1] as int
    } else {
        n
    }
}

/// The first wordy piece from index `k` on, as a range.
pub open spec fn word_from(s: Seq<char>, starts: Seq<usize>, k: int, n: int) -> Option<(int, int)>
    decreases starts.len() - k,
{
    if k < 0 || k >= starts.len() {
        None
    } else if wordy(piece(s, starts[k] as int, piece_end(starts, k, n))) {
        Some((starts[k] as int, piece_end(starts, k, n)))
    } else {
        word_from(s, starts, k + 1, n)
    }
}

/// The first wordy piece of `s` among those that begin at `starts`.
pub fn first_word(s: &str, starts: &Vec<usize>) -> (r: Option<(usize, usize)>)
    requires
        cuts(starts@, s.spec_bytes()),
    ensures
        word_from(s@, starts@, 0, s.spec_bytes().len() as int) == (match r {
            Some((a, b)) => Some((a as int, b as int)),
            None => None,
        }),
        r matches Some((a, b)) ==> a < b <= s.spec_bytes().len() && text::boundary(
            s.spec_bytes(),
            a as int,
        ) && text::boundary(s.spec_bytes(), b as int),
{
    let n: usize = s.as_bytes().len();
    let mut k: usize = 0;
    proof {
        text::lemma_str(s);
    }
    while k < starts.len()
        invariant
            n == s.spec_bytes().len(),
            k <= starts@.len(),
            cuts(starts@, s.spec_bytes()),
            word_from(s@, starts@, 0, n as int) == word_from(s@, starts@, k as int, n as int),
        decreases starts@.len() - k,
    {
        let from: usize = starts[k];
        let to: usize = if k + 1 < starts.len() {
            starts[k + 1]
        } else {
            n
        };
        if piece_is_word(s, from, to) {
            return Some((from, to));
        }
        k = k + 1;
    }
    None
}

/// End of the word ahead of the caret, over separators first.
pub open spec fn word_end(s: Seq<char>, at: int) -> int {
    let n = encode_utf8(s).len() as int;
    let t = tail(s, at);
    match word_from(t, pieces(t), 0, n - at) {
        Some((a, b)) => at + b,
        None => n,
    }
}

pub fn word_end_after(s: &str, at: usize) -> (r: usize)
    requires
        text::boundary(s.spec_bytes(), at as int),
    ensures
        r == word_end(s@, at as int),
        at <= r <= s.spec_bytes().len(),
        text::boundary(s.spec_bytes(), r as int),
{
    let n: usize = s.as_bytes().len();
    let t = tail_of(s, at);
    let starts = piece_starts(t);
    match first_word(t, &starts) {
        Some((_, b)) => {
            proof {
                if at + b < n {
                    assert(t.spec_bytes()[b as int] == s.spec_bytes()[at + b]);
                }
            }
            at + b
        },
        None => n,
    }
}

/// The word that byte `at` falls in, looking from the piece of index `k` on,
/// where `prev` is the last word before it. `None` where no piece reaches `at`.
pub open spec fn word_over(
    s: Seq<char>,
    starts: Seq<usize>,
    k: int,
    n: int,
    at: int,
    prev: Option<(int, int)>,
) -> (int, int)
    decreases starts.len() - k,
{
    if k < 0 || k >= starts.len() {
        match prev {
            Some(p) => p,
            None => (n, n),
        }
    } else {
        let from = starts[k] as int;
        let to = piece_end(starts, k, n);
        let word = wordy(piece(s, from, to));
        if at < to {
            if word {
                (from, to)
            } else {
                match prev {
                    Some(p) => p,
                    None => {
                        let t = tail(s, to);
                        match word_from(t, pieces(t), 0, n - to) {
                            Some((a, b)) => (to + a, to + b),
                            None => (from, to),
                        }
                    },
                }
            }
        } else {
            word_over(
                s,
                starts,
                k + 1,
                n,
                at,
                if word {
                    Some((from, to))
                } else {
                    prev
                },
            )
        }
    }
}

/// The word that byte `at` falls in. In the gap between two words it is the one
/// behind; before the first word it is the one ahead.
pub open spec fn word_range(s: Seq<char>, at: int) -> (int, int) {
    let n = encode_utf8(s).len() as int;
    word_over(
        s,
        pieces(s),
        0,
        n,
        if at < n {
            at
        } else {
            n
        },
        None,
    )
}

pub fn word_at(s: &str, at: usize) -> (r: (usize, usize))
    ensures
        (r.0 as int, r.1 as int) == word_range(s@, at as int),
        r.0 <= r.1 <= s.spec_bytes().len(),
        text::boundary(s.spec_bytes(), r.0 as int),
        text::boundary(s.spec_bytes(), r.1 as int),
{
    let n: usize = s.as_bytes().len();
    let starts = piece_starts(s);
    word_in(
        s,
        &starts,
        if at < n {
            at
        } else {
            n
        },
    )
}

/// The word that byte `at` falls in, when the pieces of `s` begin at `starts`.
pub fn word_in(s: &str, starts: &Vec<usize>, at: usize) -> (r: (usize, usize))
    requires
        cuts(starts@, s.spec_bytes()),
    ensures
        (r.0 as int, r.1 as int) == word_over(
            s@,
            starts@,
            0,
            s.spec_bytes().len() as int,
            at as int,
            None,
        ),
        r.0 <= r.1 <= s.spec_bytes().len(),
        text::boundary(s.spec_bytes(), r.0 as int),
        text::boundary(s.spec_bytes(), r.1 as int),
{
    let n: usize = s.as_bytes().len();
    let mut prev: Option<(usize, usize)> = None;
    let mut k: usize = 0;
    proof {
        text::lemma_str(s);
    }
    while k < starts.len()
        invariant
            n == s.spec_bytes().len(),
            k <= starts@.len(),
            cuts(starts@, s.spec_bytes()),
            prev matches Some((a, b)) ==> a <= b <= n && text::boundary(s.spec_bytes(), a as int)
                && text::boundary(s.spec_bytes(), b as int),
            word_over(s@, starts@, 0, n as int, at as int, None) == word_over(
                s@,
                starts@,
                k as int,
                n as int,
                at as int,
                match prev {
                    Some((a, b)) => Some((a as int, b as int)),
                    None => None,
                },
            ),
        decreases starts@.len() - k,
    {
        let from: usize = starts[k];
        let to: usize = if k + 1 < starts.len() {
            starts[k + 1]
        } else {
            n
        };
        let word = piece_is_word(s, from, to);
        if at < to {
            if word {
                return (from, to);
            }
            match prev {
                Some(p) => {
                    return p;
                },
                None => {},
            }
            // Nothing behind: take the first word ahead, so a click in leading
            // space still selects something.
            let t = tail_of(s, to);
            let ahead = piece_starts(t);
            match first_word(t, &ahead) {
                Some((a, b)) => {
                    proof {
                        assert(t.spec_bytes()[a as int] == s.spec_bytes()[to + a]);
                        if to + b < n {
                            assert(t.spec_bytes()[b as int] == s.spec_bytes()[to + b]);
                        }
                    }
                    return (to + a, to + b);
                },
                None => {
                    return (from, to);
                },
            }
        }
        if word {
            prev = Some((from, to));
        }
        k = k + 1;
    }
    match prev {
        Some(p) => p,
        None => (n, n),
    }
}

} // verus!
