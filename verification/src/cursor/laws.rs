//! Where the caret goes, said of the pieces that a text is cut into.

use vstd::prelude::*;
use vstd::utf8::*;
use crate::cursor;
use crate::text;

verus! {

/// A piece that is nothing but white space.
pub open spec fn separates(w: Seq<char>) -> bool {
    forall|i: int| 0 <= i < w.len() ==> text::char_whitespace(#[trigger] w[i])
}

proof fn lemma_wordy(w: Seq<char>)
    ensures
        cursor::wordy(w) <==> !separates(w),
{
}

proof fn lemma_start(starts: Seq<usize>, at: int)
    requires
        forall|i: int, j: int| 0 <= i < j < starts.len() ==> #[trigger] starts[i] < #[trigger] starts[j],
    ensures
        ({
            let r = cursor::start_at_or_before(starts, at);
            &&& forall|i: int| 0 <= i < starts.len() && #[trigger] starts[i] <= at ==> starts[i] <= r
            &&& r == 0 || exists|i: int| 0 <= i < starts.len() && #[trigger] starts[i] == r
            &&& starts.len() > 0 && starts[0] <= at ==> r <= at && exists|i: int|
                0 <= i < starts.len() && #[trigger] starts[i] == r
        }),
    decreases starts.len(),
{
    if starts.len() > 0 {
        let last = starts.last();
        assert(starts[starts.len() - 1] == last);
        if last > at {
            let less = starts.drop_last();
            lemma_start(less, at);
            let r = cursor::start_at_or_before(less, at);
            assert forall|i: int| 0 <= i < starts.len() && #[trigger] starts[i] <= at implies starts[i]
                <= r by {
                assert(less[i] == starts[i]);
            }
            if exists|i: int| 0 <= i < less.len() && #[trigger] less[i] == r {
                let i = choose|i: int| 0 <= i < less.len() && #[trigger] less[i] == r;
                assert(starts[i] == r);
            }
            if starts[0] <= at {
                assert(less[0] == starts[0]);
            }
        }
    }
}

/// The cluster that holds a byte begins at the last of the beginnings that are not past
/// it. A byte past the end counts as the end.
pub proof fn a_click_lands_on_a_cluster(s: Seq<char>, at: int)
    requires
        cursor::cuts(cursor::clusters(s), encode_utf8(s)),
        at >= 0,
    ensures
        ({
            let r = cursor::cluster_at_or_before(s, at);
            let n = encode_utf8(s).len();
            let starts = cursor::clusters(s);
            &&& n == 0 ==> r == 0
            &&& n > 0 ==> r <= at && exists|i: int| 0 <= i < starts.len() && #[trigger] starts[i] == r
            &&& forall|i: int| 0 <= i < starts.len() && #[trigger] starts[i] <= at ==> starts[i] <= r
        }),
{
    let n = encode_utf8(s).len() as int;
    lemma_start(
        cursor::clusters(s),
        if at < n {
            at
        } else {
            n
        },
    );
}

/// The end of piece `k`, going back from `end`.
pub open spec fn back_end(starts: Seq<usize>, k: int, end: int) -> int {
    if k == 0 {
        end
    } else {
        starts[k - 1] as int
    }
}

proof fn lemma_back(s: Seq<char>, starts: Seq<usize>, k: int, m: int, end: int)
    requires
        0 <= k <= m <= starts.len(),
        forall|j: int|
            k <= j < m ==> separates(
                #[trigger] cursor::piece(s, starts[j] as int, back_end(starts, j, end)),
            ),
        m < starts.len() ==> !separates(
            cursor::piece(s, starts[m] as int, back_end(starts, m, end)),
        ),
    ensures
        cursor::word_start_in(s, starts, k, back_end(starts, k, end)) == (if m < starts.len() {
            starts[m] as int
        } else {
            0
        }),
    decreases m - k,
{
    if k < starts.len() {
        let p = cursor::piece(s, starts[k] as int, back_end(starts, k, end));
        lemma_wordy(p);
        if k < m {
            assert(separates(p));
            lemma_back(s, starts, k + 1, m, end);
        }
    }
}

/// Going back a word skips the separators behind the caret and then one word: it lands
/// where the first piece begins, counting back, that is not white space, and at the
/// beginning of the text where there is none.
pub proof fn going_back_skips_to_a_word(s: Seq<char>, at: int, m: int)
    requires
        ({
            let h = cursor::head(s, at);
            let starts = cursor::pieces_back(h);
            &&& 0 <= m <= starts.len()
            &&& forall|j: int|
                0 <= j < m ==> separates(
                    #[trigger] cursor::piece(h, starts[j] as int, back_end(starts, j, at)),
                )
            &&& m < starts.len() ==> !separates(
                cursor::piece(h, starts[m] as int, back_end(starts, m, at)),
            )
        }),
    ensures
        ({
            let starts = cursor::pieces_back(cursor::head(s, at));
            cursor::word_start(s, at) == (if m < starts.len() {
                starts[m] as int
            } else {
                0
            })
        }),
{
    let h = cursor::head(s, at);
    lemma_back(h, cursor::pieces_back(h), 0, m, at);
}

/// Where piece `k` of a text of `n` bytes ends.
pub open spec fn next_start(starts: Seq<usize>, k: int, n: int) -> int {
    if k + 1 < starts.len() {
        starts[k + 1] as int
    } else {
        n
    }
}

proof fn lemma_ahead(s: Seq<char>, starts: Seq<usize>, k: int, m: int, n: int)
    requires
        0 <= k <= m <= starts.len(),
        forall|j: int|
            k <= j < m ==> separates(
                #[trigger] cursor::piece(s, starts[j] as int, next_start(starts, j, n)),
            ),
        m < starts.len() ==> !separates(
            cursor::piece(s, starts[m] as int, next_start(starts, m, n)),
        ),
    ensures
        cursor::word_from(s, starts, k, n) == (if m < starts.len() {
            Some((starts[m] as int, next_start(starts, m, n)))
        } else {
            None
        }),
    decreases m - k,
{
    if k < starts.len() {
        let p = cursor::piece(s, starts[k] as int, next_start(starts, k, n));
        lemma_wordy(p);
        if k < m {
            assert(separates(p));
            lemma_ahead(s, starts, k + 1, m, n);
        }
    }
}

/// Going on a word skips the separators ahead of the caret and then one word: it lands
/// where the first piece ends that is not white space, and at the end of the text where
/// there is none.
pub proof fn going_on_skips_past_a_word(s: Seq<char>, at: int, m: int)
    requires
        ({
            let t = cursor::tail(s, at);
            let starts = cursor::pieces(t);
            let n = encode_utf8(s).len() - at;
            &&& 0 <= m <= starts.len()
            &&& forall|j: int|
                0 <= j < m ==> separates(
                    #[trigger] cursor::piece(t, starts[j] as int, next_start(starts, j, n)),
                )
            &&& m < starts.len() ==> !separates(
                cursor::piece(t, starts[m] as int, next_start(starts, m, n)),
            )
        }),
    ensures
        ({
            let starts = cursor::pieces(cursor::tail(s, at));
            let n = encode_utf8(s).len() - at;
            cursor::word_end(s, at) == at + (if m < starts.len() {
                next_start(starts, m, n)
            } else {
                n
            })
        }),
{
    let t = cursor::tail(s, at);
    lemma_ahead(t, cursor::pieces(t), 0, m, encode_utf8(s).len() - at);
}

/// What is the word at a byte of piece `k`, when the last word before it is `prev`.
proof fn lemma_over(
    s: Seq<char>,
    starts: Seq<usize>,
    i: int,
    k: int,
    n: int,
    at: int,
    prev: Option<(int, int)>,
)
    requires
        0 <= i <= k < starts.len(),
        forall|j: int| i <= j < k ==> next_start(starts, j, n) <= at,
        at < next_start(starts, k, n),
        forall|a: int, b: int| 0 <= a < b < starts.len() ==> #[trigger] starts[a] < #[trigger] starts[b],
    ensures
        ({
            let r = cursor::word_over(s, starts, i, n, at, prev);
            let from = starts[k] as int;
            let to = next_start(starts, k, n);
            &&& !separates(cursor::piece(s, from, to)) ==> r == (from, to)
            &&& separates(cursor::piece(s, from, to)) ==> {
                &&& forall|m: int|
                    i <= m < k && !separates(
                        #[trigger] cursor::piece(s, starts[m] as int, next_start(starts, m, n)),
                    ) && (forall|j: int|
                        m < j < k ==> separates(
                            #[trigger] cursor::piece(s, starts[j] as int, next_start(starts, j, n)),
                        )) ==> r == (starts[m] as int, next_start(starts, m, n))
                &&& (forall|j: int|
                    i <= j < k ==> separates(
                        #[trigger] cursor::piece(s, starts[j] as int, next_start(starts, j, n)),
                    )) ==> (match prev {
                    Some(p) => r == p,
                    None => {
                        let t = cursor::tail(s, to);
                        match cursor::word_from(t, cursor::pieces(t), 0, n - to) {
                            Some((a, b)) => r == (to + a, to + b),
                            None => r == (from, to),
                        }
                    },
                })
            }
        }),
    decreases k - i,
{
    let here = cursor::piece(s, starts[i] as int, next_start(starts, i, n));
    lemma_wordy(here);
    assert(cursor::piece_end(starts, i, n) == next_start(starts, i, n));
    if i < k {
        assert(next_start(starts, i, n) <= at);
        let next = if separates(here) {
            prev
        } else {
            Some((starts[i] as int, next_start(starts, i, n)))
        };
        lemma_over(s, starts, i + 1, k, n, at, next);
        let r = cursor::word_over(s, starts, i, n, at, prev);
        assert(r == cursor::word_over(s, starts, i + 1, n, at, next));
        let from = starts[k] as int;
        let to = next_start(starts, k, n);
        if separates(cursor::piece(s, from, to)) {
            assert forall|m: int|
                i <= m < k && !separates(
                    #[trigger] cursor::piece(s, starts[m] as int, next_start(starts, m, n)),
                ) && (forall|j: int|
                    m < j < k ==> separates(
                        #[trigger] cursor::piece(s, starts[j] as int, next_start(starts, j, n)),
                    )) implies r == (starts[m] as int, next_start(starts, m, n)) by {}
            if forall|j: int|
                i <= j < k ==> separates(
                    #[trigger] cursor::piece(s, starts[j] as int, next_start(starts, j, n)),
                ) {
                assert(separates(here));
            }
        }
    }
}

/// The word at a byte: the piece it falls in, if that is not white space. In a gap it is
/// the last word before, and before the first word the first one ahead.
pub proof fn a_double_click_takes_a_word(s: Seq<char>, k: int, m: int, at: int)
    requires
        cursor::cuts(cursor::pieces(s), encode_utf8(s)),
        0 <= k < cursor::pieces(s).len(),
        cursor::pieces(s)[k] <= at,
        at < next_start(cursor::pieces(s), k, encode_utf8(s).len() as int),
    ensures
        ({
            let starts = cursor::pieces(s);
            let n = encode_utf8(s).len() as int;
            let r = cursor::word_range(s, at);
            let from = starts[k] as int;
            let to = next_start(starts, k, n);
            &&& !separates(cursor::piece(s, from, to)) ==> r == (from, to)
            &&& separates(cursor::piece(s, from, to)) && 0 <= m < k && !separates(
                cursor::piece(s, starts[m] as int, next_start(starts, m, n)),
            ) && (forall|j: int|
                m < j < k ==> separates(
                    #[trigger] cursor::piece(s, starts[j] as int, next_start(starts, j, n)),
                )) ==> r == (starts[m] as int, next_start(starts, m, n))
            &&& (forall|j: int|
                0 <= j <= k ==> separates(
                    #[trigger] cursor::piece(s, starts[j] as int, next_start(starts, j, n)),
                )) ==> {
                let t = cursor::tail(s, to);
                match cursor::word_from(t, cursor::pieces(t), 0, n - to) {
                    Some((a, b)) => r == (to + a, to + b),
                    None => r == (from, to),
                }
            }
        }),
{
    let starts = cursor::pieces(s);
    let n = encode_utf8(s).len() as int;
    let from = starts[k] as int;
    let to = next_start(starts, k, n);
    assert(at < n);
    assert forall|j: int| 0 <= j < k implies next_start(starts, j, n) <= at by {
        if j + 1 < k {
            assert(starts[j + 1] < starts[k]);
        }
    }
    lemma_over(s, starts, 0, k, n, at, None);
    if forall|j: int|
        0 <= j <= k ==> separates(
            #[trigger] cursor::piece(s, starts[j] as int, next_start(starts, j, n)),
        ) {
        assert(separates(cursor::piece(s, starts[k] as int, next_start(starts, k, n))));
    }
}

/// The cluster ahead of the caret ends where the next one begins, or at the end of the
/// text, and there is none at the end.
pub proof fn a_cluster_ends_where_the_next_begins(s: Seq<char>, at: int)
    ensures
        ({
            let starts = cursor::clusters(cursor::tail(s, at));
            &&& starts.len() == 0 ==> cursor::cluster_end(s, at) is None
            &&& starts.len() == 1 ==> cursor::cluster_end(s, at) == Some(encode_utf8(s).len() as int)
            &&& starts.len() > 1 ==> cursor::cluster_end(s, at) == Some(at + starts[1])
        }),
{
}

} // verus!
