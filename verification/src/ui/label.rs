//! Where the caret and the selection are in a label that may hold hard line
//! breaks. Offsets are in bytes; how wide anything is, is not decided here.

use vstd::prelude::*;
use vstd::string::StringSliceAdditionalSpecFns;
use crate::ascii;
use crate::graph::model;

verus! {

/// Where each line begins and ends, from `from` on.
pub open spec fn ranges_from(b: Seq<u8>, from: int) -> Seq<(int, int)>
    decreases b.len() - from,
{
    let end = model::line_end_of(b, from);
    if from <= end < b.len() {
        seq![(from, end)] + ranges_from(b, end + 1)
    } else {
        seq![(from, end)]
    }
}

/// Where each line of a label begins and ends.
pub open spec fn ranges(b: Seq<u8>) -> Seq<(int, int)> {
    ranges_from(b, 0)
}

/// How many line breaks there are before `at`.
pub open spec fn breaks_before(b: Seq<u8>, at: int) -> nat
    decreases at,
{
    if at <= 0 {
        0
    } else {
        breaks_before(b, at - 1) + if b[at - 1] == ascii::NEWLINE {
            1nat
        } else {
            0
        }
    }
}

/// What stands for a label: itself, or where it is empty a dot, and room for the
/// caret while it is written.
pub open spec fn shown_as(label: Seq<char>, writing: bool) -> Seq<char> {
    if label.len() > 0 {
        label
    } else if writing {
        " "@
    } else {
        "·"@
    }
}

/// What stands for a label.
pub fn shown(label: &str, writing: bool) -> (r: &str)
    ensures
        r@ == shown_as(label@, writing),
{
    if !label.is_empty() {
        label
    } else if writing {
        " "
    } else {
        "·"
    }
}

/// The part of one line that is selected.
#[derive(Clone, Copy, Debug, PartialEq, Eq, Structural)]
pub struct Band {
    pub row: usize,
    /// Where the line begins.
    pub start: usize,
    pub from: usize,
    pub to: usize,
    /// The line break after it is selected too.
    pub tail: bool,
}

/// Where the caret is: in which line, and where that line begins.
#[derive(Clone, Copy, Debug, PartialEq, Eq, Structural)]
pub struct Spot {
    pub row: usize,
    pub start: usize,
    pub at: usize,
}

pub open spec fn lesser(a: int, b: int) -> int {
    if a <= b {
        a
    } else {
        b
    }
}

pub open spec fn greater(a: int, b: int) -> int {
    if a >= b {
        a
    } else {
        b
    }
}

/// What is selected of a line, if anything: a line that the selection does not
/// touch has no band, and an empty line has one where the selection goes on past
/// it.
pub open spec fn band_of(row: int, line: (int, int), s: int, e: int) -> Option<Band> {
    let a = greater(s, line.0);
    let b = lesser(e, line.1);
    let inside = s <= line.0 && e > line.1;
    if a > b || (a == b && !inside) {
        None
    } else {
        Some(
            Band {
                row: row as usize,
                start: line.0 as usize,
                from: a as usize,
                to: b as usize,
                tail: e > line.1,
            },
        )
    }
}

/// The bands of the first `n` lines.
pub open spec fn bands_of(lines: Seq<(int, int)>, s: int, e: int, n: nat) -> Seq<Band>
    decreases n,
{
    if n == 0 {
        seq![]
    } else {
        let k = (n - 1) as nat;
        let rest = bands_of(lines, s, e, k);
        match band_of(k as int, lines[k as int], s, e) {
            Some(band) => rest.push(band),
            None => rest,
        }
    }
}

/// The bands of a selection of a label.
pub open spec fn selected(b: Seq<u8>, selection: Option<(usize, usize)>) -> Seq<Band> {
    match selection {
        Some((s, e)) => {
            let s = lesser(s as int, b.len() as int);
            let e = lesser(e as int, b.len() as int);
            if e > s {
                bands_of(ranges(b), s, e, ranges(b).len())
            } else {
                seq![]
            }
        },
        None => seq![],
    }
}

/// The lines of a label, as mathematical integers.
pub open spec fn views(lines: Seq<(usize, usize)>) -> Seq<(int, int)> {
    lines.map_values(|l: (usize, usize)| (l.0 as int, l.1 as int))
}

proof fn lemma_line_end(b: Seq<u8>, at: int, k: int)
    requires
        0 <= at <= k <= b.len(),
        forall|i: int| at <= i < k ==> #[trigger] b[i] != ascii::NEWLINE,
        k < b.len() ==> b[k] == ascii::NEWLINE,
    ensures
        model::line_end_of(b, at) == k,
    decreases k - at,
{
    if at < k {
        assert(b[at] != ascii::NEWLINE);
        lemma_line_end(b, at + 1, k);
    }
}

/// Where each line of a label begins and ends.
pub fn lines(label: &str) -> (r: Vec<(usize, usize)>)
    ensures
        views(r@) == ranges(label.spec_bytes()),
        r@.len() >= 1,
{
    let bytes = label.as_bytes();
    let ghost b = label.spec_bytes();
    let n: usize = bytes.len();
    let mut out: Vec<(usize, usize)> = Vec::new();
    let mut at: usize = 0;
    let mut end: usize = 0;
    assert(views(out@) =~= seq![]);
    assert(seq![] + ranges_from(b, 0) =~= ranges(b));
    loop
        invariant
            n == b.len(),
            bytes@ == b,
            b == label.spec_bytes(),
            at <= end <= n,
            forall|i: int| at <= i < end ==> #[trigger] b[i] != ascii::NEWLINE,
            views(out@) + ranges_from(b, at as int) == ranges(b),
        decreases n - end,
    {
        if end < n && bytes[end] != ascii::NEWLINE {
            end = end + 1;
        } else {
            let ghost was = views(out@);
            proof {
                lemma_line_end(b, at as int, end as int);
            }
            out.push((at, end));
            assert(views(out@) =~= was.push((at as int, end as int)));
            if end == n {
                assert(views(out@) =~= ranges(b));
                return out;
            }
            assert(views(out@) + ranges_from(b, end + 1) =~= was + ranges_from(b, at as int));
            end = end + 1;
            at = end;
        }
    }
}

/// The bands of a selection of a label: one for each line that it touches.
pub fn bands(label: &str, selection: Option<(usize, usize)>) -> (r: Vec<Band>)
    ensures
        r@ == selected(label.spec_bytes(), selection),
{
    let n: usize = label.as_bytes().len();
    let mut out: Vec<Band> = Vec::new();
    let (s, e): (usize, usize) = match selection {
        Some((s, e)) => (if s < n {
            s
        } else {
            n
        }, if e < n {
            e
        } else {
            n
        }),
        None => {
            return out;
        },
    };
    if e <= s {
        return out;
    }
    let rows = lines(label);
    let ghost all = views(rows@);
    let count: usize = rows.len();
    let mut i: usize = 0;
    while i < count
        invariant
            i <= count,
            count == rows@.len(),
            all == views(rows@),
            out@ == bands_of(all, s as int, e as int, i as nat),
        decreases count - i,
    {
        let (ls, le) = rows[i];
        assert(all[i as int] == (ls as int, le as int));
        let a: usize = if s >= ls {
            s
        } else {
            ls
        };
        let b: usize = if e <= le {
            e
        } else {
            le
        };
        let inside = s <= ls && e > le;
        if !(a > b || (a == b && !inside)) {
            out.push(Band { row: i, start: ls, from: a, to: b, tail: e > le });
        }
        i = i + 1;
    }
    out
}

/// Where the caret is in a label. A caret past the end is at the end.
pub fn caret_spot(label: &str, caret: usize) -> (r: Spot)
    ensures
        ({
            let b = label.spec_bytes();
            let at = lesser(caret as int, b.len() as int);
            &&& r.at == at
            &&& r.row == breaks_before(b, at)
            &&& r.start == model::line_start_of(b, at)
        }),
{
    let bytes = label.as_bytes();
    let n: usize = bytes.len();
    let at: usize = if caret < n {
        caret
    } else {
        n
    };
    let ghost b = label.spec_bytes();
    let mut row: usize = 0;
    let mut start: usize = 0;
    let mut i: usize = 0;
    while i < at
        invariant
            i <= at <= n,
            n == b.len(),
            bytes@ == b,
            row <= i,
            row == breaks_before(b, i as int),
            start == model::line_start_of(b, i as int),
        decreases at - i,
    {
        if bytes[i] == ascii::NEWLINE {
            row = row + 1;
            start = i + 1;
        }
        i = i + 1;
    }
    Spot { row, start, at }
}

/// A selection of the whole of a label of one line is one band over all of it.
pub proof fn whole_line_is_one_band(b: Seq<u8>)
    requires
        0 < b.len() <= usize::MAX,
        forall|i: int| 0 <= i < b.len() ==> #[trigger] b[i] != ascii::NEWLINE,
    ensures
        selected(b, Some((0, b.len() as usize))) == seq![
            Band { row: 0, start: 0, from: 0, to: b.len() as usize, tail: false },
        ],
{
    lemma_line_end(b, 0, b.len() as int);
    let all = ranges(b);
    assert(all =~= seq![(0int, b.len() as int)]);
    let one = bands_of(all, 0, b.len() as int, 1);
    reveal_with_fuel(bands_of, 2);
    assert(one =~= seq![Band { row: 0, start: 0, from: 0, to: b.len() as usize, tail: false }]);
}

} // verus!
