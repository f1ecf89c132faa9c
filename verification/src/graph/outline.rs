//! Growing a branch from an indented text outline.

use vstd::prelude::*;
use crate::coord::Coord;
use crate::graph::structure;
use crate::graph::{Direction, Graph};
use crate::text;

verus! {

/// How far a line is indented: a tab counts for four.
pub open spec fn indent_of(line: Seq<char>) -> nat
    decreases line.len(),
{
    if line.len() > 0 && line[0] == ' ' {
        1 + indent_of(line.skip(1))
    } else if line.len() > 0 && line[0] == '\t' {
        4 + indent_of(line.skip(1))
    } else {
        0
    }
}

/// One of the characters that begin an item of a list or a heading.
pub open spec fn is_mark(c: char) -> bool {
    c == '-' || c == '*' || c == '+' || c == '#'
}

/// A line without the marks it begins with.
pub open spec fn unmarked(line: Seq<char>) -> Seq<char>
    decreases line.len(),
{
    if line.len() > 0 && is_mark(line[0]) {
        unmarked(line.skip(1))
    } else {
        line
    }
}

/// How deep the marks a line begins with nest it: each of them but the first is a
/// level, so `## b` lies inside `# a`.
pub open spec fn nesting_of(line: Seq<char>) -> nat {
    let start = text::trimmed_start(line);
    let marks = start.len() - unmarked(start).len();
    if marks > 0 {
        (marks - 1) as nat
    } else {
        0
    }
}

/// How deep a line lies, by its leading spaces and by its marks.
pub open spec fn level_of(line: Seq<char>) -> nat {
    indent_of(line) + nesting_of(line)
}

/// What a line says.
pub open spec fn body_of(line: Seq<char>) -> Seq<char> {
    text::trimmed(unmarked(text::trimmed_start(line)))
}

/// The lines that say something, each with its level.
pub open spec fn items_of(lines: Seq<Seq<char>>) -> Seq<(nat, Seq<char>)>
    decreases lines.len(),
{
    if lines.len() == 0 {
        seq![]
    } else {
        let rest = items_of(lines.drop_last());
        let line = lines.last();
        if body_of(line).len() == 0 {
            rest
        } else {
            rest.push((level_of(line), body_of(line)))
        }
    }
}

/// The levels of some items.
pub open spec fn levels_of(items: Seq<(nat, Seq<char>)>) -> Seq<nat> {
    items.map_values(|p: (nat, Seq<char>)| p.0)
}

/// The last of the first `j` levels that is less than level `i`.
pub open spec fn outer_of(levels: Seq<nat>, i: int, j: nat) -> Option<int>
    decreases j,
{
    if j == 0 {
        None
    } else if levels[j - 1] < levels[i] {
        Some(j - 1)
    } else {
        outer_of(levels, i, (j - 1) as nat)
    }
}

/// What item `i` is hung under: what became of the last item before it that lies
/// less deep, or else `parent`.
pub open spec fn under(levels: Seq<nat>, made: Seq<Option<u64>>, parent: u64, i: int) -> u64 {
    match outer_of(levels, i, i as nat) {
        Some(j) => made[j]->0,
        None => parent,
    }
}

/// `run` goes through the maps between the creation of one item's node and that
/// of the next, and `made` holds the ids. The first failure ends it.
pub open spec fn grown<P: Fn(&Graph, u64, Direction) -> (Coord, Coord)>(
    place: &P,
    run: Seq<Graph>,
    made: Seq<Option<u64>>,
    items: Seq<(nat, Seq<char>)>,
    parent: u64,
) -> bool {
    &&& run.len() == made.len() + 1
    &&& made.len() <= items.len()
    &&& forall|i: int|
        0 <= i < made.len() ==> structure::made_child(
            place,
            &#[trigger] run[i],
            under(levels_of(items), made, parent, i),
            Direction::Right,
            items[i].1,
            made[i],
            run[i + 1]@,
        )
    &&& forall|i: int| 0 <= i < made.len() - 1 ==> (#[trigger] made[i]) is Some
    &&& made.len() < items.len() ==> made.len() > 0 && made.last() is None
}

/// The items of an outline.
pub fn parse_items(chars: &Vec<char>) -> (r: Vec<(u128, String)>)
    ensures
        r@.len() == items_of(text::lines_of(chars@)).len(),
        forall|i: int|
            0 <= i < r@.len() ==> (#[trigger] r@[i]).0 == items_of(text::lines_of(chars@))[i].0
                && r@[i].1@ == items_of(text::lines_of(chars@))[i].1,
{
    let spans = text::lines(chars);
    let ghost all = text::lines_of(chars@);
    let mut out: Vec<(u128, String)> = Vec::new();
    let mut i: usize = 0;
    while i < spans.len()
        invariant
            i <= spans@.len(),
            all == text::lines_of(chars@),
            spans@.len() == all.len(),
            forall|k: int|
                0 <= k < spans@.len() ==> {
                    let (from, to) = #[trigger] spans@[k];
                    from <= to <= chars@.len() && chars@.subrange(from as int, to as int) == all[k]
                },
            out@.len() == items_of(all.take(i as int)).len(),
            forall|k: int|
                0 <= k < out@.len() ==> (#[trigger] out@[k]).0 == items_of(all.take(i as int))[k].0
                    && out@[k].1@ == items_of(all.take(i as int))[k].1,
        decreases spans@.len() - i,
    {
        let (from, to): (usize, usize) = spans[i];
        assert(spans@[i as int] == (from, to));
        assert(all.take(i + 1).drop_last() =~= all.take(i as int));
        let indent: u128 = count_indent(chars, from, to);
        let start: usize = text::trim_start(chars, from, to);
        let bare: usize = skip_marks(chars, start, to);
        let first: usize = text::trim_start(chars, bare, to);
        let last: usize = text::trim_end(chars, first, to);
        assert(chars@.subrange(first as int, last as int) == body_of(all[i as int]));
        let nesting: usize = if bare > start {
            bare - start - 1
        } else {
            0
        };
        assert(nesting == nesting_of(all[i as int]));
        if first < last {
            let body = text::join(chars, first, last);
            out.push((indent + nesting as u128, body));
        }
        i = i + 1;
    }
    assert(all.take(i as int) =~= all);
    out
}

fn count_indent(chars: &Vec<char>, from: usize, to: usize) -> (r: u128)
    requires
        from <= to <= chars@.len(),
    ensures
        r == indent_of(chars@.subrange(from as int, to as int)),
        r <= 4 * (to - from),
{
    let mut i: usize = from;
    let mut n: u128 = 0;
    let ghost whole = chars@.subrange(from as int, to as int);
    while i < to && (chars[i] == ' ' || chars[i] == '\t')
        invariant
            from <= i <= to <= chars@.len(),
            n <= 4 * (i - from),
            n + indent_of(chars@.subrange(i as int, to as int)) == indent_of(whole),
        decreases to - i,
    {
        assert(chars@.subrange(i as int, to as int).skip(1) =~= chars@.subrange(i + 1, to as int));
        n = n + if chars[i] == '\t' {
            4
        } else {
            1
        };
        i = i + 1;
    }
    n
}

fn skip_marks(chars: &Vec<char>, from: usize, to: usize) -> (r: usize)
    requires
        from <= to <= chars@.len(),
    ensures
        from <= r <= to,
        chars@.subrange(r as int, to as int) == unmarked(chars@.subrange(from as int, to as int)),
{
    let mut i: usize = from;
    while i < to && (chars[i] == '-' || chars[i] == '*' || chars[i] == '+' || chars[i] == '#')
        invariant
            from <= i <= to <= chars@.len(),
            unmarked(chars@.subrange(i as int, to as int)) == unmarked(
                chars@.subrange(from as int, to as int),
            ),
        decreases to - i,
    {
        assert(chars@.subrange(i as int, to as int).skip(1) =~= chars@.subrange(i + 1, to as int));
        i = i + 1;
    }
    i
}

/// Level `j` is one of those at `held`, or a later one of them is no greater.
spec fn covered(levels: Seq<nat>, held: Seq<int>, j: int) -> bool {
    exists|k: int| 0 <= k < held.len() && #[trigger] held[k] >= j && levels[held[k]] <= levels[j]
}

pub proof fn lemma_outer_none(levels: Seq<nat>, i: int, j: nat)
    requires
        forall|k: int| 0 <= k < j ==> #[trigger] levels[k] >= levels[i],
    ensures
        outer_of(levels, i, j) is None,
    decreases j,
{
    if j > 0 {
        lemma_outer_none(levels, i, (j - 1) as nat);
    }
}

pub proof fn lemma_outer_at(levels: Seq<nat>, i: int, j: nat, t: int)
    requires
        0 <= t < j,
        levels[t] < levels[i],
        forall|k: int| t < k < j ==> #[trigger] levels[k] >= levels[i],
    ensures
        outer_of(levels, i, j) == Some(t),
    decreases j,
{
    if t < j - 1 {
        assert(levels[j - 1] >= levels[i]);
        lemma_outer_at(levels, i, (j - 1) as nat, t);
    }
}

pub proof fn lemma_outer_before(levels: Seq<nat>, i: int, j: nat)
    ensures
        outer_of(levels, i, j) matches Some(t) ==> 0 <= t < j && levels[t] < levels[i],
    decreases j,
{
    if j > 0 {
        lemma_outer_before(levels, i, (j - 1) as nat);
    }
}

/// For each level, the last before it that is less.
pub fn outers(v: &Vec<u128>) -> (r: Vec<Option<usize>>)
    ensures
        r@.len() == v@.len(),
        forall|i: int|
            0 <= i < v@.len() ==> match #[trigger] r@[i] {
                Some(j) => outer_of(v@.map_values(|l: u128| l as nat), i, i as nat) == Some(
                    j as int,
                ) && j < i,
                None => outer_of(v@.map_values(|l: u128| l as nat), i, i as nat) is None,
            },
{
    let ghost levels = v@.map_values(|l: u128| l as nat);
    // A stack whose top is what the next deeper level hangs under; anything at or
    // above the new level has closed.
    let mut stack: Vec<usize> = Vec::new();
    let ghost mut held: Seq<int> = seq![];
    let mut out: Vec<Option<usize>> = Vec::new();
    let mut i: usize = 0;
    while i < v.len()
        invariant
            levels == v@.map_values(|l: u128| l as nat),
            i <= v@.len(),
            out@.len() == i,
            forall|k: int|
                0 <= k < i ==> match #[trigger] out@[k] {
                    Some(j) => outer_of(levels, k, k as nat) == Some(j as int) && j < k,
                    None => outer_of(levels, k, k as nat) is None,
                },
            held.len() == stack@.len(),
            forall|k: int| 0 <= k < stack@.len() ==> #[trigger] stack@[k] < i,
            forall|k: int| 0 <= k < held.len() ==> 0 <= #[trigger] held[k] < i && stack@[k] == held[k],
            forall|a: int, b: int|
                0 <= a < b < held.len() ==> #[trigger] held[a] < #[trigger] held[b],
            forall|j: int| 0 <= j < i ==> #[trigger] covered(levels, held, j),
        decreases v@.len() - i,
    {
        let level: u128 = v[i];
        assert(levels[i as int] == level);
        while stack.len() > 0 && v[stack[stack.len() - 1]] >= level
            invariant
                levels == v@.map_values(|l: u128| l as nat),
                i < v@.len(),
                level == levels[i as int],
                held.len() == stack@.len(),
                forall|k: int| 0 <= k < stack@.len() ==> #[trigger] stack@[k] < i,
                forall|k: int|
                    0 <= k < held.len() ==> 0 <= #[trigger] held[k] < i && stack@[k] == held[k],
                forall|a: int, b: int|
                    0 <= a < b < held.len() ==> #[trigger] held[a] < #[trigger] held[b],
                forall|j: int|
                    0 <= j < i ==> #[trigger] covered(levels, held, j) || levels[j] >= level,
            decreases stack@.len(),
        {
            let ghost was = held;
            assert(was[was.len() - 1] < i);
            stack.pop();
            proof {
                held = was.drop_last();
                assert forall|j: int| 0 <= j < i implies #[trigger] covered(levels, held, j)
                    || levels[j] >= level by {
                    if covered(levels, was, j) {
                        let k = choose|k: int|
                            0 <= k < was.len() && #[trigger] was[k] >= j && levels[was[k]]
                                <= levels[j];
                        if k < held.len() {
                            assert(held[k] == was[k]);
                        }
                    }
                }
            }
        }
        let over: Option<usize> = if stack.len() > 0 {
            Some(stack[stack.len() - 1])
        } else {
            None
        };
        proof {
            if stack@.len() > 0 {
                let t = held.last();
                assert(held[held.len() - 1] == t);
                assert(levels[t] == v@[t] as nat);
                assert forall|k: int| t < k < i implies #[trigger] levels[k] >= levels[i as int] by {
                    if covered(levels, held, k) {
                        let m = choose|m: int|
                            0 <= m < held.len() && #[trigger] held[m] >= k && levels[held[m]]
                                <= levels[k];
                        if m < held.len() - 1 {
                            assert(held[m] < held[held.len() - 1]);
                        }
                    }
                }
                lemma_outer_at(levels, i as int, i as nat, t);
            } else {
                assert forall|k: int| 0 <= k < i implies #[trigger] levels[k] >= levels[i as int] by {
                    if covered(levels, held, k) {
                        let m = choose|m: int|
                            0 <= m < held.len() && #[trigger] held[m] >= k && levels[held[m]]
                                <= levels[k];
                    }
                }
                lemma_outer_none(levels, i as int, i as nat);
            }
        }
        out.push(over);
        stack.push(i);
        proof {
            let was = held;
            held = was.push(i as int);
            assert forall|j: int| 0 <= j < i + 1 implies #[trigger] covered(levels, held, j) by {
                assert(held[was.len() as int] == i);
                if j < i && covered(levels, was, j) {
                    let k = choose|k: int|
                        0 <= k < was.len() && #[trigger] was[k] >= j && levels[was[k]] <= levels[j];
                    assert(held[k] == was[k]);
                }
            }
        }
        i = i + 1;
    }
    out
}

impl Graph {
    /// Grow a branch from an indented text outline, hung under `parent`. Leading
    /// spaces (tab = 4) or `-`/`*`/`+`/`#` markers set the nesting; blank lines
    /// are skipped. Returns the first node made, or `None` for empty input —
    /// so a paste of ordinary prose still lands as a flat list of children.
    pub fn paste_outline<P: Fn(&Graph, u64, Direction) -> (Coord, Coord)>(
        &mut self,
        parent: u64,
        text: &str,
        place: &P,
    ) -> (r: Option<u64>)
        requires
            forall|g: &Graph, p: u64, d: Direction| #[trigger] place.requires((g, p, d)),
        ensures
            exists|run: Seq<Graph>, made: Seq<Option<u64>>| #[trigger]
                grown(place, run, made, items_of(text::lines_of(text@)), parent) && run[0] == *old(
                    self,
                ) && run.last() == *final(self) && r == (if made.len() > 0 {
                    made[0]
                } else {
                    None
                }),
    {
        let chars = text::chars(text);
        let items = parse_items(&chars);
        let ghost all = items_of(text::lines_of(text@));
        let mut indents: Vec<u128> = Vec::new();
        let mut k: usize = 0;
        while k < items.len()
            invariant
                k <= items@.len(),
                indents@.len() == k,
                forall|m: int| 0 <= m < k ==> #[trigger] indents@[m] == items@[m].0,
            decreases items@.len() - k,
        {
            indents.push(items[k].0);
            k = k + 1;
        }
        let over = outers(&indents);
        assert(indents@.map_values(|l: u128| l as nat) =~= levels_of(all));
        let mut ids: Vec<u64> = Vec::new();
        let ghost mut run: Seq<Graph> = seq![*self];
        let ghost mut made: Seq<Option<u64>> = seq![];
        let mut i: usize = 0;
        let mut stopped = false;
        while i < items.len() && !stopped
            invariant
                forall|g: &Graph, p: u64, d: Direction| #[trigger] place.requires((g, p, d)),
                all == items_of(text::lines_of(text@)),
                items@.len() == all.len(),
                over@.len() == all.len(),
                forall|k: int|
                    0 <= k < items@.len() ==> (#[trigger] items@[k]).0 == all[k].0 && items@[k].1@
                        == all[k].1,
                forall|k: int|
                    0 <= k < over@.len() ==> match #[trigger] over@[k] {
                        Some(j) => outer_of(levels_of(all), k, k as nat) == Some(j as int) && j < k,
                        None => outer_of(levels_of(all), k, k as nat) is None,
                    },
                i <= items@.len(),
                made.len() == i,
                run.len() == i + 1,
                run[0] == *old(self),
                run.last() == *self,
                stopped ==> i > 0 && made.last() is None,
                ids@.len() == (if stopped {
                    i - 1
                } else {
                    i as int
                }),
                forall|k: int| 0 <= k < ids@.len() ==> made[k] == Some(#[trigger] ids@[k]),
                forall|k: int| 0 <= k < made.len() - 1 ==> (#[trigger] made[k]) is Some,
                forall|k: int|
                    0 <= k < made.len() ==> structure::made_child(
                        place,
                        &#[trigger] run[k],
                        under(levels_of(all), made, parent, k),
                        Direction::Right,
                        all[k].1,
                        made[k],
                        run[k + 1]@,
                    ),
            decreases items@.len() - i,
        {
            let hung: u64 = match over[i] {
                Some(j) => ids[j],
                None => parent,
            };
            assert(hung == under(levels_of(all), made, parent, i as int));
            let ghost before = *self;
            let ghost made0 = made;
            let ghost run0 = run;
            let id: Option<u64> = self.create_child(
                hung,
                Direction::Right,
                items[i].1.as_str(),
                place,
            );
            proof {
                made = made0.push(id);
                run = run0.push(*self);
                assert(items@[i as int].1@ == all[i as int].1);
                assert forall|k: int| 0 <= k < made.len() implies structure::made_child(
                    place,
                    &#[trigger] run[k],
                    under(levels_of(all), made, parent, k),
                    Direction::Right,
                    all[k].1,
                    made[k],
                    run[k + 1]@,
                ) by {
                    lemma_outer_before(levels_of(all), k, k as nat);
                    if k < i {
                        assert(run[k] == run0[k] && run[k + 1] == run0[k + 1]);
                        assert(made[k] == made0[k]);
                        assert(under(levels_of(all), made, parent, k) == under(
                            levels_of(all),
                            made0,
                            parent,
                            k,
                        ));
                    } else {
                        assert(run[k] == before);
                        assert(under(levels_of(all), made, parent, k) == hung);
                    }
                }
                assert forall|k: int| 0 <= k < made.len() - 1 implies (#[trigger] made[k]) is Some by {
                    assert(made[k] == made0[k]);
                    assert(made0[k] == Some(ids@[k]));
                }
            }
            match id {
                Some(id) => {
                    ids.push(id);
                },
                None => {
                    stopped = true;
                },
            }
            i = i + 1;
        }
        assert(grown(place, run, made, all, parent));
        if ids.len() > 0 {
            assert(made[0] == Some(ids@[0]));
            Some(ids[0])
        } else {
            None
        }
    }
}

} // verus!
