//! The shortcut panel's search.

use vstd::prelude::*;
use crate::text;

verus! {

/// A section of the panel: its title, and the keys with what they do.
pub struct Section {
    pub title: String,
    pub rows: Vec<(String, String)>,
}

/// A text that holds `query`, whatever the case of either.
pub open spec fn holds(s: Seq<char>, query: Seq<char>) -> bool {
    text::occurs(text::lowered(s), query)
}

/// A row that a search finds: by its section, by its key or by what it does. An
/// empty search finds every row.
pub open spec fn found(
    query: Seq<char>,
    title: Seq<char>,
    key: Seq<char>,
    what: Seq<char>,
) -> bool {
    let q = text::lowered(text::trimmed(query));
    q.len() == 0 || holds(title, q) || holds(key, q) || holds(what, q)
}

fn lowers(s: &str, q: &Vec<char>) -> (r: bool)
    ensures
        r == holds(s@, q@),
{
    let low = s.to_lowercase();
    let chars = text::chars(low.as_str());
    text::has_part(&chars, q)
}

/// Whether a search finds a row.
pub fn help_matches(query: &str, title: &str, key: &str, what: &str) -> (r: bool)
    ensures
        r == found(query@, title@, key@, what@),
{
    let low = query.trim().to_lowercase();
    let q = text::chars(low.as_str());
    if q.len() == 0 {
        return true;
    }
    lowers(title, &q) || lowers(key, &q) || lowers(what, &q)
}

/// The first `n` rows of a section that a search finds, by their places.
pub open spec fn kept(query: Seq<char>, section: Section, n: nat) -> Seq<int>
    decreases n,
{
    if n == 0 {
        seq![]
    } else {
        let k = n - 1;
        let rest = kept(query, section, k as nat);
        if found(query, section.title@, section.rows@[k].0@, section.rows@[k].1@) {
            rest.push(k)
        } else {
            rest
        }
    }
}

/// The rows of a section that a search finds, by their places. A section without
/// any is not shown.
pub fn keep_rows(query: &str, section: &Section) -> (r: Vec<usize>)
    ensures
        r@.map_values(|i: usize| i as int) == kept(query@, *section, section.rows@.len()),
{
    let n: usize = section.rows.len();
    let mut out: Vec<usize> = Vec::new();
    let mut i: usize = 0;
    assert(out@.map_values(|i: usize| i as int) =~= seq![]);
    while i < n
        invariant
            i <= n,
            n == section.rows@.len(),
            out@.map_values(|i: usize| i as int) == kept(query@, *section, i as nat),
        decreases n - i,
    {
        let ghost was = out@.map_values(|i: usize| i as int);
        let (key, what) = &section.rows[i];
        if help_matches(query, section.title.as_str(), key.as_str(), what.as_str()) {
            out.push(i);
            assert(out@.map_values(|i: usize| i as int) =~= was.push(i as int));
        }
        i = i + 1;
    }
    out
}

/// A title that a search finds keeps its whole section.
pub proof fn a_title_keeps_its_section(query: Seq<char>, section: Section, n: nat)
    requires
        n <= section.rows@.len(),
        holds(section.title@, text::lowered(text::trimmed(query))),
    ensures
        kept(query, section, n) == Seq::new(n, |i: int| i),
    decreases n,
{
    if n > 0 {
        a_title_keeps_its_section(query, section, (n - 1) as nat);
        assert(kept(query, section, n) =~= Seq::new(n, |i: int| i));
    } else {
        assert(kept(query, section, n) =~= Seq::new(n, |i: int| i));
    }
}

} // verus!
