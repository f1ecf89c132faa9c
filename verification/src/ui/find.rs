//! The find field: what has been typed into it, what it matched, and which match
//! the view stands on.

use vstd::prelude::*;
use crate::graph::model::GraphModel;
use crate::graph::Graph;
use crate::ids;
use crate::text;

verus! {

/// The find field while it is open.
pub struct Find {
    pub query: String,
    pub matches: Vec<u64>,
    pub at: usize,
    /// The replacement, and whether the keyboard is pointed at it rather than at
    /// the query.
    pub replace: String,
    pub replacing: bool,
}

#[verifier::ext_equal]
pub struct FindModel {
    pub query: Seq<char>,
    pub matches: Seq<u64>,
    pub at: usize,
    pub replace: Seq<char>,
    pub replacing: bool,
}

impl View for Find {
    type V = FindModel;

    open spec fn view(&self) -> FindModel {
        FindModel {
            query: self.query@,
            matches: self.matches@,
            at: self.at,
            replace: self.replace@,
            replacing: self.replacing,
        }
    }
}

/// The search: the field if it is open, and the last query, which outlives it.
pub struct Search {
    pub field: Option<Find>,
    pub last_query: String,
}

#[verifier::ext_equal]
pub struct SearchModel {
    pub field: Option<FindModel>,
    pub last_query: Seq<char>,
}

impl View for Search {
    type V = SearchModel;

    open spec fn view(&self) -> SearchModel {
        SearchModel {
            field: match self.field {
                Some(f) => Some(f@),
                None => None,
            },
            last_query: self.last_query@,
        }
    }
}

/// A text without its last character.
pub open spec fn shortened(s: Seq<char>) -> Seq<char> {
    if s.len() > 0 {
        s.drop_last()
    } else {
        s
    }
}

/// A text without its last character.
pub fn shorten(s: &str) -> (r: String)
    ensures
        r@ == shortened(s@),
{
    let chars = text::chars(s);
    let n: usize = chars.len();
    if n == 0 {
        return String::new();
    }
    let r = text::join(&chars, 0, n - 1);
    assert(r@ =~= s@.drop_last());
    r
}

impl FindModel {
    /// The view stands on one of the matches, if there are any.
    pub open spec fn sound(self) -> bool {
        self.matches.len() > 0 ==> self.at < self.matches.len()
    }

    /// The field with the matches of its query in a map, from the first.
    pub open spec fn searched(self, g: GraphModel) -> FindModel {
        FindModel { matches: ids::listed(g.found(self.query)), at: 0, ..self }
    }

    /// The field one match on or back, round the end.
    pub open spec fn stepped(self, forward: bool) -> FindModel {
        if self.matches.len() == 0 {
            self
        } else {
            let d: int = if forward {
                1
            } else {
                -1
            };
            FindModel { at: ((self.at + d) % (self.matches.len() as int)) as usize, ..self }
        }
    }

    /// The node that the view stands on.
    pub open spec fn current(self) -> Option<u64> {
        if self.at < self.matches.len() {
            Some(self.matches[self.at as int])
        } else {
            None
        }
    }

    /// The field with one more character where the keyboard points.
    pub open spec fn typed(self, c: char) -> FindModel {
        if self.replacing {
            FindModel { replace: self.replace.push(c), ..self }
        } else {
            FindModel { query: self.query.push(c), ..self }
        }
    }

    /// The field with one character less where the keyboard points.
    pub open spec fn untyped(self) -> FindModel {
        if self.replacing {
            FindModel { replace: shortened(self.replace), ..self }
        } else {
            FindModel { query: shortened(self.query), ..self }
        }
    }

    /// What the field says of its matches.
    pub open spec fn count(self) -> Seq<char> {
        if text::trimmed(self.query).len() == 0 {
            seq![]
        } else if self.matches.len() == 0 {
            "no matches"@
        } else {
            text::decimal_chars((self.at + 1) as nat) + " of "@ + text::decimal_chars(
                self.matches.len(),
            )
        }
    }
}

impl Find {
    /// Finds the matches of the query again, and goes to the first.
    pub fn refresh(&mut self, g: &Graph)
        ensures
            final(self)@ == old(self)@.searched(g@),
            final(self)@.sound(),
    {
        self.matches = g.find(self.query.as_str());
        self.at = 0;
        proof {
            ids::lemma_listed(self.matches@, g@.found(self.query@));
        }
    }

    /// Goes one match on or back, round the end.
    pub fn step(&mut self, forward: bool)
        requires
            old(self)@.sound(),
        ensures
            final(self)@ == old(self)@.stepped(forward),
            final(self)@.sound(),
    {
        let n: usize = self.matches.len();
        if n == 0 {
            return;
        }
        let ghost before = self@;
        if forward {
            self.at = if self.at + 1 == n {
                0
            } else {
                self.at + 1
            };
            assert((before.at + 1) % (n as int) == self.at) by (nonlinear_arith)
                requires
                    before.at < n,
                    self.at == (if before.at + 1 == n {
                        0
                    } else {
                        before.at + 1
                    }),
            ;
        } else {
            self.at = if self.at == 0 {
                n - 1
            } else {
                self.at - 1
            };
            assert((before.at - 1) % (n as int) == self.at) by (nonlinear_arith)
                requires
                    before.at < n,
                    self.at == (if before.at == 0 {
                        n - 1
                    } else {
                        before.at - 1
                    }),
            ;
        }
    }

    /// The node that the view stands on.
    pub fn current(&self) -> (r: Option<u64>)
        ensures
            r == self@.current(),
    {
        if self.at < self.matches.len() {
            Some(self.matches[self.at])
        } else {
            None
        }
    }

    /// A character that was typed. Says whether the query has changed.
    pub fn type_char(&mut self, c: char) -> (r: bool)
        ensures
            final(self)@ == old(self)@.typed(c),
            r == !old(self)@.replacing,
    {
        if self.replacing {
            self.replace.push(c);
            false
        } else {
            self.query.push(c);
            true
        }
    }

    /// Takes back a character. Says whether the query may have changed.
    pub fn backspace(&mut self) -> (r: bool)
        ensures
            final(self)@ == old(self)@.untyped(),
            r == !old(self)@.replacing,
    {
        if self.replacing {
            self.replace = shorten(self.replace.as_str());
            false
        } else {
            self.query = shorten(self.query.as_str());
            true
        }
    }

    /// Points the keyboard at the other of the two texts.
    pub fn toggle_replace(&mut self)
        ensures
            final(self)@ == (FindModel { replacing: !old(self)@.replacing, ..old(self)@ }),
    {
        self.replacing = !self.replacing;
    }

    /// What the field says of its matches.
    pub fn count(&self) -> (r: String)
        requires
            self@.sound(),
        ensures
            r@ == self@.count(),
    {
        let trimmed = self.query.as_str().trim();
        let n: usize = self.matches.len();
        if text::chars(trimmed).len() == 0 {
            assert(text::trimmed(self@.query) =~= seq![]);
            String::new()
        } else if n == 0 {
            "no matches".to_owned()
        } else {
            let mut out = text::decimal((self.at + 1) as u64);
            out.push_str(" of ");
            out.push_str(text::decimal(n as u64).as_str());
            out
        }
    }
}

impl SearchModel {
    /// The search once the field is opened: it comes with the query it had.
    pub open spec fn opened(self, g: GraphModel) -> SearchModel {
        let query = match self.field {
            Some(f) => f.query,
            None => self.last_query,
        };
        SearchModel {
            field: Some(
                FindModel { query, matches: seq![], at: 0, replace: seq![], replacing: false }.searched(
                    g,
                ),
            ),
            ..self
        }
    }

    /// The search once the field is closed: the query is kept.
    pub open spec fn closed(self) -> SearchModel {
        match self.field {
            Some(f) => SearchModel { field: None, last_query: f.query },
            None => self,
        }
    }
}

impl Search {
    pub fn new() -> (r: Search)
        ensures
            r@ == (SearchModel { field: None, last_query: seq![] }),
    {
        let r = Search { field: None, last_query: String::new() };
        assert(r@.last_query =~= seq![]);
        r
    }

    /// Opens the field. Opening it again keeps the query, so that it searches
    /// again.
    pub fn open(&mut self, g: &Graph)
        ensures
            final(self)@ == old(self)@.opened(g@),
            final(self)@.field matches Some(f) && f.sound(),
    {
        let query = match &self.field {
            Some(f) => f.query.clone(),
            None => self.last_query.clone(),
        };
        let mut f = Find {
            query,
            matches: Vec::new(),
            at: 0,
            replace: String::new(),
            replacing: false,
        };
        assert(f@.matches =~= seq![] && f@.replace =~= seq![]);
        f.refresh(g);
        self.field = Some(f);
    }

    /// Closes the field. Says whether it was open.
    pub fn close(&mut self) -> (r: bool)
        ensures
            final(self)@ == old(self)@.closed(),
            r == (old(self)@.field is Some),
    {
        match self.field.take() {
            Some(f) => {
                self.last_query = f.query;
                true
            },
            None => false,
        }
    }
}

/// A search survives its field: closed and opened again it has the same query and
/// finds the same.
pub proof fn a_search_survives_its_field(s: SearchModel, g: GraphModel)
    requires
        s.field is Some,
    ensures
        s.closed().opened(g).field matches Some(f) && f.query == s.field->0.query && f.matches
            == ids::listed(g.found(s.field->0.query)),
{
}

/// A step on and a step back come back to the same match.
pub proof fn a_step_back_undoes_a_step(f: FindModel)
    requires
        f.sound(),
        f.matches.len() <= usize::MAX,
    ensures
        f.stepped(true).stepped(false) == f,
        f.stepped(false).stepped(true) == f,
{
    let n = f.matches.len() as int;
    if n > 0 {
        let a = f.at as int;
        assert((a + 1) % n == (if a + 1 == n {
            0
        } else {
            a + 1
        })) by (nonlinear_arith)
            requires
                0 <= a < n,
        ;
        assert((a - 1) % n == (if a == 0 {
            n - 1
        } else {
            a - 1
        })) by (nonlinear_arith)
            requires
                0 <= a < n,
        ;
        let up = (a + 1) % n;
        let down = (a - 1) % n;
        assert((up - 1) % n == (if up == 0 {
            n - 1
        } else {
            up - 1
        })) by (nonlinear_arith)
            requires
                0 <= up < n,
        ;
        assert((down + 1) % n == (if down + 1 == n {
            0
        } else {
            down + 1
        })) by (nonlinear_arith)
            requires
                0 <= down < n,
        ;
    }
}

} // verus!
