//! The five characters that cannot sit raw in a quoted XML attribute.

use vstd::prelude::*;

verus! {

/// How a character is written inside an attribute.
pub open spec fn escaped_char(c: char) -> Seq<char> {
    if c == '&' {
        seq!['&', 'a', 'm', 'p', ';']
    } else if c == '<' {
        seq!['&', 'l', 't', ';']
    } else if c == '>' {
        seq!['&', 'g', 't', ';']
    } else if c == '"' {
        seq!['&', 'q', 'u', 'o', 't', ';']
    } else if c == '\'' {
        seq!['&', 'a', 'p', 'o', 's', ';']
    } else {
        seq![c]
    }
}

/// A text with every character written as `how` says.
pub open spec fn spelled(s: Seq<char>, how: spec_fn(char) -> Seq<char>) -> Seq<char>
    decreases s.len(),
{
    if s.len() == 0 {
        seq![]
    } else {
        how(s[0]) + spelled(s.skip(1), how)
    }
}

/// A text as it is written inside an attribute.
pub open spec fn escaped(s: Seq<char>) -> Seq<char> {
    spelled(s, |c: char| escaped_char(c))
}

/// `s` with every `part`, from the left, replaced by `with`.
pub open spec fn swapped(s: Seq<char>, part: Seq<char>, with: Seq<char>) -> Seq<char>
    decreases s.len(),
{
    if s.len() == 0 {
        seq![]
    } else if 0 < part.len() <= s.len() && s.take(part.len() as int) == part {
        with + swapped(s.skip(part.len() as int), part, with)
    } else {
        seq![s[0]] + swapped(s.skip(1), part, with)
    }
}

pub open spec fn less_than() -> Seq<char> {
    seq!['&', 'l', 't', ';']
}

pub open spec fn greater_than() -> Seq<char> {
    seq!['&', 'g', 't', ';']
}

pub open spec fn quote() -> Seq<char> {
    seq!['&', 'q', 'u', 'o', 't', ';']
}

pub open spec fn apostrophe() -> Seq<char> {
    seq!['&', 'a', 'p', 'o', 's', ';']
}

pub open spec fn ampersand() -> Seq<char> {
    seq!['&', 'a', 'm', 'p', ';']
}

/// A text read from inside an attribute. The ampersand comes last, so that what
/// it makes is not read again.
pub open spec fn unescaped(s: Seq<char>) -> Seq<char> {
    let s = swapped(s, less_than(), seq!['<']);
    let s = swapped(s, greater_than(), seq!['>']);
    let s = swapped(s, quote(), seq!['"']);
    let s = swapped(s, apostrophe(), seq!['\'']);
    swapped(s, ampersand(), seq!['&'])
}

/// A text as it is written inside an attribute.
pub fn xml_escape(s: &Vec<char>) -> (r: Vec<char>)
    ensures
        r@ == escaped(s@),
{
    let mut out: Vec<char> = Vec::new();
    let ghost how = |c: char| escaped_char(c);
    let mut i: usize = 0;
    assert(s@.skip(0) =~= s@);
    assert(out@ + spelled(s@, how) =~= spelled(s@, how));
    while i < s.len()
        invariant
            i <= s@.len(),
            how == (|c: char| escaped_char(c)),
            out@ + spelled(s@.skip(i as int), how) == spelled(s@, how),
        decreases s@.len() - i,
    {
        let c: char = s[i];
        let ghost was = out@;
        if c == '&' {
            put5(&mut out, '&', 'a', 'm', 'p', ';');
        } else if c == '<' {
            put4(&mut out, '&', 'l', 't', ';');
        } else if c == '>' {
            put4(&mut out, '&', 'g', 't', ';');
        } else if c == '"' {
            out.push('&');
            put5(&mut out, 'q', 'u', 'o', 't', ';');
        } else if c == '\'' {
            out.push('&');
            put5(&mut out, 'a', 'p', 'o', 's', ';');
        } else {
            out.push(c);
        }
        proof {
            let rest = s@.skip(i as int);
            assert(rest[0] == c);
            assert(rest.skip(1) =~= s@.skip(i + 1));
            assert(out@ =~= was + escaped_char(c));
            assert(was + (escaped_char(c) + spelled(rest.skip(1), how)) =~= (was + escaped_char(c))
                + spelled(rest.skip(1), how));
        }
        i = i + 1;
    }
    assert(out@ + Seq::<char>::empty() =~= out@);
    out
}

fn put4(out: &mut Vec<char>, a: char, b: char, c: char, d: char)
    ensures
        final(out)@ == old(out)@ + seq![a, b, c, d],
{
    out.push(a);
    out.push(b);
    out.push(c);
    out.push(d);
    assert(out@ =~= old(out)@ + seq![a, b, c, d]);
}

fn put5(out: &mut Vec<char>, a: char, b: char, c: char, d: char, e: char)
    ensures
        final(out)@ == old(out)@ + seq![a, b, c, d, e],
{
    out.push(a);
    put4(out, b, c, d, e);
    assert(out@ =~= old(out)@ + seq![a, b, c, d, e]);
}

/// `part` stands in `s` at `at`.
fn stands_at(s: &Vec<char>, part: &Vec<char>, at: usize) -> (r: bool)
    requires
        at <= s@.len(),
    ensures
        r == (part@.len() <= s@.skip(at as int).len() && s@.skip(at as int).take(part@.len() as int)
            == part@),
{
    let n: usize = s.len();
    if part.len() > n - at {
        return false;
    }
    let mut k: usize = 0;
    while k < part.len()
        invariant
            n == s@.len(),
            at + part@.len() <= n,
            k <= part@.len(),
            forall|m: int| 0 <= m < k ==> s@[at + m] == #[trigger] part@[m],
        decreases part@.len() - k,
    {
        if s[at + k] != part[k] {
            assert(s@.skip(at as int).take(part@.len() as int)[k as int] != part@[k as int]);
            return false;
        }
        k = k + 1;
    }
    assert(s@.skip(at as int).take(part@.len() as int) =~= part@);
    true
}

/// `s` with every `part`, from the left, replaced by one character.
fn swap_all(s: &Vec<char>, part: &Vec<char>, with: char) -> (r: Vec<char>)
    requires
        part@.len() > 0,
    ensures
        r@ == swapped(s@, part@, seq![with]),
{
    let mut out: Vec<char> = Vec::new();
    let mut i: usize = 0;
    let n: usize = s.len();
    assert(s@.skip(0) =~= s@);
    assert(out@ + swapped(s@, part@, seq![with]) =~= swapped(s@, part@, seq![with]));
    while i < n
        invariant
            n == s@.len(),
            i <= n,
            part@.len() > 0,
            out@ + swapped(s@.skip(i as int), part@, seq![with]) == swapped(s@, part@, seq![with]),
        decreases n - i,
    {
        let ghost was = out@;
        let ghost rest = s@.skip(i as int);
        if stands_at(s, part, i) {
            out.push(with);
            proof {
                let m = part@.len() as int;
                assert(rest.skip(m) =~= s@.skip(i + m));
                assert(was + (seq![with] + swapped(rest.skip(m), part@, seq![with])) =~= out@
                    + swapped(rest.skip(m), part@, seq![with]));
            }
            i = i + part.len();
        } else {
            out.push(s[i]);
            proof {
                assert(rest.skip(1) =~= s@.skip(i + 1));
                assert(was + (seq![rest[0]] + swapped(rest.skip(1), part@, seq![with])) =~= out@
                    + swapped(rest.skip(1), part@, seq![with]));
            }
            i = i + 1;
        }
    }
    assert(out@ + Seq::<char>::empty() =~= out@);
    out
}

/// A text read from inside an attribute.
pub fn xml_unescape(s: &Vec<char>) -> (r: Vec<char>)
    ensures
        r@ == unescaped(s@),
{
    let lt: Vec<char> = vec!['&', 'l', 't', ';'];
    let gt: Vec<char> = vec!['&', 'g', 't', ';'];
    let quot: Vec<char> = vec!['&', 'q', 'u', 'o', 't', ';'];
    let apos: Vec<char> = vec!['&', 'a', 'p', 'o', 's', ';'];
    let amp: Vec<char> = vec!['&', 'a', 'm', 'p', ';'];
    proof {
        assert(lt@ =~= less_than());
        assert(gt@ =~= greater_than());
        assert(quot@ =~= quote());
        assert(apos@ =~= apostrophe());
        assert(amp@ =~= ampersand());
    }
    let s = swap_all(s, &lt, '<');
    let s = swap_all(&s, &gt, '>');
    let s = swap_all(&s, &quot, '"');
    let s = swap_all(&s, &apos, '\'');
    swap_all(&s, &amp, '&')
}

// ---------------------------------------------------------------------------
// Reading back what was written
// ---------------------------------------------------------------------------

/// A stretch in which `part` cannot begin is copied.
proof fn lemma_walk(t: Seq<char>, rest: Seq<char>, part: Seq<char>, with: Seq<char>)
    requires
        part.len() > 0,
        forall|j: int|
            0 <= j < t.len() ==> (#[trigger] t[j]) != part[0] || exists|m: int|
                0 <= m < part.len() && j + m < t.len() && t[j + m] != #[trigger] part[m],
    ensures
        swapped(t + rest, part, with) == t + swapped(rest, part, with),
    decreases t.len(),
{
    if t.len() == 0 {
        assert(t + rest =~= rest);
        assert(t + swapped(rest, part, with) =~= swapped(rest, part, with));
    } else {
        let u = t.skip(1);
        let s = t + rest;
        assert(s.skip(1) =~= u + rest);
        assert forall|j: int| 0 <= j < u.len() implies (#[trigger] u[j]) != part[0] || exists|m: int|
            0 <= m < part.len() && j + m < u.len() && u[j + m] != #[trigger] part[m] by {
            assert(u[j] == t[j + 1]);
            if t[j + 1] == part[0] {
                let m = choose|m: int|
                    0 <= m < part.len() && j + 1 + m < t.len() && t[j + 1 + m] != #[trigger] part[m];
                assert(u[j + m] == t[j + 1 + m]);
            }
        }
        lemma_walk(u, rest, part, with);
        assert(!(part.len() <= s.len() && s.take(part.len() as int) == part)) by {
            if part.len() <= s.len() && s.take(part.len() as int) == part {
                assert(s.take(part.len() as int)[0] == t[0]);
                let m = choose|m: int|
                    0 <= m < part.len() && 0 + m < t.len() && t[0 + m] != #[trigger] part[m];
                assert(s.take(part.len() as int)[m] == t[m]);
            }
        }
        assert(s[0] == t[0]);
        assert(seq![t[0]] + (u + swapped(rest, part, with)) =~= t + swapped(rest, part, with));
    }
}

/// `part` itself is replaced.
proof fn lemma_swap(rest: Seq<char>, part: Seq<char>, with: Seq<char>)
    requires
        part.len() > 0,
    ensures
        swapped(part + rest, part, with) == with + swapped(rest, part, with),
{
    let s = part + rest;
    assert(s.take(part.len() as int) =~= part);
    assert(s.skip(part.len() as int) =~= rest);
}

/// How a character is still written after the first `n` kinds of entity have been
/// read back.
spec fn stage(n: nat) -> spec_fn(char) -> Seq<char> {
    |c: char|
        if c == '<' && n >= 1 {
            seq!['<']
        } else if c == '>' && n >= 2 {
            seq!['>']
        } else if c == '"' && n >= 3 {
            seq!['"']
        } else if c == '\'' && n >= 4 {
            seq!['\'']
        } else if c == '&' && n >= 5 {
            seq!['&']
        } else {
            escaped_char(c)
        }
}

spec fn entity(n: nat) -> Seq<char> {
    if n == 0 {
        less_than()
    } else if n == 1 {
        greater_than()
    } else if n == 2 {
        quote()
    } else if n == 3 {
        apostrophe()
    } else {
        ampersand()
    }
}

spec fn meaning(n: nat) -> Seq<char> {
    if n == 0 {
        seq!['<']
    } else if n == 1 {
        seq!['>']
    } else if n == 2 {
        seq!['"']
    } else if n == 3 {
        seq!['\'']
    } else {
        seq!['&']
    }
}

/// Reading one kind of entity back.
proof fn lemma_stage(s: Seq<char>, n: nat)
    requires
        n < 5,
    ensures
        swapped(spelled(s, stage(n)), entity(n), meaning(n)) == spelled(s, stage(n + 1)),
    decreases s.len(),
{
    let part = entity(n);
    let with = meaning(n);
    if s.len() > 0 {
        let c = s[0];
        let t = (stage(n))(c);
        let rest = spelled(s.skip(1), stage(n));
        lemma_stage(s.skip(1), n);
        if t == part {
            lemma_swap(rest, part, with);
            assert((stage(n + 1))(c) =~= with) by {
                assert(t[1] == part[1]);
                assert(t.len() == part.len());
            }
        } else {
            assert((stage(n + 1))(c) =~= t) by {
                if n == 0 {
                    assert(c != '<');
                } else if n == 1 {
                    assert(c != '>');
                } else if n == 2 {
                    assert(c != '"');
                } else if n == 3 {
                    assert(c != '\'');
                } else if n == 4 {
                    assert(c != '&');
                }
            }
            assert(part[0] == '&');
            assert forall|j: int| 0 <= j < t.len() implies (#[trigger] t[j]) != part[0] || exists|
                m: int,
            |
                0 <= m < part.len() && j + m < t.len() && t[j + m] != #[trigger] part[m] by {
                if t[j] == '&' {
                    assert(j == 0);
                    if n == 3 {
                        assert(t[1] != part[1] || t[2] != part[2]);
                        if t[1] != part[1] {
                            assert(t[j + 1] != part[1]);
                        } else {
                            assert(t[j + 2] != part[2]);
                        }
                    } else {
                        assert(t[j + 1] != part[1]);
                    }
                }
            }
            lemma_walk(t, rest, part, with);
        }
    }
}

/// Spelling every character as itself changes nothing.
proof fn lemma_plain(s: Seq<char>)
    ensures
        spelled(s, stage(5)) == s,
    decreases s.len(),
{
    if s.len() > 0 {
        lemma_plain(s.skip(1));
        assert(s =~= seq![s[0]] + s.skip(1));
    }
}

/// What is written into an attribute reads back as it was.
pub proof fn unescape_undoes_escape(s: Seq<char>)
    ensures
        unescaped(escaped(s)) == s,
{
    let how = |c: char| escaped_char(c);
    assert(how =~= stage(0));
    lemma_stage(s, 0);
    lemma_stage(s, 1);
    lemma_stage(s, 2);
    lemma_stage(s, 3);
    lemma_stage(s, 4);
    lemma_plain(s);
}

/// Nothing that ends an attribute or a tag is left raw in it.
pub proof fn escaped_is_safe(s: Seq<char>)
    ensures
        forall|i: int|
            0 <= i < escaped(s).len() ==> (#[trigger] escaped(s)[i]) != '<' && escaped(s)[i] != '>'
                && escaped(s)[i] != '"' && escaped(s)[i] != '\'',
    decreases s.len(),
{
    let how = |c: char| escaped_char(c);
    if s.len() > 0 {
        escaped_is_safe(s.skip(1));
        let t = escaped_char(s[0]);
        let rest = spelled(s.skip(1), how);
        assert(escaped(s) == t + rest);
        assert forall|i: int| 0 <= i < escaped(s).len() implies (#[trigger] escaped(s)[i]) != '<'
            && escaped(s)[i] != '>' && escaped(s)[i] != '"' && escaped(s)[i] != '\'' by {
            if i < t.len() {
                assert(escaped(s)[i] == t[i]);
            } else {
                assert(escaped(s)[i] == escaped(s.skip(1))[i - t.len()]);
            }
        }
    }
}

/// How a text is written: each character on its own, the five that cannot stand raw by
/// their names, and every other as it is.
pub proof fn five_characters_are_escaped(a: Seq<char>, c: char, b: Seq<char>)
    ensures
        escaped(a + seq![c] + b) == escaped(a) + escaped(seq![c]) + escaped(b),
        escaped(seq!['&']) == "&amp;"@,
        escaped(seq!['<']) == "&lt;"@,
        escaped(seq!['>']) == "&gt;"@,
        escaped(seq!['"']) == "&quot;"@,
        escaped(seq!['\'']) == "&apos;"@,
        c != '&' && c != '<' && c != '>' && c != '"' && c != '\'' ==> escaped(seq![c]) == seq![c],
        escaped(seq![]).len() == 0,
{
    reveal_strlit("&amp;");
    reveal_strlit("&lt;");
    reveal_strlit("&gt;");
    reveal_strlit("&quot;");
    reveal_strlit("&apos;");
    lemma_spelled_join(a + seq![c], b);
    lemma_spelled_join(a, seq![c]);
    lemma_spelled_one('&');
    lemma_spelled_one('<');
    lemma_spelled_one('>');
    lemma_spelled_one('"');
    lemma_spelled_one('\'');
    lemma_spelled_one(c);
    assert(escaped(seq!['&']) =~= "&amp;"@);
    assert(escaped(seq!['<']) =~= "&lt;"@);
    assert(escaped(seq!['>']) =~= "&gt;"@);
    assert(escaped(seq!['"']) =~= "&quot;"@);
    assert(escaped(seq!['\'']) =~= "&apos;"@);
}

proof fn lemma_spelled_one(c: char)
    ensures
        escaped(seq![c]) == escaped_char(c),
{
    let how = |c: char| escaped_char(c);
    assert(seq![c].skip(1) =~= seq![]);
    assert(spelled(seq![c].skip(1), how).len() == 0);
    assert(escaped(seq![c]) =~= escaped_char(c));
}

proof fn lemma_spelled_join(a: Seq<char>, b: Seq<char>)
    ensures
        escaped(a + b) == escaped(a) + escaped(b),
    decreases a.len(),
{
    let how = |c: char| escaped_char(c);
    if a.len() == 0 {
        assert(a + b =~= b);
        assert(escaped(a) + escaped(b) =~= escaped(b));
    } else {
        lemma_spelled_join(a.skip(1), b);
        assert((a + b).skip(1) =~= a.skip(1) + b);
        assert((a + b)[0] == a[0]);
        assert(escaped(a + b) =~= escaped(a) + escaped(b));
    }
}

} // verus!
