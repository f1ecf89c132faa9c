//! Paths as text: joining them, and the names in them.

use vstd::prelude::*;
use crate::text;

verus! {

/// `name` inside `dir`. An absolute name stands for itself.
pub open spec fn joined(dir: Seq<char>, name: Seq<char>) -> Seq<char> {
    if name.len() > 0 && name[0] == '/' {
        name
    } else if dir.len() == 0 || dir.last() == '/' {
        dir + name
    } else {
        dir + seq!['/'] + name
    }
}

/// `name` inside `dir`.
pub fn join(dir: &str, name: &str) -> (r: String)
    ensures
        r@ == joined(dir@, name@),
{
    let d = text::chars(dir);
    let n = text::chars(name);
    if n.len() > 0 && n[0] == '/' {
        return name.to_owned();
    }
    let mut out = dir.to_owned();
    if d.len() > 0 && d[d.len() - 1] != '/' {
        out.push('/');
    }
    out.push_str(name);
    assert(out@ =~= joined(dir@, name@));
    out
}

/// Where the first slash of `s` is, or its end.
pub open spec fn slash(s: Seq<char>) -> int
    decreases s.len(),
{
    if s.len() == 0 || s[0] == '/' {
        0
    } else {
        1 + slash(s.skip(1))
    }
}

/// One of the parts of a path that names nothing: an empty one, or a dot.
pub open spec fn names_nothing(part: Seq<char>) -> bool {
    part.len() == 0 || part == seq!['.']
}

/// The parts of a path that name something.
pub open spec fn parts(path: Seq<char>) -> Seq<Seq<char>>
    decreases path.len(),
    via parts_shrinks
{
    if path.len() == 0 {
        seq![]
    } else {
        let k = slash(path);
        let rest = if k < path.len() {
            parts(path.skip(k + 1))
        } else {
            seq![]
        };
        if names_nothing(path.take(k)) {
            rest
        } else {
            seq![path.take(k)] + rest
        }
    }
}

#[via_fn]
proof fn parts_shrinks(path: Seq<char>) {
    lemma_slash(path);
}

proof fn lemma_slash(s: Seq<char>)
    ensures
        0 <= slash(s) <= s.len(),
        forall|i: int| 0 <= i < slash(s) ==> #[trigger] s[i] != '/',
        slash(s) < s.len() ==> s[slash(s)] == '/',
    decreases s.len(),
{
    if s.len() > 0 && s[0] != '/' {
        let t = s.skip(1);
        lemma_slash(t);
        assert forall|i: int| 0 <= i < slash(s) implies #[trigger] s[i] != '/' by {
            if i > 0 {
                assert(t[i - 1] == s[i]);
            }
        }
        if slash(s) < s.len() {
            assert(t[slash(t)] == s[slash(s)]);
        }
    }
}

proof fn lemma_slash_at(s: Seq<char>, k: int)
    requires
        0 <= k <= s.len(),
        forall|i: int| 0 <= i < k ==> #[trigger] s[i] != '/',
        k < s.len() ==> s[k] == '/',
    ensures
        slash(s) == k,
{
    lemma_slash(s);
    let m = slash(s);
    if m < k {
        assert(s[m] != '/');
    } else if k < m {
        assert(s[k] != '/');
    }
}

/// A part that names a file or a folder, and does not lead up.
pub open spec fn is_name(part: Seq<char>) -> bool {
    part != seq!['.', '.']
}

/// The last part of a path, if it names something.
pub open spec fn file_name(path: Seq<char>) -> Option<Seq<char>> {
    let p = parts(path);
    if p.len() > 0 && is_name(p.last()) {
        Some(p.last())
    } else {
        None
    }
}

/// The part before the last, if it names something.
pub open spec fn folder_name(path: Seq<char>) -> Option<Seq<char>> {
    let p = parts(path);
    if p.len() > 1 && is_name(p[p.len() - 2]) {
        Some(p[p.len() - 2])
    } else {
        None
    }
}

/// What follows the last dot of `s`, if there is one and it is not the first
/// character.
pub open spec fn extension(s: Seq<char>) -> Option<Seq<char>> {
    let k = last_dot(s);
    if k > 0 {
        Some(s.skip(k + 1))
    } else {
        None
    }
}

/// `s` up to its extension, if it has one.
pub open spec fn stem(s: Seq<char>) -> Seq<char> {
    let k = last_dot(s);
    if k > 0 {
        s.take(k)
    } else {
        s
    }
}

/// Where the last dot of `s` is; before its beginning if there is none.
pub open spec fn last_dot(s: Seq<char>) -> int
    decreases s.len(),
{
    if s.len() == 0 {
        -1
    } else if s.last() == '.' {
        s.len() - 1
    } else {
        last_dot(s.drop_last())
    }
}

/// The parts of a path that name something.
fn split(path: &Vec<char>) -> (r: Vec<Vec<char>>)
    ensures
        r@.len() == parts(path@).len(),
        forall|i: int| 0 <= i < r@.len() ==> (#[trigger] r@[i])@ == parts(path@)[i],
{
    let n: usize = path.len();
    let mut out: Vec<Vec<char>> = Vec::new();
    let mut at: usize = 0;
    assert(path@.skip(0) =~= path@);
    while at < n
        invariant
            n == path@.len(),
            at <= n,
            out@.len() + parts(path@.skip(at as int)).len() == parts(path@).len(),
            forall|i: int| 0 <= i < out@.len() ==> (#[trigger] out@[i])@ == parts(path@)[i],
            forall|i: int|
                0 <= i < parts(path@.skip(at as int)).len() ==> #[trigger] parts(
                    path@.skip(at as int),
                )[i] == parts(path@)[out@.len() + i],
        decreases n - at,
    {
        let ghost rest = path@.skip(at as int);
        let mut part: Vec<char> = Vec::new();
        let mut end: usize = at;
        while end < n && path[end] != '/'
            invariant
                n == path@.len(),
                at <= end <= n,
                part@ == path@.subrange(at as int, end as int),
                forall|i: int| at <= i < end ==> #[trigger] path@[i] != '/',
            decreases n - end,
        {
            part.push(path[end]);
            assert(part@ =~= path@.subrange(at as int, end + 1));
            end = end + 1;
        }
        let ghost k = end - at;
        proof {
            lemma_slash_at(rest, k);
            assert(rest.take(k) =~= part@);
            if end < n {
                assert(rest.skip(k + 1) =~= path@.skip(end + 1));
            } else {
                assert(path@.skip(n as int) =~= seq![]);
            }
        }
        let ghost after = if end < n {
            parts(path@.skip(end + 1))
        } else {
            seq![]
        };
        let nothing = part.len() == 0 || (part.len() == 1 && part[0] == '.');
        assert(nothing == names_nothing(part@)) by {
            if part@.len() == 1 && part@[0] == '.' {
                assert(part@ =~= seq!['.']);
            }
        }
        let ghost was = out@;
        if !nothing {
            out.push(part);
            proof {
                assert(parts(rest) =~= seq![part@] + after);
                assert(parts(rest)[0] == parts(path@)[was.len() as int]);
                assert forall|i: int| 0 <= i < after.len() implies #[trigger] after[i] == parts(
                    path@,
                )[was.len() + 1 + i] by {
                    assert(parts(rest)[i + 1] == parts(path@)[was.len() + (i + 1)]);
                }
            }
        } else {
            assert(parts(rest) =~= after);
        }
        at = if end < n {
            end + 1
        } else {
            end
        };
        assert(parts(path@.skip(at as int)) =~= after);
    }
    out
}

fn leads_up(part: &Vec<char>) -> (r: bool)
    ensures
        r == !is_name(part@),
{
    if part.len() == 2 && part[0] == '.' && part[1] == '.' {
        assert(part@ =~= seq!['.', '.']);
        true
    } else {
        false
    }
}

/// The name of a file and the name of the folder it is in.
pub fn names(path: &str) -> (r: (Option<String>, Option<String>))
    ensures
        match r.0 {
            Some(s) => file_name(path@) == Some(s@),
            None => file_name(path@) is None,
        },
        match r.1 {
            Some(s) => folder_name(path@) == Some(s@),
            None => folder_name(path@) is None,
        },
{
    let chars = text::chars(path);
    let p = split(&chars);
    let n: usize = p.len();
    let file: Option<String> = if n > 0 {
        if leads_up(&p[n - 1]) {
            None
        } else {
            let last = &p[n - 1];
            let s = text::join(last, 0, last.len());
            assert(s@ =~= parts(path@)[n - 1]);
            Some(s)
        }
    } else {
        None
    };
    let folder: Option<String> = if n > 1 {
        if leads_up(&p[n - 2]) {
            None
        } else {
            let last = &p[n - 2];
            let s = text::join(last, 0, last.len());
            assert(s@ =~= parts(path@)[n - 2]);
            Some(s)
        }
    } else {
        None
    };
    (file, folder)
}

/// What follows the last dot of a file's name.
pub fn extension_of(name: &Vec<char>) -> (r: Option<Vec<char>>)
    ensures
        match r {
            Some(e) => extension(name@) == Some(e@),
            None => extension(name@) is None,
        },
{
    let n: usize = name.len();
    let mut k: usize = n;
    assert(name@.take(n as int) =~= name@);
    while k > 0 && name[k - 1] != '.'
        invariant
            n == name@.len(),
            k <= n,
            last_dot(name@.take(k as int)) == last_dot(name@),
        decreases k,
    {
        assert(name@.take(k as int).drop_last() =~= name@.take(k - 1));
        k = k - 1;
    }
    if k <= 1 {
        assert(k == 0 ==> last_dot(name@.take(0)) == -1);
        return None;
    }
    assert(name@.take(k as int).last() == '.');
    let mut out: Vec<char> = Vec::new();
    let mut i: usize = k;
    while i < n
        invariant
            n == name@.len(),
            k <= i <= n,
            out@ == name@.subrange(k as int, i as int),
        decreases n - i,
    {
        out.push(name[i]);
        assert(out@ =~= name@.subrange(k as int, i + 1));
        i = i + 1;
    }
    assert(out@ =~= name@.skip(k as int));
    Some(out)
}

/// The name of the file at `path` without its extension.
pub fn file_stem(path: &str) -> (r: Option<String>)
    ensures
        match r {
            Some(s) => file_name(path@) is Some && s@ == stem(file_name(path@)->0),
            None => file_name(path@) is None,
        },
{
    let name: String = match names(path).0 {
        Some(name) => name,
        None => {
            return None;
        },
    };
    let c = text::chars(name.as_str());
    let n: usize = c.len();
    let mut k: usize = n;
    assert(c@.take(n as int) =~= c@);
    while k > 0 && c[k - 1] != '.'
        invariant
            n == c@.len(),
            k <= n,
            last_dot(c@.take(k as int)) == last_dot(c@),
        decreases k,
    {
        assert(c@.take(k as int).drop_last() =~= c@.take(k - 1));
        k = k - 1;
    }
    if k <= 1 {
        assert(k == 0 ==> last_dot(c@.take(0)) == -1);
        return Some(name);
    }
    assert(c@.take(k as int).last() == '.');
    let s = text::join(&c, 0, k - 1);
    assert(s@ =~= c@.take(k - 1));
    Some(s)
}

/// A path that begins at the top.
pub open spec fn absolute(path: Seq<char>) -> bool {
    path.len() > 0 && path[0] == '/'
}

/// A path that begins with a dot for where it is.
pub open spec fn from_here(path: Seq<char>) -> bool {
    path.take(slash(path)) == seq!['.']
}

/// What a path is made of: where it begins, if it says so, and the parts that
/// name something.
pub open spec fn components(path: Seq<char>) -> Seq<Seq<char>> {
    let begin = if absolute(path) {
        seq![seq!['/']]
    } else if from_here(path) {
        seq![seq!['.']]
    } else {
        seq![]
    };
    begin + parts(path)
}

/// Two ways to write one path.
pub open spec fn same_path(a: Seq<char>, b: Seq<char>) -> bool {
    components(a) == components(b)
}

/// A path that leads into `base`, or to it.
pub open spec fn under(path: Seq<char>, base: Seq<char>) -> bool {
    components(base).is_prefix_of(components(path))
}

fn all_components(path: &str) -> (r: Vec<Vec<char>>)
    ensures
        r@.len() == components(path@).len(),
        forall|i: int| 0 <= i < r@.len() ==> (#[trigger] r@[i])@ == components(path@)[i],
{
    let chars = text::chars(path);
    let n: usize = chars.len();
    let here = n > 0 && chars[0] == '.' && (n == 1 || chars[1] == '/');
    proof {
        lemma_slash(path@);
        if here {
            lemma_slash_at(path@, 1);
            assert(path@.take(1) =~= seq!['.']);
        } else if from_here(path@) {
            let s = path@.take(slash(path@));
            assert(s.len() == 1 && s[0] == '.');
            assert(path@[0] == s[0]);
        }
    }
    let mut out: Vec<Vec<char>> = Vec::new();
    if n > 0 && chars[0] == '/' {
        let mut top: Vec<char> = Vec::new();
        top.push('/');
        assert(top@ =~= seq!['/']);
        out.push(top);
    } else if here {
        let mut dot: Vec<char> = Vec::new();
        dot.push('.');
        assert(dot@ =~= seq!['.']);
        out.push(dot);
    }
    let ghost begin = out@.len();
    assert(begin + parts(path@).len() == components(path@).len());
    let mut rest = split(&chars);
    let ghost tail = rest@;
    out.append(&mut rest);
    assert forall|i: int| 0 <= i < out@.len() implies (#[trigger] out@[i])@ == components(
        path@,
    )[i] by {
        if i >= begin {
            assert(out@[i] == tail[i - begin]);
        }
    }
    out
}

fn agree(a: &Vec<char>, b: &Vec<char>) -> (r: bool)
    ensures
        r == (a@ == b@),
{
    if a.len() != b.len() {
        return false;
    }
    let n: usize = a.len();
    let mut i: usize = 0;
    while i < n
        invariant
            i <= n,
            n == a@.len(),
            n == b@.len(),
            forall|j: int| 0 <= j < i ==> #[trigger] a@[j] == b@[j],
        decreases n - i,
    {
        if a[i] != b[i] {
            return false;
        }
        i = i + 1;
    }
    assert(a@ =~= b@);
    true
}

/// Whether `path` leads into `base`, or to it.
pub fn is_under(path: &str, base: &str) -> (r: bool)
    ensures
        r == under(path@, base@),
{
    let p = all_components(path);
    let b = all_components(base);
    if p.len() < b.len() {
        return false;
    }
    let n: usize = b.len();
    let mut i: usize = 0;
    let ghost ps = components(path@);
    let ghost bs = components(base@);
    while i < n
        invariant
            i <= n,
            n == b@.len(),
            n <= p@.len(),
            p@.len() == ps.len(),
            b@.len() == bs.len(),
            bs == components(base@),
            ps == components(path@),
            forall|j: int| 0 <= j < p@.len() ==> (#[trigger] p@[j])@ == ps[j],
            forall|j: int| 0 <= j < b@.len() ==> (#[trigger] b@[j])@ == bs[j],
            forall|j: int| 0 <= j < i ==> #[trigger] ps[j] == bs[j],
        decreases n - i,
    {
        if !agree(&p[i], &b[i]) {
            assert(ps[i as int] != bs[i as int]);
            assert(!bs.is_prefix_of(ps)) by {
                if bs.is_prefix_of(ps) {
                    assert(ps.subrange(0, bs.len() as int)[i as int] == bs[i as int]);
                }
            }
            return false;
        }
        i = i + 1;
    }
    assert(bs =~= ps.subrange(0, bs.len() as int));
    true
}

/// Whether two texts write one path.
pub fn is_same(a: &str, b: &str) -> (r: bool)
    ensures
        r == same_path(a@, b@),
{
    let r = is_under(a, b) && is_under(b, a);
    proof {
        let ca = components(a@);
        let cb = components(b@);
        if r {
            assert(ca.len() == cb.len());
            assert(ca.subrange(0, cb.len() as int) =~= ca);
        } else if ca == cb {
            assert(ca.subrange(0, cb.len() as int) =~= ca);
        }
    }
    r
}

// ---------------------------------------------------------------------------
// What joining gives
// ---------------------------------------------------------------------------

/// One part, then a slash, then the rest.
proof fn lemma_part_then(part: Seq<char>, rest: Seq<char>)
    requires
        !part.contains('/'),
    ensures
        parts(part + seq!['/'] + rest) == (if names_nothing(part) {
            seq![]
        } else {
            seq![part]
        }) + parts(rest),
        parts(part) == (if names_nothing(part) {
            seq![]
        } else {
            seq![part]
        }),
{
    let s = part + seq!['/'] + rest;
    let k = part.len() as int;
    assert forall|i: int| 0 <= i < k implies #[trigger] s[i] != '/' by {
        assert(s[i] == part[i]);
        assert(part.contains(part[i]));
    }
    lemma_slash_at(s, k);
    assert(s.take(k) =~= part);
    assert(s.skip(k + 1) =~= rest);
    assert forall|i: int| 0 <= i < k implies #[trigger] part[i] != '/' by {
        assert(part.contains(part[i]));
    }
    lemma_slash_at(part, k);
    assert(part.take(k) =~= part);
    assert(Seq::<Seq<char>>::empty() + parts(rest) =~= parts(rest));
    if part.len() > 0 && !names_nothing(part) {
        assert(seq![part] + Seq::<Seq<char>>::empty() =~= seq![part]);
    }
}

proof fn lemma_parts_join(a: Seq<char>, b: Seq<char>)
    ensures
        parts(a + seq!['/'] + b) == parts(a) + parts(b),
    decreases a.len(),
{
    lemma_slash(a);
    let k = slash(a);
    let head = a.take(k);
    assert(!head.contains('/')) by {
        if head.contains('/') {
            let i = choose|i: int| 0 <= i < head.len() && head[i] == '/';
            assert(a[i] == '/');
        }
    }
    if k < a.len() {
        let rest = a.skip(k + 1);
        lemma_parts_join(rest, b);
        assert(a =~= head + seq!['/'] + rest);
        assert(a + seq!['/'] + b =~= head + seq!['/'] + (rest + seq!['/'] + b));
        lemma_part_then(head, rest);
        lemma_part_then(head, rest + seq!['/'] + b);
        assert(parts(a + seq!['/'] + b) =~= parts(a) + parts(b));
    } else {
        assert(head =~= a);
        lemma_part_then(a, b);
    }
}

/// A plain name: not empty, without a slash, and neither of the two that stand for a
/// folder itself or the one above it.
pub open spec fn plain_name(name: Seq<char>) -> bool {
    &&& name.len() > 0
    &&& !name.contains('/')
    &&& name != seq!['.']
    &&& name != seq!['.', '.']
}

/// What is put into a folder is in it: it has the name that it was given, the folder has
/// its own, and the path leads into the folder. An absolute path stands for itself.
pub proof fn joining_puts_a_name_into_a_folder(
    dir: Seq<char>,
    folder: Seq<char>,
    name: Seq<char>,
)
    requires
        plain_name(folder),
        plain_name(name),
    ensures
        file_name(joined(dir, name)) == Some(name),
        folder_name(joined(joined(dir, folder), name)) == Some(folder),
        dir.len() > 0 ==> under(joined(dir, name), dir),
        joined(dir, seq!['/'] + name) == seq!['/'] + name,
{
    lemma_joined(dir, name);
    lemma_joined(dir, folder);
    lemma_joined(joined(dir, folder), name);
    lemma_part_then(name, seq![]);
    let p = parts(joined(joined(dir, folder), name));
    assert(p =~= parts(dir) + seq![folder] + seq![name]);
    if dir.len() > 0 {
        let j = joined(dir, name);
        assert(j[0] == dir[0]);
        assert(absolute(j) == absolute(dir));
        lemma_from_here(dir, name);
        assert(components(dir).is_prefix_of(components(j))) by {
            let k = components(dir).len() as int;
            assert(components(j).subrange(0, k) =~= components(dir));
        }
    }
}

/// A path begins where the folder that it was put into begins.
proof fn lemma_from_here(dir: Seq<char>, name: Seq<char>)
    requires
        dir.len() > 0,
        plain_name(name),
    ensures
        from_here(joined(dir, name)) == from_here(dir),
{
    let j = joined(dir, name);
    lemma_slash(dir);
    let k = slash(dir);
    assert(dir.is_prefix_of(j)) by {
        assert(j.subrange(0, dir.len() as int) =~= dir);
    }
    if k < dir.len() {
        assert forall|i: int| 0 <= i < k implies #[trigger] j[i] != '/' by {
            assert(j[i] == dir[i]);
        }
        assert(j[k] == dir[k]);
        lemma_slash_at(j, k);
        assert(j.take(k) =~= dir.take(k));
    } else {
        assert(dir.last() != '/') by {
            assert(dir[dir.len() - 1] != '/');
        }
        assert(j == dir + seq!['/'] + name);
        assert forall|i: int| 0 <= i < k implies #[trigger] j[i] != '/' by {
            assert(j[i] == dir[i]);
        }
        assert(j[k] == '/');
        lemma_slash_at(j, k);
        assert(j.take(k) =~= dir.take(k));
    }
}

proof fn lemma_joined(dir: Seq<char>, name: Seq<char>)
    requires
        plain_name(name),
    ensures
        parts(joined(dir, name)) == parts(dir).push(name),
        joined(dir, name).len() > 0,
{
    assert(name[0] != '/') by {
        assert(name.contains(name[0]));
    }
    lemma_part_then(name, seq![]);
    if dir.len() == 0 {
        assert(dir + name =~= name);
        assert(parts(name) =~= parts(dir).push(name));
    } else if dir.last() == '/' {
        let less = dir.drop_last();
        assert(dir + name =~= less + seq!['/'] + name);
        lemma_parts_join(less, name);
        assert(dir =~= less + seq!['/'] + Seq::<char>::empty());
        lemma_parts_join(less, seq![]);
        assert(parts(less) + parts(Seq::<char>::empty()) =~= parts(less));
        assert(parts(less) + seq![name] =~= parts(dir).push(name));
    } else {
        lemma_parts_join(dir, name);
        assert(parts(dir) + seq![name] =~= parts(dir).push(name));
    }
}

/// Slashes in a row, one at the end, and a dot in between do not make another path.
pub proof fn a_path_can_be_written_in_several_ways(a: Seq<char>, b: Seq<char>)
    requires
        a.len() > 0,
        a.last() != '/',
    ensures
        same_path(a, a),
        same_path(a + seq!['/'], a),
        same_path(a + seq!['/', '/'] + b, a + seq!['/'] + b),
        same_path(a + seq!['/', '.', '/'] + b, a + seq!['/'] + b),
        same_path(a, b) == same_path(b, a),
{
    let none = Seq::<char>::empty();
    lemma_parts_join(a, none);
    assert(a + seq!['/'] + none =~= a + seq!['/']);
    assert(parts(a) + parts(none) =~= parts(a));
    lemma_begins_alike(a, none);
    lemma_begins_alike(a, b);
    let c = seq!['/'] + b;
    lemma_begins_alike(a, c);
    assert(a + seq!['/', '/'] + b =~= a + seq!['/'] + c);
    lemma_parts_join(a, c);
    lemma_parts_join(a, b);
    assert(none + seq!['/'] + b =~= c);
    lemma_part_then(none, b);
    assert(Seq::<Seq<char>>::empty() + parts(b) =~= parts(b));
    let d = seq!['.'] + seq!['/'] + b;
    lemma_begins_alike(a, d);
    assert(a + seq!['/', '.', '/'] + b =~= a + seq!['/'] + d);
    lemma_parts_join(a, d);
    assert(!seq!['.'].contains('/'));
    lemma_part_then(seq!['.'], b);
}

proof fn lemma_begins_alike(a: Seq<char>, b: Seq<char>)
    requires
        a.len() > 0,
    ensures
        absolute(a + seq!['/'] + b) == absolute(a),
        from_here(a + seq!['/'] + b) == from_here(a),
{
    let j = a + seq!['/'] + b;
    assert(j[0] == a[0]);
    lemma_slash(a);
    let k = slash(a);
    assert forall|i: int| 0 <= i < k implies #[trigger] j[i] != '/' by {
        assert(j[i] == a[i]);
    }
    if k < a.len() {
        assert(j[k] == a[k]);
    }
    lemma_slash_at(j, k);
    assert(j.take(k) =~= a.take(k));
}

proof fn lemma_last_dot(a: Seq<char>, b: Seq<char>)
    requires
        !b.contains('.'),
    ensures
        last_dot(a + seq!['.'] + b) == a.len(),
        last_dot(b) == -1,
    decreases b.len(),
{
    let s = a + seq!['.'] + b;
    if b.len() == 0 {
        assert(s.last() == '.');
    } else {
        assert(s.last() == b.last());
        assert(b.contains(b.last()));
        assert(s.drop_last() =~= a + seq!['.'] + b.drop_last());
        assert(!b.drop_last().contains('.')) by {
            if b.drop_last().contains('.') {
                let i = choose|i: int| 0 <= i < b.drop_last().len() && b.drop_last()[i] == '.';
                assert(b[i] == '.');
            }
        }
        lemma_last_dot(a, b.drop_last());
    }
}

/// The extension of a name is what follows its last dot, and its stem what is before it.
/// A name without a dot, or with one only in front, has no extension.
pub proof fn an_extension_follows_the_last_dot(a: Seq<char>, b: Seq<char>)
    requires
        !b.contains('.'),
    ensures
        a.len() > 0 ==> extension(a + seq!['.'] + b) == Some(b) && stem(a + seq!['.'] + b) == a,
        extension(b) is None && stem(b) == b,
        extension(seq!['.'] + b) is None && stem(seq!['.'] + b) == seq!['.'] + b,
{
    lemma_last_dot(a, b);
    let s = a + seq!['.'] + b;
    assert(s.skip(a.len() + 1int) =~= b);
    assert(s.take(a.len() as int) =~= a);
    lemma_last_dot(seq![], b);
    assert(Seq::<char>::empty() + seq!['.'] + b =~= seq!['.'] + b);
}

/// A name by itself is in no folder that it names.
pub proof fn lemma_single(name: Seq<char>)
    requires
        plain_name(name),
    ensures
        parts(name) == seq![name],
        folder_name(name) is None,
        file_name(name) == Some(name),
{
    lemma_part_then(name, seq![]);
}

} // verus!
