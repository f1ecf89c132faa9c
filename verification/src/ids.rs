//! Collections of identifiers: ascending lists, and the keys of a map.

use std::collections::BTreeSet;
use std::collections::HashMap;
use std::collections::HashSet;
use vstd::prelude::*;
use vstd::std_specs::iter::IteratorSpec;

verus! {

broadcast use {vstd::std_specs::hash::group_hash_axioms, vstd::std_specs::btree::group_btree_axioms};

/// Each item is greater than the one before it.
pub open spec fn increasing(v: Seq<u64>) -> bool {
    forall|i: int, j: int| 0 <= i < j < v.len() ==> #[trigger] v[i] < #[trigger] v[j]
}

/// `v` holds the members of `s`, each once, in ascending order.
pub open spec fn lists(v: Seq<u64>, s: Set<u64>) -> bool {
    &&& increasing(v)
    &&& forall|x: u64| #[trigger] v.contains(x) <==> s.contains(x)
}

/// The ascending list of a finite set.
pub open spec fn listed(s: Set<u64>) -> Seq<u64> {
    choose|v: Seq<u64>| lists(v, s)
}

/// The least member of a set, if it has one.
pub open spec fn least(s: Set<u64>) -> Option<u64> {
    if exists|x: u64| least_of(s, x) {
        Some(choose|x: u64| least_of(s, x))
    } else {
        None
    }
}

pub open spec fn least_of(s: Set<u64>, x: u64) -> bool {
    s.contains(x) && forall|y: u64| #[trigger] s.contains(y) ==> x <= y
}

/// [`slice::sort_unstable`] on integers: the same items, in ascending order.
#[verifier::external_body]
pub(crate) fn sort_ids(v: &mut Vec<u64>)
    ensures
        final(v)@.to_multiset() == old(v)@.to_multiset(),
        forall|i: int, j: int| 0 <= i < j < final(v)@.len() ==> final(v)@[i] <= final(v)@[j],
{
    v.sort_unstable();
}

/// Sorting items that are all different lists them.
pub(crate) fn sort_distinct(v: &mut Vec<u64>)
    requires
        old(v)@.no_duplicates(),
    ensures
        lists(final(v)@, old(v)@.to_set()),
        final(v)@.len() == old(v)@.len(),
{
    let ghost before = v@;
    sort_ids(v);
    proof {
        lemma_sorted(before, v@);
    }
}

proof fn lemma_sorted(before: Seq<u64>, after: Seq<u64>)
    requires
        before.no_duplicates(),
        before.to_multiset() == after.to_multiset(),
        forall|i: int, j: int| 0 <= i < j < after.len() ==> after[i] <= after[j],
    ensures
        lists(after, before.to_set()),
        after.len() == before.len(),
{
    broadcast use vstd::seq_lib::group_to_multiset_ensures;

    before.lemma_multiset_has_no_duplicates();
    assert(before.to_multiset().len() == before.len());
    assert(after.to_multiset().len() == after.len());
    assert(after.no_duplicates()) by {
        after.lemma_multiset_has_no_duplicates_conv();
    }
    assert forall|x: u64| #[trigger] after.contains(x) <==> before.to_set().contains(x) by {
        assert(after.to_multiset().count(x) == before.to_multiset().count(x));
        assert(after.contains(x) <==> after.to_multiset().count(x) > 0);
        assert(before.contains(x) <==> before.to_multiset().count(x) > 0);
        assert(before.to_set().contains(x) <==> before.contains(x));
    }
}

/// Taking one more of an ascending list, and keeping it or not.
pub proof fn lemma_take(all: Seq<u64>, i: int, before: Seq<u64>, after: Seq<u64>, kept: bool)
    requires
        increasing(all),
        0 <= i < all.len(),
        increasing(before),
        forall|x: u64| #[trigger] before.contains(x) ==> all.take(i).contains(x),
        after == (if kept {
            before.push(all[i])
        } else {
            before
        }),
    ensures
        increasing(after),
        forall|x: u64| #[trigger] all.take(i + 1).contains(x) <==> all.take(i).contains(x) || x
            == all[i],
        forall|x: u64| #[trigger] after.contains(x) <==> before.contains(x) || (kept && x == all[i]),
{
    let t = all.take(i);
    let u = all.take(i + 1);
    assert forall|x: u64| #[trigger] u.contains(x) <==> t.contains(x) || x == all[i] by {
        if t.contains(x) {
            let k = choose|k: int| 0 <= k < t.len() && t[k] == x;
            assert(u[k] == x);
        }
        if x == all[i] {
            assert(u[i] == x);
        }
        if u.contains(x) {
            let k = choose|k: int| 0 <= k < u.len() && u[k] == x;
            if k < i {
                assert(t[k] == x);
            }
        }
    }
    if kept {
        assert forall|k: int| 0 <= k < before.len() implies before[k] < all[i] by {
            assert(before.contains(before[k]));
            let m = choose|m: int| 0 <= m < i && t[m] == before[k];
            assert(all[m] < all[i]);
        }
        assert forall|x: u64| #[trigger] after.contains(x) <==> before.contains(x) || x == all[i] by {
            if before.contains(x) {
                let k = choose|k: int| 0 <= k < before.len() && before[k] == x;
                assert(after[k] == x);
            }
            if x == all[i] {
                assert(after[before.len() as int] == x);
            }
            if after.contains(x) {
                let k = choose|k: int| 0 <= k < after.len() && after[k] == x;
                if k < before.len() {
                    assert(before[k] == x);
                }
            }
        }
    }
}

/// A list of a set is as long as the set is large.
pub proof fn lemma_lists_len(v: Seq<u64>, s: Set<u64>)
    requires
        lists(v, s),
    ensures
        s.finite(),
        v.len() == s.len(),
        v.no_duplicates(),
{
    assert(v.no_duplicates());
    v.unique_seq_to_set();
    assert(v.to_set() =~= s);
}

/// The keys of a map, in no particular order.
pub(crate) fn keys<T>(m: &HashMap<u64, T>) -> (v: Vec<u64>)
    ensures
        v@.no_duplicates(),
        v@.to_set() == m@.dom(),
        v@.len() == m@.dom().len(),
{
    let mut v: Vec<u64> = Vec::new();
    let ghost all = m.keys().remaining();
    for k in it: m.keys()
        invariant
            it.seq() == all,
            v@ =~= all.unref().take(it.index()),
    {
        v.push(*k);
    }
    proof {
        assert(v@ =~= all.unref());
        assert(v@.no_duplicates());
    }
    v
}

/// The keys of a map, in ascending order.
pub(crate) fn sorted_keys<T>(m: &HashMap<u64, T>) -> (v: Vec<u64>)
    ensures
        lists(v@, m@.dom()),
        v@.len() == m@.dom().len(),
{
    let mut v = keys(m);
    sort_distinct(&mut v);
    v
}

/// A finite set has an ascending list.
pub proof fn lemma_has_list(s: Set<u64>)
    requires
        s.finite(),
    ensures
        lists(listed(s), s),
    decreases s.len(),
{
    if s.len() == 0 {
        assert(lists(Seq::<u64>::empty(), s));
    } else {
        let m = lemma_greatest(s);
        lemma_has_list(s.remove(m));
        let v = listed(s.remove(m));
        let w = v.push(m);
        assert forall|i: int, j: int| 0 <= i < j < w.len() implies #[trigger] w[i] < #[trigger] w[j] by {
            if j == v.len() {
                assert(v.contains(v[i]));
            }
        }
        assert forall|x: u64| #[trigger] w.contains(x) <==> s.contains(x) by {
            if w.contains(x) {
                let k = choose|k: int| 0 <= k < w.len() && w[k] == x;
                if k < v.len() {
                    assert(v[k] == x);
                    assert(v.contains(x));
                }
            }
            if s.contains(x) {
                if x == m {
                    assert(w[v.len() as int] == x);
                } else {
                    assert(v.contains(x));
                    let k = choose|k: int| 0 <= k < v.len() && v[k] == x;
                    assert(w[k] == x);
                }
            }
        }
        assert(lists(w, s));
    }
}

proof fn lemma_greatest(s: Set<u64>) -> (m: u64)
    requires
        s.finite(),
        s.len() > 0,
    ensures
        s.contains(m),
        forall|x: u64| #[trigger] s.contains(x) ==> x <= m,
    decreases s.len(),
{
    let a = s.choose();
    let rest = s.remove(a);
    if rest.len() == 0 {
        assert(s =~= set![a]);
        a
    } else {
        let b = lemma_greatest(rest);
        assert forall|x: u64| #[trigger] s.contains(x) implies x <= a || x <= b by {
            if x != a {
                assert(rest.contains(x));
            }
        }
        if a < b {
            b
        } else {
            a
        }
    }
}

/// A set has one ascending list.
pub proof fn lemma_listed(v: Seq<u64>, s: Set<u64>)
    requires
        lists(v, s),
    ensures
        listed(s) == v,
{
    lemma_lists_unique(v, listed(s), s);
}

pub proof fn lemma_lists_unique(v: Seq<u64>, w: Seq<u64>, s: Set<u64>)
    requires
        lists(v, s),
        lists(w, s),
    ensures
        v == w,
    decreases v.len(),
{
    lemma_lists_len(v, s);
    lemma_lists_len(w, s);
    if v.len() > 0 {
        let a = v.last();
        let b = w.last();
        assert(v.contains(a) && w.contains(b));
        assert(w.contains(a) && v.contains(b));
        let i = choose|i: int| 0 <= i < w.len() && w[i] == a;
        let j = choose|j: int| 0 <= j < v.len() && v[j] == b;
        assert(a <= b) by {
            if i < w.len() - 1 {
                assert(w[i] < w[w.len() - 1]);
            }
        }
        assert(b <= a) by {
            if j < v.len() - 1 {
                assert(v[j] < v[v.len() - 1]);
            }
        }
        lemma_lists_drop(v, s);
        lemma_lists_drop(w, s);
        lemma_lists_unique(v.drop_last(), w.drop_last(), s.remove(a));
        assert(v =~= v.drop_last().push(a));
        assert(w =~= w.drop_last().push(a));
    } else {
        assert(v =~= w);
    }
}

proof fn lemma_lists_drop(v: Seq<u64>, s: Set<u64>)
    requires
        lists(v, s),
        v.len() > 0,
    ensures
        lists(v.drop_last(), s.remove(v.last())),
{
    let d = v.drop_last();
    assert forall|x: u64| #[trigger] d.contains(x) <==> s.remove(v.last()).contains(x) by {
        if d.contains(x) {
            let k = choose|k: int| 0 <= k < d.len() && d[k] == x;
            assert(v[k] == x);
            assert(v.contains(x));
            assert(v[k] < v[v.len() - 1]);
        }
        if s.contains(x) && x != v.last() {
            assert(v.contains(x));
            let k = choose|k: int| 0 <= k < v.len() && v[k] == x;
            assert(d[k] == x);
        }
    }
}

/// What comes first of a list of a set is its least member.
pub proof fn lemma_least(v: Seq<u64>, s: Set<u64>)
    requires
        lists(v, s),
    ensures
        least(s) == (if v.len() > 0 {
            Some(v[0])
        } else {
            None
        }),
{
    if v.len() > 0 {
        assert(v.contains(v[0]));
        assert forall|y: u64| #[trigger] s.contains(y) implies v[0] <= y by {
            assert(v.contains(y));
            let k = choose|k: int| 0 <= k < v.len() && v[k] == y;
            assert(k == 0 || v[0] < v[k]);
        }
        assert(least_of(s, v[0]));
        let x = choose|x: u64| least_of(s, x);
        assert(least_of(s, x));
        assert(s.contains(x) && s.contains(v[0]));
    } else {
        assert forall|x: u64| !least_of(s, x) by {
            assert(v.contains(x) <==> s.contains(x));
        }
    }
}

/// The set of the items of a list.
pub(crate) fn set_of(v: &Vec<u64>) -> (s: BTreeSet<u64>)
    ensures
        s@ == v@.to_set(),
{
    let mut s: BTreeSet<u64> = BTreeSet::new();
    add_all(&mut s, v);
    assert(s@ =~= v@.to_set());
    s
}

/// Add every item of a list to a set.
pub(crate) fn add_all(s: &mut BTreeSet<u64>, v: &Vec<u64>)
    ensures
        final(s)@ == old(s)@.union(v@.to_set()),
{
    let ghost before = s@;
    let mut i: usize = 0;
    while i < v.len()
        invariant
            i <= v@.len(),
            forall|x: u64| #[trigger]
                s@.contains(x) <==> before.contains(x) || v@.take(i as int).contains(x),
        decreases v@.len() - i,
    {
        s.insert(v[i]);
        proof {
            lemma_contains_push(v@, i as int);
        }
        i = i + 1;
    }
    proof {
        assert(v@.take(i as int) =~= v@);
        assert(s@ =~= before.union(v@.to_set()));
    }
}

/// Taking one more item of a list.
pub proof fn lemma_contains_push(v: Seq<u64>, i: int)
    requires
        0 <= i < v.len(),
    ensures
        forall|x: u64| #[trigger] v.take(i + 1).contains(x) <==> v.take(i).contains(x) || x == v[i],
{
    let t = v.take(i);
    let u = v.take(i + 1);
    assert forall|x: u64| #[trigger] u.contains(x) <==> t.contains(x) || x == v[i] by {
        if t.contains(x) {
            let k = choose|k: int| 0 <= k < t.len() && t[k] == x;
            assert(u[k] == x);
        }
        if x == v[i] {
            assert(u[i] == x);
        }
        if u.contains(x) {
            let k = choose|k: int| 0 <= k < u.len() && u[k] == x;
            if k < i {
                assert(t[k] == x);
            }
        }
    }
}

/// The set of the items of a list, for looking them up.
pub(crate) fn lookup(v: &Vec<u64>) -> (s: HashSet<u64>)
    ensures
        s@ == v@.to_set(),
{
    let mut s: HashSet<u64> = HashSet::new();
    let mut i: usize = 0;
    while i < v.len()
        invariant
            i <= v@.len(),
            forall|x: u64| #[trigger] s@.contains(x) <==> v@.take(i as int).contains(x),
        decreases v@.len() - i,
    {
        s.insert(v[i]);
        proof {
            lemma_contains_push(v@, i as int);
        }
        i = i + 1;
    }
    proof {
        assert(v@.take(i as int) =~= v@);
        assert(s@ =~= v@.to_set());
    }
    s
}

/// The members of a set, in ascending order.
pub(crate) fn members(s: &BTreeSet<u64>) -> (v: Vec<u64>)
    ensures
        lists(v@, s@),
{
    let mut v: Vec<u64> = Vec::new();
    let ghost all = s.iter().remaining();
    for k in it: s.iter()
        invariant
            it.seq() == all,
            v@ =~= all.unref().take(it.index()),
    {
        v.push(*k);
    }
    proof {
        assert(v@ =~= all.unref());
        assert(v@.no_duplicates());
    }
    sort_distinct(&mut v);
    v
}

} // verus!
