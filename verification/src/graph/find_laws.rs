//! What is found in a map and what is replaced: the query wherever it stands,
//! whatever the case of either, and nothing else.

use vstd::prelude::*;
use crate::graph::find;
use crate::graph::find::relabel;
use crate::graph::model::{GraphModel, NodeModel};
use crate::text;

verus! {

/// The query stands at `at` of a label, whatever the case of either.
pub open spec fn stands_at(label: Seq<char>, query: Seq<char>, at: int) -> bool {
    &&& 0 <= at
    &&& at + query.len() <= label.len()
    &&& text::lowered(label.subrange(at, at + query.len())) == text::lowered(query)
}

/// The rest of a label is replaced as a label of its own.
proof fn lemma_rest(label: Seq<char>, query: Seq<char>, with: Seq<char>, from: int, i: int)
    requires
        query.len() > 0,
        0 <= from <= label.len(),
        0 <= i,
    ensures
        ({
            let n = query.len();
            let low = text::lowered(query);
            find::replaced(label, find::hits_of(label, low, n), n, with, from + i)
                == find::replaced(
                label.skip(from),
                find::hits_of(label.skip(from), low, n),
                n,
                with,
                i,
            )
        }),
    decreases
            (if from + i < label.len() {
                label.len() - from - i
            } else {
                0
            }),
{
    let n = query.len();
    let low = text::lowered(query);
    let rest = label.skip(from);
    if from + i < label.len() {
        assert(rest[i] == label[from + i]);
        if from + i + n <= label.len() {
            assert(label.subrange(from + i, from + i + n) =~= rest.subrange(i, i + n));
        }
        lemma_rest(label, query, with, from, i + n);
        lemma_rest(label, query, with, from, i + 1);
    }
}

/// Up to the first occurrence a label stays as it is.
proof fn lemma_up_to(label: Seq<char>, query: Seq<char>, with: Seq<char>, from: int, at: int)
    requires
        query.len() > 0,
        0 <= from <= at <= label.len(),
        forall|i: int| 0 <= i < at ==> !#[trigger] stands_at(label, query, i),
    ensures
        ({
            let n = query.len();
            let hits = find::hits_of(label, text::lowered(query), n);
            find::replaced(label, hits, n, with, from) == label.subrange(from, at)
                + find::replaced(label, hits, n, with, at)
        }),
    decreases at - from,
{
    let n = query.len();
    let hits = find::hits_of(label, text::lowered(query), n);
    if from == at {
        assert(label.subrange(from, at) + find::replaced(label, hits, n, with, at)
            =~= find::replaced(label, hits, n, with, at));
    } else {
        assert(!stands_at(label, query, from));
        assert(!hits[from]);
        lemma_up_to(label, query, with, from + 1, at);
        assert(label.subrange(from, at) =~= seq![label[from]] + label.subrange(from + 1, at));
        assert(find::replaced(label, hits, n, with, from) =~= label.subrange(from, at)
            + find::replaced(label, hits, n, with, at));
    }
}

/// Where the query stands in a label for the first time, whatever the case, the
/// replacement stands afterwards: what is before it stays, and what is after it is
/// gone through in the same way. A label without the query stays as it is, and an
/// empty query is nowhere.
pub proof fn every_occurrence_is_replaced(
    label: Seq<char>,
    query: Seq<char>,
    with: Seq<char>,
    at: int,
)
    ensures
        query.len() > 0 && stands_at(label, query, at) && (forall|i: int|
            0 <= i < at ==> !#[trigger] stands_at(label, query, i)) ==> relabel(label, query, with)
            == label.take(at) + with + relabel(label.skip(at + query.len()), query, with),
        (forall|i: int| !#[trigger] stands_at(label, query, i)) ==> relabel(label, query, with)
            == label,
        query.len() == 0 ==> relabel(label, query, with) == label,
{
    let n = query.len();
    let low = text::lowered(query);
    let hits = find::hits_of(label, low, n);
    if n > 0 && stands_at(label, query, at) && (forall|i: int|
        0 <= i < at ==> !#[trigger] stands_at(label, query, i)) {
        lemma_up_to(label, query, with, 0, at);
        assert(label.subrange(0, at) =~= label.take(at));
        assert(hits[at]);
        lemma_rest(label, query, with, at + n, 0);
        assert(relabel(label, query, with) =~= label.take(at) + with + relabel(
            label.skip(at + n),
            query,
            with,
        ));
    }
    if n > 0 && forall|i: int| !#[trigger] stands_at(label, query, i) {
        lemma_up_to(label, query, with, 0, label.len() as int);
        assert(label.subrange(0, label.len() as int) =~= label);
        assert(label + Seq::<char>::empty() =~= label);
    }
}

/// A label that is the query itself, or that differs from it only in case, becomes
/// the replacement.
pub proof fn the_query_itself_is_replaced(label: Seq<char>, query: Seq<char>, with: Seq<char>)
    requires
        label.len() == query.len(),
        query.len() > 0,
        text::lowered(label) == text::lowered(query),
    ensures
        relabel(label, query, with) == with,
{
    assert(label.subrange(0, label.len() as int) =~= label);
    every_occurrence_is_replaced(label, query, with, 0);
    let rest = label.skip(query.len() as int);
    assert(rest.len() == 0);
    every_occurrence_is_replaced(rest, query, with, 0);
    assert(label.take(0) + with + rest =~= with);
}

/// Replacing goes through every label of a map and leaves everything else of it
/// alone. What is counted are the labels that come out different.
pub proof fn replacing_goes_through_every_label(
    g: GraphModel,
    id: u64,
    query: Seq<char>,
    with: Seq<char>,
)
    requires
        g.has(id),
    ensures
        ({
            let h = g.all_relabelled(query, with);
            &&& h.nodes.dom() == g.nodes.dom()
            &&& h.nodes[id] == (NodeModel {
                text: relabel(g.nodes[id].text, query, with),
                ..g.nodes[id]
            })
            &&& h == (GraphModel { nodes: h.nodes, ..g })
            &&& g.changed_by(query, with).contains(id) <==> h.nodes[id].text != g.nodes[id].text
        }),
{
    assert(g.all_relabelled(query, with).nodes.dom() =~= g.nodes.dom());
}

/// What is found: exactly the nodes whose label holds the query, whatever the case
/// of either, without the white space around the query. A blank query finds nothing.
pub proof fn what_holds_the_query_is_found(
    g: GraphModel,
    id: u64,
    query: Seq<char>,
    head: Seq<char>,
    tail: Seq<char>,
)
    requires
        g.has(id),
    ensures
        ({
            let q = text::lowered(text::trimmed(query));
            let t = text::lowered(g.nodes[id].text);
            &&& q.len() > 0 && t == head + q + tail ==> g.found(query).contains(id)
            &&& g.found(query).contains(id) ==> q.len() > 0 && exists|i: int|
                0 <= i <= t.len() - q.len() && t == t.take(i) + q + #[trigger] t.skip(i + q.len())
            &&& q.len() == 0 ==> !g.found(query).contains(id)
        }),
{
    let q = text::lowered(text::trimmed(query));
    let t = text::lowered(g.nodes[id].text);
    if q.len() > 0 && t == head + q + tail {
        assert(t.subrange(head.len() as int, (head.len() + q.len()) as int) =~= q);
        assert(text::occurs_at(t, q, head.len() as int));
    }
    if g.found(query).contains(id) {
        let i = choose|i: int| #[trigger] text::occurs_at(t, q, i);
        assert(t =~= t.take(i) + q + t.skip(i + q.len()));
    }
}

/// Case does not matter: two queries that differ in it, and in the white space
/// around them, find the same, and of two labels that differ in it both are found
/// or neither. A label is found by itself.
pub proof fn finding_minds_no_case(g: GraphModel, a: u64, b: u64, query: Seq<char>, other: Seq<char>)
    requires
        g.has(a),
        g.has(b),
    ensures
        text::lowered(text::trimmed(query)) == text::lowered(text::trimmed(other)) ==> g.found(query)
            == g.found(other),
        text::lowered(g.nodes[a].text) == text::lowered(g.nodes[b].text) ==> (g.found(
            query,
        ).contains(a) <==> g.found(query).contains(b)),
        text::lowered(g.nodes[a].text) == text::lowered(text::trimmed(query)) && text::lowered(
            text::trimmed(query),
        ).len() > 0 ==> g.found(query).contains(a),
{
    let none = Seq::<char>::empty();
    let q = text::lowered(text::trimmed(query));
    assert(none + q + none =~= q);
    what_holds_the_query_is_found(g, a, query, none, none);
    if text::lowered(text::trimmed(query)) == text::lowered(text::trimmed(other)) {
        assert(g.found(query) =~= g.found(other));
    }
}

} // verus!
