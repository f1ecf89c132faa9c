//! Finding labels and replacing parts of them, whatever their case.

use vstd::prelude::*;
use crate::graph::model::{GraphModel, NodeModel};
use crate::graph::sanitize;
use crate::graph::Graph;
use crate::ids;
use crate::text;

verus! {

broadcast use {vstd::std_specs::hash::group_hash_axioms, vstd::std_specs::btree::group_btree_axioms};

/// Where a stretch of `n` characters of a label is the query in lower case.
pub open spec fn hits_of(label: Seq<char>, lower: Seq<char>, n: nat) -> Seq<bool> {
    Seq::new(
        label.len(),
        |i: int| i + n <= label.len() && text::lowered(label.subrange(i, i + n)) == lower,
    )
}

/// The rest of a label from `i` on, with `with` in place of every stretch of `n`
/// characters that is hit, from the left.
pub open spec fn replaced(
    label: Seq<char>,
    hits: Seq<bool>,
    n: nat,
    with: Seq<char>,
    i: int,
) -> Seq<char>
    decreases
            (if i < label.len() {
                label.len() - i
            } else {
                0
            }),
{
    if i < 0 || i >= label.len() {
        seq![]
    } else if n > 0 && hits[i] {
        with + replaced(label, hits, n, with, i + n)
    } else {
        seq![label[i]] + replaced(label, hits, n, with, i + 1)
    }
}

/// A label with every occurrence of the query replaced.
pub open spec fn relabel(t: Seq<char>, query: Seq<char>, with: Seq<char>) -> Seq<char> {
    if query.len() == 0 {
        t
    } else {
        replaced(t, hits_of(t, text::lowered(query), query.len()), query.len(), with, 0)
    }
}

impl GraphModel {
    /// The nodes whose label holds the query, whatever the case.
    pub open spec fn found(self, query: Seq<char>) -> Set<u64> {
        let q = text::lowered(text::trimmed(query));
        if q.len() == 0 {
            Set::empty()
        } else {
            self.nodes.dom().filter(
                |id: u64| text::occurs(text::lowered(self.nodes[id].text), q),
            )
        }
    }

    /// The label of `id` with every occurrence of the query replaced.
    pub open spec fn relabelled(self, id: u64, query: Seq<char>, with: Seq<char>) -> Seq<char> {
        relabel(self.nodes[id].text, query, with)
    }

    /// Every label with every occurrence of the query replaced.
    pub open spec fn all_relabelled(self, query: Seq<char>, with: Seq<char>) -> GraphModel {
        GraphModel {
            nodes: self.nodes.map_entries(
                |id: u64, n: NodeModel| NodeModel { text: self.relabelled(id, query, with), ..n },
            ),
            ..self
        }
    }

    /// The nodes that a replacement changes.
    pub open spec fn changed_by(self, query: Seq<char>, with: Seq<char>) -> Set<u64> {
        self.nodes.dom().filter(
            |id: u64| self.relabelled(id, query, with) != self.nodes[id].text,
        )
    }
}

/// A label with `with` in place of every stretch of `n` characters that is hit.
pub fn replace_hits(label: &Vec<char>, hits: &Vec<bool>, n: usize, with: &str) -> (r: String)
    requires
        hits@.len() == label@.len(),
    ensures
        r@ == replaced(label@, hits@, n as nat, with@, 0),
{
    let mut out = String::new();
    let mut i: usize = 0;
    let len: usize = label.len();
    assert(out@ + replaced(label@, hits@, n as nat, with@, 0) =~= replaced(
        label@,
        hits@,
        n as nat,
        with@,
        0,
    ));
    while i < len
        invariant
            len == label@.len(),
            hits@.len() == len,
            i <= len,
            out@ + replaced(label@, hits@, n as nat, with@, i as int) == replaced(
                label@,
                hits@,
                n as nat,
                with@,
                0,
            ),
        decreases len - i,
    {
        let ghost was = out@;
        if n > 0 && hits[i] {
            out.push_str(with);
            proof {
                let rest = replaced(label@, hits@, n as nat, with@, i + n);
                assert(was + (with@ + rest) =~= (was + with@) + rest);
            }
            if n >= len - i {
                assert(out@ + Seq::<char>::empty() =~= out@);
                return out;
            }
            i = i + n;
        } else {
            out.push(label[i]);
            proof {
                let rest = replaced(label@, hits@, n as nat, with@, i + 1);
                assert(was + (seq![label@[i as int]] + rest) =~= was.push(label@[i as int]) + rest);
            }
            i = i + 1;
        }
    }
    assert(out@ + Seq::<char>::empty() =~= out@);
    out
}

/// Where a stretch of `n` characters of a label is the query in lower case.
fn find_hits(label: &Vec<char>, lower: &String, n: usize) -> (r: Vec<bool>)
    ensures
        r@ == hits_of(label@, lower@, n as nat),
{
    let mut out: Vec<bool> = Vec::new();
    let len: usize = label.len();
    let mut i: usize = 0;
    while i < len
        invariant
            len == label@.len(),
            i <= len,
            out@ == hits_of(label@, lower@, n as nat).take(i as int),
        decreases len - i,
    {
        let hit = if n <= len - i {
            let window = text::join(label, i, i + n);
            window.as_str().to_lowercase() == *lower
        } else {
            false
        };
        out.push(hit);
        assert(out@ =~= hits_of(label@, lower@, n as nat).take(i + 1));
        i = i + 1;
    }
    assert(out@ =~= hits_of(label@, lower@, n as nat));
    out
}

impl Graph {
    /// Nodes whose label contains `query`, case-insensitively, in ascending order.
    /// Folded-away nodes are included: not being able to find something because
    /// you folded it is exactly the case find exists for.
    pub fn find(&self, query: &str) -> (r: Vec<u64>)
        ensures
            ids::lists(r@, self@.found(query@)),
    {
        let lower = query.trim().to_lowercase();
        let q = text::chars(lower.as_str());
        let mut out: Vec<u64> = Vec::new();
        if q.len() == 0 {
            return out;
        }
        let all = ids::sorted_keys(&self.nodes);
        let mut i: usize = 0;
        while i < all.len()
            invariant
                i <= all@.len(),
                q@ == text::lowered(text::trimmed(query@)),
                q@.len() > 0,
                ids::lists(all@, self.nodes@.dom()),
                ids::increasing(out@),
                forall|x: u64| #[trigger]
                    out@.contains(x) <==> all@.take(i as int).contains(x) && self@.found(
                        query@,
                    ).contains(x),
            decreases all@.len() - i,
        {
            let id: u64 = all[i];
            let ghost before = out@;
            assert(all@.contains(id));
            let kept = match self.nodes.get(&id) {
                Some(n) => {
                    let label = n.text.as_str().to_lowercase();
                    let label = text::chars(label.as_str());
                    text::has_part(&label, &q)
                },
                None => false,
            };
            if kept {
                out.push(id);
            }
            proof {
                ids::lemma_take(all@, i as int, before, out@, kept);
            }
            i = i + 1;
        }
        assert(all@.take(i as int) =~= all@);
        out
    }

    /// Replace every case-insensitive occurrence of `query` with `replacement`
    /// across all labels. Returns how many labels changed. Only a real change
    /// counts — replacing a term with itself is a no-op.
    pub fn replace_all(&mut self, query: &str, replacement: &str) -> (changed: usize)
        ensures
            final(self)@ == old(self)@.all_relabelled(query@, replacement@),
            changed == old(self)@.changed_by(query@, replacement@).len(),
    {
        let ghost g = self@;
        let lower = query.to_lowercase();
        let n: usize = text::chars(query).len();
        if n == 0 {
            proof {
                assert(g.all_relabelled(query@, replacement@).nodes =~= g.nodes);
                assert(g.changed_by(query@, replacement@) =~= Set::<u64>::empty());
            }
            return 0;
        }
        let all = ids::keys(&self.nodes);
        let ghost mut hit: Set<u64> = Set::empty();
        let mut changed: usize = 0;
        let mut i: usize = 0;
        assert(g.nodes.dom() =~= self.nodes@.dom());
        while i < all.len()
            invariant
                i <= all@.len(),
                n == query@.len(),
                n > 0,
                lower@ == text::lowered(query@),
                all@.no_duplicates(),
                all@.to_set() == g.nodes.dom(),
                self@ == (GraphModel { nodes: self@.nodes, ..g }),
                self@.nodes.dom() == g.nodes.dom(),
                hit.finite(),
                changed == hit.len(),
                changed <= i,
                forall|x: u64| #[trigger]
                    hit.contains(x) <==> all@.take(i as int).contains(x) && g.changed_by(
                        query@,
                        replacement@,
                    ).contains(x),
                forall|x: u64| #[trigger]
                    g.nodes.dom().contains(x) ==> self@.nodes[x] == (if all@.take(
                        i as int,
                    ).contains(x) {
                        NodeModel { text: g.relabelled(x, query@, replacement@), ..g.nodes[x] }
                    } else {
                        g.nodes[x]
                    }),
            decreases all@.len() - i,
        {
            let id: u64 = all[i];
            let ghost was = hit;
            proof {
                sanitize::lemma_fresh(all@, i as int);
                assert(all@.contains(id));
                assert(all@.to_set().contains(id));
                assert(g.nodes.dom().contains(id));
            }
            match self.nodes.remove(&id) {
                Some(node) => {
                    let mut node = node;
                    assert(node@ == g.nodes[id]);
                    let label = text::chars(node.text.as_str());
                    let hits = find_hits(&label, &lower, n);
                    let out = replace_hits(&label, &hits, n, replacement);
                    assert(out@ == g.relabelled(id, query@, replacement@));
                    if out != node.text {
                        node.text = out;
                        changed = changed + 1;
                        proof {
                            hit = was.insert(id);
                        }
                    }
                    self.nodes.insert(id, node);
                    assert(node@ =~= NodeModel {
                        text: g.relabelled(id, query@, replacement@),
                        ..g.nodes[id]
                    });
                },
                None => {},
            }
            assert(self@.nodes.dom() =~= g.nodes.dom());
            i = i + 1;
        }
        proof {
            assert(all@.take(i as int) =~= all@);
            assert forall|x: u64| #[trigger] g.nodes.dom().contains(x) implies all@.contains(x) by {
                assert(all@.to_set().contains(x));
            }
            assert(hit =~= g.changed_by(query@, replacement@));
            assert(self@.nodes =~= g.all_relabelled(query@, replacement@).nodes);
        }
        changed
    }
}

} // verus!
