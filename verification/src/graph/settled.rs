//! A map that needs no repair is left alone.

use vstd::prelude::*;
use crate::graph::fold;
use crate::graph::laws;
use crate::graph::model::{GraphModel, NodeModel};
use crate::graph::sanitize;
use crate::graph::spatial;

verus! {

impl GraphModel {
    /// Every node is somewhere, and every picture has a sane size.
    pub open spec fn places_ok(self) -> bool {
        forall|id: u64| #[trigger]
            self.has(id) ==> self.nodes[id] == spatial::placed(self.nodes[id])
    }

    /// The map with every node somewhere and every picture of a sane size.
    pub open spec fn all_placed(self) -> GraphModel {
        GraphModel { nodes: self.nodes.map_values(|n: NodeModel| spatial::placed(n)), ..self }
    }
}

proof fn lemma_cleaned(g: GraphModel)
    requires
        g.tree_ok(),
        g.places_ok(),
    ensures
        g.with_root() == g,
        g.cleaned() == g,
        g.unlooped() == g,
{
    let c = g.cleaned();
    assert forall|id: u64| #[trigger] g.has(id) implies c.nodes[id] == g.nodes[id] by {
        assert(g.rooted(id));
        if let Some(p) = g.parent_of(id) {
            assert(g.has(p));
            if p == id {
                reveal_with_fuel(GraphModel::ancestor, 2);
                assert(g.ancestor(id, 1) == Some(id));
                laws::lemma_no_loop(g, id, 1);
            }
        }
    }
    assert(c.nodes =~= g.nodes);
    assert(c == g);
    let u = g.unlooped();
    assert forall|id: u64| #[trigger] g.has(id) implies u.nodes[id] == g.nodes[id] by {
        assert(g.rooted(id));
        if g.on_loop(id) {
            let k = choose|k: nat| 1 <= k && #[trigger] g.ancestor(id, k) == Some(id);
            laws::lemma_no_loop(g, id, k);
        }
    }
    assert(u.nodes =~= g.nodes);
}

proof fn lemma_counted(g: GraphModel, n: u64)
    requires
        g.ids_ok(),
        g.counts_past(n),
    ensures
        n == g.next_id,
{
    if n != g.next_id {
        let id = choose|id: u64|
            #![trigger g.nodes.dom().contains(id)]
            #![trigger g.edges.dom().contains(id)]
            (g.nodes.dom().contains(id) || g.edges.dom().contains(id)) && (n == id + 1 || (n
                == u64::MAX && id == u64::MAX));
        assert(g.has(id) || g.edges.dom().contains(id));
        assert(g.past(id));
    }
}

/// Nothing is drawn once the ids have run out.
proof fn lemma_no_ids(g: GraphModel, links: Seq<(u64, u64)>)
    requires
        g.next_id == u64::MAX,
    ensures
        g.drawn(links) == g,
    decreases links.len(),
{
    if links.len() > 0 {
        lemma_no_ids(g, links.drop_last());
    }
}

proof fn lemma_drawn(g: GraphModel, links: Seq<(u64, u64)>)
    requires
        g.edges_ok(),
        g.links_ok() || g.next_id == u64::MAX,
        g.pruned().lists_undrawn(links),
    ensures
        g.pruned() == g,
        g.drawn(links) == g,
{
    assert forall|e: u64| #[trigger] g.edges.dom().contains(e) implies g.kept(e) by {
        assert(g.wanted(e));
    }
    assert(g.pruned().edges =~= g.edges);
    assert(g.pruned() == g);
    if g.next_id == u64::MAX {
        lemma_no_ids(g, links);
    } else if links.len() > 0 {
        let l = links[0];
        assert(links.contains(l));
        assert(g.undrawn(l));
        assert(g.has(l.1));
        assert(g.is_drawn(l.1));
    }
}

/// A map that is valid, whose links are all drawn as far as the ids go and whose
/// nodes are all somewhere is left as it is: there is nothing to repair.
pub proof fn a_sound_map_is_left_alone(g: GraphModel, after: GraphModel)
    requires
        g.valid(),
        g.links_ok() || g.next_id == u64::MAX,
        g.places_ok(),
        sanitize::sanitized(g, after),
    ensures
        after == g,
{
    lemma_cleaned(g);
    let (n, links) = choose|n: u64, links: Seq<(u64, u64)>| #[trigger]
        g.counts_past(n) && #[trigger] (GraphModel { next_id: n, ..g }).pruned().lists_undrawn(links)
            && after == (GraphModel { next_id: n, ..g }).pruned().drawn(links).pointed();
    lemma_counted(g, n);
    assert((GraphModel { next_id: n, ..g }) == g);
    lemma_drawn(g, links);
    assert(g.selected.intersect(g.nodes.dom()) =~= g.selected);
    assert(g.pointed() == g);
}

/// What is repaired once needs no second repair.
pub proof fn one_repair_is_enough(before: GraphModel, once: GraphModel, twice: GraphModel)
    requires
        before.nodes.dom().finite(),
        sanitize::sanitized(before, once),
        sanitize::sanitized(once, twice),
    ensures
        twice == once,
{
    laws::sanitized_is_valid(before, once);
    lemma_repaired_places(before, once);
    a_sound_map_is_left_alone(once, twice);
}

proof fn lemma_repaired_places(before: GraphModel, after: GraphModel)
    requires
        sanitize::sanitized(before, after),
    ensures
        after.places_ok(),
{
    let a = before.with_root();
    let b = a.cleaned();
    let g = b.unlooped();
    let (n, links) = choose|n: u64, links: Seq<(u64, u64)>| #[trigger]
        g.counts_past(n) && #[trigger] (GraphModel { next_id: n, ..g }).pruned().lists_undrawn(links)
            && after == (GraphModel { next_id: n, ..g }).pruned().drawn(links).pointed();
    lemma_drawn_nodes((GraphModel { next_id: n, ..g }).pruned(), links);
    assert(after.nodes == g.nodes);
    assert forall|id: u64| #[trigger] after.has(id) implies after.nodes[id] == spatial::placed(
        after.nodes[id],
    ) by {
        assert(b.has(id));
        assert(a.has(id));
        lemma_placed_twice(a.nodes[id]);
    }
}

proof fn lemma_drawn_nodes(g: GraphModel, links: Seq<(u64, u64)>)
    ensures
        g.drawn(links).nodes == g.nodes,
    decreases links.len(),
{
    if links.len() > 0 {
        lemma_drawn_nodes(g, links.drop_last());
    }
}

/// Putting every node somewhere touches neither the tree nor its edges, and is
/// done once.
pub proof fn placing_keeps_sound(g: GraphModel)
    requires
        g.valid(),
        g.links_ok(),
    ensures
        g.all_placed().valid(),
        g.all_placed().links_ok(),
        g.all_placed().places_ok(),
        g.all_placed().all_placed() == g.all_placed(),
{
    let h = g.all_placed();
    assert(h.nodes.dom() =~= g.nodes.dom());
    assert forall|id: u64| g.has(id) implies #[trigger] h.nodes[id].parent == g.nodes[id].parent
        && h.nodes[id].text == g.nodes[id].text by {}
    assert forall|id: u64| #[trigger] h.parent_of(id) == g.parent_of(id) by {}
    assert forall|id: u64| h.has(id) implies #[trigger] h.rooted(id) by {
        assert(g.rooted(id));
        let k = choose|k: nat| #[trigger] g.top_at(id, k);
        fold::lemma_same_parents(g, h, id, k);
        assert(h.top_at(id, k));
    }
    assert(h.tree_ok());
    assert forall|e: u64| #[trigger] h.wanted(e) == g.wanted(e) by {}
    assert(h.edges_ok());
    assert forall|id: u64| #[trigger] h.has(id) && h.nodes[id].parent is Some implies h.is_drawn(
        id,
    ) by {
        assert(g.has(id));
        assert(g.is_drawn(id));
        let e = choose|e: u64| #[trigger] g.wanted(e) && g.edges[e].to == id;
        assert(h.wanted(e));
    }
    assert forall|id: u64| #[trigger] h.has(id) implies h.past(id) by {
        assert(g.has(id));
        assert(g.past(id));
    }
    assert forall|e: u64| #[trigger] h.edges.dom().contains(e) implies h.past(e) by {
        assert(g.edges.dom().contains(e));
        assert(g.past(e));
    }
    assert(h.active_text() == g.active_text());
    assert(h.pointers_ok());
    assert(h.all_placed().nodes =~= h.nodes) by {
        assert forall|id: u64| #[trigger] h.has(id) implies h.all_placed().nodes[id]
            == h.nodes[id] by {
            lemma_placed_twice(g.nodes[id]);
        }
    }
}

proof fn lemma_placed_twice(n: NodeModel)
    ensures
        spatial::placed(spatial::placed(n)) == spatial::placed(n),
{
}

} // verus!
