//! Moving, laying out, colouring, selecting and relabelling keep a map valid.

use vstd::prelude::*;
use vstd::utf8::*;
use crate::coord::Coord;
use crate::graph::fold;
use crate::graph::keeps;
use crate::graph::model::GraphModel;
use crate::graph::outline;
use crate::graph::reorder;
use crate::graph::spatial;
use crate::graph::structure;
use crate::graph::tidy;
use crate::graph::{Direction, Graph, Mode, Node, Selection};
use crate::ids;

verus! {

impl GraphModel {
    /// Every text of the map can be pointed into.
    pub open spec fn texts_fit(self) -> bool {
        &&& forall|id: u64| #[trigger]
            self.has(id) ==> encode_utf8(self.nodes[id].text).len() <= usize::MAX
        &&& forall|e: u64| #[trigger]
            self.edges.dom().contains(e) ==> encode_utf8(self.edges[e].label).len() <= usize::MAX
    }
}

/// Two maps with the same nodes and edges.
spec fn same_things(g: GraphModel, h: GraphModel) -> bool {
    h.nodes == g.nodes && h.edges == g.edges && h.root == g.root && h.next_id == g.next_id
}

/// A map stays valid when only what points into it changes, to something that is
/// there, and the caret goes to the end.
proof fn lemma_pointed(g: GraphModel, h: GraphModel)
    requires
        g.valid(),
        g.texts_fit(),
        same_things(g, h),
        h.focus_ok(),
        h.edge_focus matches Some(e) ==> h.edges.dom().contains(e),
        h.selected.subset_of(h.nodes.dom()),
    ensures
        h.caret_at_end().valid(),
        g.links_ok() ==> h.caret_at_end().links_ok(),
{
    let k = h.caret_at_end();
    lemma_same_tree(g, k);
    encode_utf8_valid_utf8(k.active_text());
    match h.selection() {
        Selection::Edge(e) => {
            assert(g.edges.dom().contains(e));
        },
        Selection::Node(n) => {
            assert(n == h.focus);
            assert(g.has(n));
        },
    }
    assert(k.active_text() == h.active_text());
    assert(k.caret == k.active_bytes().len());
}

/// With the same parents and the same edges, the trees are the same.
proof fn lemma_same_tree(g: GraphModel, h: GraphModel)
    requires
        g.valid(),
        h.edges == g.edges,
        h.root == g.root,
        h.next_id == g.next_id,
        h.nodes.dom() == g.nodes.dom(),
        forall|id: u64| #[trigger] h.parent_of(id) == g.parent_of(id),
    ensures
        h.tree_ok(),
        h.edges_ok(),
        h.ids_ok(),
        g.links_ok() ==> h.links_ok(),
{
    assert forall|id: u64| h.has(id) implies #[trigger] h.rooted(id) by {
        assert(g.rooted(id));
        let k = choose|k: nat| #[trigger] g.top_at(id, k);
        fold::lemma_same_parents(g, h, id, k);
        assert(h.top_at(id, k));
    }
    assert forall|id: u64| (#[trigger] h.parent_of(id)) is Some implies h.has(
        h.parent_of(id)->0,
    ) by {
        assert(g.parent_of(id) == h.parent_of(id));
    }
    keeps::lemma_edges_carried(g, h);
    assert forall|id: u64| #[trigger] h.has(id) implies h.past(id) by {
        assert(g.has(id));
    }
    assert forall|e: u64| #[trigger] h.edges.dom().contains(e) implies h.past(e) by {
        assert(g.edges.dom().contains(e));
    }
}

/// Putting the cursor on a node keeps a map valid.
pub proof fn focusing_keeps_valid(g: GraphModel, id: u64)
    requires
        g.valid(),
        g.texts_fit(),
    ensures
        g.focused_on(id).valid(),
        g.focus_kept(id).valid(),
        g.links_ok() ==> g.focused_on(id).links_ok(),
{
    if g.has(id) {
        let a = GraphModel { focus: id, edge_focus: None, ..g };
        lemma_pointed(g, a);
        let b = GraphModel { selected: set![id], focus: id, edge_focus: None, ..g };
        assert(b.selected.subset_of(g.nodes.dom()));
        lemma_pointed(g, b);
        assert(g.focused_on(id) == b.caret_at_end());
    }
}

/// An arrow key, and going on to a sibling, keep a map valid, whether they move
/// the cursor or not: where they do not, the edge that was focused is let go, and
/// the caret goes to the end of the text that is active then.
pub proof fn going_keeps_valid(g: GraphModel, to: Option<u64>)
    requires
        g.valid(),
        g.texts_fit(),
        to matches Some(id) ==> g.has(id),
    ensures
        ({
            let h = GraphModel { edge_focus: None, ..g };
            let k = match to {
                Some(id) => h.focused_on(id),
                None => h.caret_at_end(),
            };
            k.valid() && (g.links_ok() ==> k.links_ok())
        }),
{
    let h = GraphModel { edge_focus: None, ..g };
    lemma_pointed(g, h);
    match to {
        Some(id) => {
            let b = GraphModel { selected: set![id], focus: id, edge_focus: None, ..g };
            assert(b.selected.subset_of(g.nodes.dom()));
            lemma_pointed(g, b);
            assert(h.focused_on(id) == b.caret_at_end());
        },
        None => {},
    }
}

/// Wherever an arrow key leads, the map stays valid.
pub proof fn navigating_keeps_valid<
    A: Fn(u64, &Node) -> bool,
    B: Fn(u64, &Node) -> Option<Coord>,
    T: Fn(u64, &Node) -> Option<Coord>,
>(g: &Graph, direction: Direction, ahead: &A, beside: &B, toward: &T, r: Option<u64>)
    requires
        g@.valid(),
        g@.texts_fit(),
        g@.nodes.dom().finite(),
        spatial::arrow_target(g, direction, ahead, beside, toward, r),
    ensures
        match r {
            Some(id) => (GraphModel { edge_focus: None, ..g@ }).focused_on(id).valid(),
            None => (GraphModel { edge_focus: None, ..g@ }).caret_at_end().valid(),
        },
{
    spatial::an_arrow_leads_to_a_node(g, direction, ahead, beside, toward, r);
    going_keeps_valid(g@, r);
}

/// However far on or back a sibling is taken, the map stays valid.
pub proof fn cycling_keeps_valid(g: GraphModel, delta: int)
    requires
        g.valid(),
        g.texts_fit(),
        g.nodes.dom().finite(),
    ensures
        ({
            let h = GraphModel { edge_focus: None, ..g };
            let v = match h.parent_of(h.focus) {
                Some(p) => ids::listed(h.children(p)),
                None => seq![],
            };
            &&& v.len() >= 2 ==> h.focused_on(
                v[(v.index_of(h.focus) + delta) % (v.len() as int)],
            ).valid()
            &&& h.caret_at_end().valid()
        }),
{
    let h = GraphModel { edge_focus: None, ..g };
    going_keeps_valid(g, None);
    if let Some(p) = h.parent_of(h.focus) {
        let kids = h.children(p);
        assert(kids.subset_of(g.nodes.dom()));
        vstd::set_lib::lemma_len_subset(kids, g.nodes.dom());
        ids::lemma_has_list(kids);
        let v = ids::listed(kids);
        if v.len() >= 2 {
            let at = (v.index_of(h.focus) + delta) % (v.len() as int);
            assert(0 <= at < v.len());
            assert(v.contains(v[at]));
            assert(kids.contains(v[at]));
            going_keeps_valid(g, Some(v[at]));
        }
    }
}

/// Adding a node to the selection, taking one out and selecting anew keep a map
/// valid, whatever is picked.
pub proof fn selecting_keeps_valid(g: GraphModel, id: u64, picked: Set<u64>)
    requires
        g.valid(),
        g.texts_fit(),
    ensures
        g.node_toggled(id).valid(),
        g.selection_set(picked).valid(),
        (GraphModel { selected: Set::empty(), ..g }).valid(),
{
    let none = GraphModel { selected: Set::empty(), ..g };
    lemma_reselected(g, Set::empty());
    let out = g.selected.remove(id);
    assert(out.subset_of(g.nodes.dom()));
    lemma_reselected(g, out);
    lemma_refocused(g, out);
    if g.has(id) {
        let more = g.selected.insert(id);
        assert(more.subset_of(g.nodes.dom()));
        lemma_reselected(g, more);
        lemma_refocused(g, more);
    }
    let there = picked.intersect(g.nodes.dom());
    assert(there.subset_of(g.nodes.dom()));
    lemma_reselected(g, there);
    lemma_refocused(g, there);
}

proof fn lemma_reselected(g: GraphModel, picked: Set<u64>)
    requires
        g.valid(),
        picked.subset_of(g.nodes.dom()),
    ensures
        (GraphModel { selected: picked, ..g }).valid(),
{
    let h = GraphModel { selected: picked, ..g };
    lemma_same_tree(g, h);
    assert(h.active_text() == g.active_text());
}

/// With `picked` selected, the cursor may go to any node.
proof fn lemma_refocused(g: GraphModel, picked: Set<u64>)
    requires
        g.valid(),
        g.texts_fit(),
        picked.subset_of(g.nodes.dom()),
    ensures
        forall|id: u64| #[trigger]
            (GraphModel { selected: picked, ..g }).focus_kept(id).valid(),
{
    let h = GraphModel { selected: picked, ..g };
    lemma_reselected(g, picked);
    assert(h.texts_fit()) by {
        assert forall|id: u64| #[trigger] h.has(id) implies encode_utf8(h.nodes[id].text).len()
            <= usize::MAX by {
            assert(g.has(id));
        }
    }
    assert forall|id: u64| #[trigger] h.focus_kept(id).valid() by {
        focusing_keeps_valid(h, id);
    }
}

/// Looking at an edge, leaving it, typing and browsing keep a map valid.
pub proof fn looking_keeps_valid(g: GraphModel, e: u64)
    requires
        g.valid(),
        g.texts_fit(),
    ensures
        g.edge_focused(e).valid(),
        g.edge_left().valid(),
        g.writing().valid(),
        g.browsing().valid(),
{
    if g.edges.dom().contains(e) {
        assert(g.wanted(e));
        let to = g.edges[e].to;
        let h = GraphModel {
            selected: Set::empty(),
            edge_focus: Some(e),
            focus: if g.has(to) {
                to
            } else {
                g.focus
            },
            ..g
        };
        lemma_pointed(g, h);
    }
    let left = GraphModel { edge_focus: None, selected: set![g.focus], ..g };
    assert(left.selected.subset_of(g.nodes.dom()));
    lemma_pointed(g, left);
    let edit = GraphModel { mode: Mode::Edit, ..g };
    lemma_pointed(g, edit);
    let b = g.browsing();
    lemma_same_tree(g, b);
    assert(b.active_text() == g.active_text());
}

/// Moving nodes keeps a map valid.
pub proof fn moving_keeps_valid<F: Fn(Coord, Coord) -> (Coord, Coord)>(
    g: GraphModel,
    h: GraphModel,
    who: Set<u64>,
    shift: &F,
)
    requires
        g.valid(),
        spatial::shifted(g, h, who, shift),
    ensures
        h.valid(),
        g.links_ok() ==> h.links_ok(),
{
    keeps::lemma_same_shape(g, h);
}

/// Carrying nodes along keeps a map valid.
pub proof fn carrying_keeps_valid<C: Fn(Coord, Coord, Coord) -> Coord>(
    g: GraphModel,
    h: GraphModel,
    who: Set<u64>,
    from: (Coord, Coord),
    to: (Coord, Coord),
    carry: &C,
)
    requires
        g.valid(),
        spatial::carried_along(g, h, who, from, to, carry),
    ensures
        h.valid(),
        g.links_ok() ==> h.links_ok(),
{
    keeps::lemma_same_shape(g, h);
}

/// Trading places with a sibling keeps a map valid.
pub proof fn reordering_keeps_valid<C: Fn(Coord, Coord, Coord) -> Coord>(
    g: GraphModel,
    h: GraphModel,
    id: u64,
    up: bool,
    carry: &C,
)
    requires
        g.valid(),
        reorder::moved_past(g, h, id, up, carry),
    ensures
        h.valid(),
        g.links_ok() ==> h.links_ok(),
{
    reorder::moving_past_keeps_the_tree(g, h, id, up, carry);
    assert forall|x: u64| #[trigger] g.nodes.dom().contains(x) implies h.nodes[x].parent
        == g.nodes[x].parent && h.nodes[x].text == g.nodes[x].text by {
        assert(g.has(x));
    }
    keeps::lemma_same_shape(g, h);
}

/// Laying a map out keeps it valid.
pub proof fn tidy_keeps_valid<C: Fn(Coord, Coord, Coord) -> Coord>(
    g: GraphModel,
    h: GraphModel,
    carry: &C,
)
    requires
        g.valid(),
        tidy::tidied(g, h, carry),
    ensures
        h.valid(),
        g.links_ok() ==> h.links_ok(),
{
    keeps::lemma_same_shape(g, h);
}

/// Colouring keeps a map valid.
pub proof fn colouring_keeps_valid(g: GraphModel, color: Option<u8>)
    requires
        g.valid(),
    ensures
        g.coloured(color).valid(),
        g.links_ok() ==> g.coloured(color).links_ok(),
{
    let h = g.coloured(color);
    assert(h.nodes.dom() =~= g.nodes.dom());
    keeps::lemma_same_shape(g, h);
}

/// Search and replace changes labels and nothing else: the trees, the edges, the
/// cursor and the selection are as they were. The caret is not among them, since
/// the label it is in may have become shorter.
pub proof fn relabelling_keeps_the_trees(g: GraphModel, query: Seq<char>, with: Seq<char>)
    requires
        g.valid(),
    ensures
        g.all_relabelled(query, with).tree_ok(),
        g.all_relabelled(query, with).edges_ok(),
        g.all_relabelled(query, with).ids_ok(),
        g.links_ok() ==> g.all_relabelled(query, with).links_ok(),
{
    let h = g.all_relabelled(query, with);
    assert(h.nodes.dom() =~= g.nodes.dom());
    assert forall|id: u64| #[trigger] h.parent_of(id) == g.parent_of(id) by {
        assert(g.nodes.dom().contains(id) <==> h.nodes.dom().contains(id));
    }
    lemma_same_tree(g, h);
}

/// An item is hung under one before it, or under the parent.
proof fn lemma_outer(levels: Seq<nat>, i: int, j: nat)
    ensures
        outline::outer_of(levels, i, j) matches Some(k) ==> 0 <= k < j,
    decreases j,
{
    if j > 0 {
        lemma_outer(levels, i, (j - 1) as nat);
    }
}

/// Growing an outline keeps a map valid and every link drawn, as far as it goes.
/// Every node that it made is there, and so is the one it hangs under.
pub proof fn an_outline_keeps_valid<P: Fn(&Graph, u64, Direction) -> (Coord, Coord)>(
    place: &P,
    run: Seq<Graph>,
    made: Seq<Option<u64>>,
    items: Seq<(nat, Seq<char>)>,
    parent: u64,
    n: nat,
)
    requires
        outline::grown(place, run, made, items, parent),
        run[0]@.valid(),
        run[0]@.has(parent),
        forall|i: int|
            0 <= i < items.len() ==> encode_utf8((#[trigger] items[i]).1).len() <= usize::MAX,
        n <= made.len(),
    ensures
        run[n as int]@.valid(),
        run[0]@.links_ok() ==> run[n as int]@.links_ok(),
        run[n as int]@.has(parent),
        forall|j: int|
            0 <= j < n ==> (#[trigger] made[j] matches Some(id) ==> run[n as int]@.has(id)),
    decreases n,
{
    if n > 0 {
        let i = n - 1;
        an_outline_keeps_valid(place, run, made, items, parent, i as nat);
        let g = run[i]@;
        let up = outline::under(outline::levels_of(items), made, parent, i);
        lemma_outer(outline::levels_of(items), i, i as nat);
        assert(g.has(up)) by {
            if let Some(j) = outline::outer_of(outline::levels_of(items), i, i as nat) {
                assert(made[j] is Some);
            }
        }
        assert(structure::made_child(
            place,
            &run[i],
            up,
            Direction::Right,
            items[i].1,
            made[i],
            run[i + 1]@,
        ));
        let (x, y) = choose|x: Coord, y: Coord| #[trigger]
            place.ensures((&run[i], up, Direction::Right), (x, y)) && (made[i], run[i + 1]@)
                == g.child_created(up, items[i].1, x, y);
        keeps::create_keeps_valid(g, up, items[i].1, x, y);
        assert forall|id: u64| g.has(id) implies #[trigger] run[i + 1]@.has(id) by {
            assert(g.opened(up).nodes.dom() =~= g.nodes.dom());
        }
    }
}

} // verus!
