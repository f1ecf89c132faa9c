//! What a frame shows: which nodes and edges are drawn, and in which state each
//! of them is. Where they are on the screen is not decided here.

use std::collections::HashMap;
use std::collections::HashSet;
use vstd::prelude::*;
use crate::graph::depth;
use crate::graph::model::GraphModel;
use crate::graph::{Edge, Graph, Mode, Node};
use crate::ids;
use crate::ui::find::{Find, FindModel};

verus! {

broadcast use {vstd::std_specs::hash::group_hash_axioms, vstd::std_specs::btree::group_btree_axioms};

/// What the pointer is over.
#[derive(Clone, Copy, Debug, PartialEq, Eq, Structural)]
pub enum Hover {
    Node(u64),
    Edge(u64),
}

/// What a frame shows of the gestures that are under way.
#[derive(Clone, Copy, Debug, PartialEq, Eq, Structural)]
pub struct Watch {
    pub hover: Option<Hover>,
    /// The node that a dragged branch would be hung under.
    pub onto: Option<u64>,
    /// The node whose link is about to be cut.
    pub severing: Option<u64>,
}

/// A node that is drawn.
#[derive(Clone, Copy, Debug, PartialEq, Eq)]
pub struct NodePlan {
    pub id: u64,
    pub root: bool,
    pub focus: bool,
    pub hover: bool,
    pub selected: bool,
    pub drop_target: bool,
    /// Nothing if it has no children; how many nodes it hides if it is folded.
    pub fold: Option<Option<usize>>,
    pub empty: bool,
    pub color: Option<u8>,
    pub picture: bool,
    /// A find is running and this is no match.
    pub dim: bool,
    /// A find is running and this is a match; whether it is the current one.
    pub find_hit: Option<bool>,
    /// It is being typed into, so its caret and selection are wanted.
    pub writing: bool,
}

/// An edge that is drawn.
#[derive(Clone, Copy, Debug, PartialEq, Eq)]
pub struct EdgePlan {
    pub id: u64,
    pub from: u64,
    pub to: u64,
    /// How deep in the tree the node is that it leads to.
    pub depth: usize,
    pub focus: bool,
    pub hover: bool,
    pub severing: bool,
    pub writing: bool,
}

/// What a frame shows, in ascending order.
pub struct FramePlan {
    /// The nodes that have to be measured: those that are drawn, and the far ends
    /// of the edges that leave the screen.
    pub needed: Vec<u64>,
    pub nodes: Vec<NodePlan>,
    pub edges: Vec<EdgePlan>,
}

/// A find that has something to look for.
pub open spec fn running(find: Option<FindModel>) -> bool {
    find matches Some(f) && f.query.len() > 0
}

/// A node that a find has found.
pub open spec fn is_hit(find: Option<FindModel>, id: u64) -> bool {
    running(find) && find->0.matches.contains(id)
}

/// How node `id` is drawn.
pub open spec fn node_plan(
    g: GraphModel,
    id: u64,
    watch: Watch,
    find: Option<FindModel>,
) -> NodePlan {
    let n = g.nodes[id];
    let focus = id == g.focus && g.edge_focus is None;
    NodePlan {
        id,
        root: id == g.root,
        focus,
        hover: watch.hover == Some(Hover::Node(id)),
        selected: g.selected.contains(id),
        drop_target: watch.onto == Some(id),
        fold: if exists|c: u64| g.children(id).contains(c) {
            Some(
                if n.collapsed {
                    Some((g.subtree(id).len() - 1) as usize)
                } else {
                    None
                },
            )
        } else {
            None
        },
        empty: n.text.len() == 0,
        color: n.color,
        picture: n.image is Some,
        dim: running(find) && !is_hit(find, id),
        find_hit: if is_hit(find, id) {
            Some(find->0.current() == Some(id))
        } else {
            None
        },
        writing: focus && g.mode == Mode::Edit,
    }
}

/// How edge `e` is drawn, but for its depth.
pub open spec fn edge_plan(g: GraphModel, e: u64, watch: Watch, depth: usize) -> EdgePlan {
    let focus = g.edge_focus == Some(e);
    EdgePlan {
        id: e,
        from: g.edges[e].from,
        to: g.edges[e].to,
        depth,
        focus,
        hover: watch.hover == Some(Hover::Edge(e)),
        severing: watch.severing == Some(g.edges[e].to),
        writing: focus && g.mode == Mode::Edit,
    }
}

/// `sight` holds what is on the screen: of the nodes that no fold hides, those of
/// which `visible` says so.
pub open spec fn in_sight<V: Fn(u64, &Node) -> bool>(
    g: &Graph,
    sight: Set<u64>,
    visible: &V,
) -> bool {
    &&& forall|id: u64| #[trigger]
        sight.contains(id) ==> g@.has(id) && !g@.hidden().contains(id) && visible.ensures(
            (id, &g.nodes@[id]),
            true,
        )
    &&& forall|id: u64| #[trigger]
        g@.has(id) && !g@.hidden().contains(id) && !sight.contains(id) ==> visible.ensures(
            (id, &g.nodes@[id]),
            false,
        )
}

/// An edge that no fold hides.
pub open spec fn open_edge(g: GraphModel, e: u64) -> bool {
    g.edges.dom().contains(e) && !g.hidden().contains(g.edges[e].from) && !g.hidden().contains(
        g.edges[e].to,
    )
}

/// An edge that leaves the screen.
pub open spec fn leaves(g: GraphModel, sight: Set<u64>, e: u64) -> bool {
    open_edge(g, e) && sight.contains(g.edges[e].from) != sight.contains(g.edges[e].to)
}

/// A node at the end of an edge that leaves the screen.
pub open spec fn far_end(g: GraphModel, sight: Set<u64>, id: u64) -> bool {
    exists|e: u64| #[trigger]
        leaves(g, sight, e) && (g.edges[e].from == id || g.edges[e].to == id)
}

/// The nodes that have to be measured.
pub open spec fn needed(g: GraphModel, sight: Set<u64>) -> Set<u64> {
    g.nodes.dom().filter(|id: u64| sight.contains(id) || far_end(g, sight, id))
}

/// The edges that are drawn: both ends are there, and one is on the screen.
pub open spec fn drawn_edges(g: GraphModel, sight: Set<u64>) -> Set<u64> {
    g.edges.dom().filter(
        |e: u64|
            open_edge(g, e) && g.has(g.edges[e].from) && g.has(g.edges[e].to) && (sight.contains(
                g.edges[e].from,
            ) || sight.contains(g.edges[e].to)),
    )
}

/// `plan` shows the map `g`, of which `sight` is on the screen.
pub open spec fn shows(
    g: GraphModel,
    plan: FramePlan,
    sight: Set<u64>,
    watch: Watch,
    find: Option<FindModel>,
) -> bool {
    let nodes = ids::listed(sight);
    let edges = ids::listed(drawn_edges(g, sight));
    &&& ids::lists(plan.needed@, needed(g, sight))
    &&& plan.nodes@ == nodes.map_values(|id: u64| node_plan(g, id, watch, find))
    &&& plan.edges@.len() == edges.len()
    &&& forall|i: int|
        0 <= i < edges.len() ==> #[trigger] plan.edges@[i] == edge_plan(
            g,
            edges[i],
            watch,
            plan.edges@[i].depth,
        ) && depth::is_depth(g, plan.edges@[i].to, plan.edges@[i].depth)
}

/// The view of a find that may be open.
pub open spec fn find_view(find: Option<&Find>) -> Option<FindModel> {
    match find {
        Some(f) => Some(f@),
        None => None,
    }
}

fn find_sight<V: Fn(u64, &Node) -> bool>(
    g: &Graph,
    hidden: &HashSet<u64>,
    visible: &V,
) -> (r: (Vec<u64>, HashSet<u64>))
    requires
        hidden@ == g@.hidden(),
        forall|id: u64, n: &Node| #[trigger] visible.requires((id, n)),
    ensures
        ids::lists(r.0@, r.1@),
        in_sight(g, r.1@, visible),
{
    let all = ids::sorted_keys(&g.nodes);
    assert(g@.nodes.dom() =~= g.nodes@.dom());
    let n: usize = all.len();
    let mut list: Vec<u64> = Vec::new();
    let mut sight: HashSet<u64> = HashSet::new();
    let mut i: usize = 0;
    while i < n
        invariant
            i <= n,
            n == all@.len(),
            hidden@ == g@.hidden(),
            ids::lists(all@, g@.nodes.dom()),
            g@.nodes.dom() == g.nodes@.dom(),
            forall|id: u64, n: &Node| #[trigger] visible.requires((id, n)),
            ids::lists(list@, sight@),
            forall|id: u64| #[trigger] sight@.contains(id) ==> all@.take(i as int).contains(id),
            forall|id: u64| #[trigger]
                sight@.contains(id) ==> g@.has(id) && !hidden@.contains(id) && visible.ensures(
                    (id, &g.nodes@[id]),
                    true,
                ),
            forall|id: u64| #[trigger]
                all@.take(i as int).contains(id) && !hidden@.contains(id) && !sight@.contains(id)
                    ==> visible.ensures((id, &g.nodes@[id]), false),
        decreases n - i,
    {
        let id: u64 = all[i];
        proof {
            assert(all@.contains(id));
            ids::lemma_contains_push(all@, i as int);
            assert(all@.no_duplicates()) by {
                ids::lemma_lists_len(all@, g@.nodes.dom());
            }
            if all@.take(i as int).contains(id) {
                let k = choose|k: int| 0 <= k < i && all@.take(i as int)[k] == id;
                assert(all@[k] < all@[i as int]);
            }
        }
        let ghost before = list@;
        let ghost kept = sight@;
        let mut keep = false;
        if !hidden.contains(&id) {
            if let Some(node) = g.nodes.get(&id) {
                keep = visible(id, node);
            }
        }
        if keep {
            list.push(id);
            sight.insert(id);
        }
        proof {
            ids::lemma_take(all@, i as int, before, list@, keep);
            assert forall|x: u64| #[trigger] list@.contains(x) <==> sight@.contains(x) by {
                assert(before.contains(x) <==> kept.contains(x));
                if keep {
                    if list@.contains(x) {
                        let k = choose|k: int| 0 <= k < list@.len() && list@[k] == x;
                        if k < before.len() {
                            assert(before[k] == x);
                        }
                    }
                    if before.contains(x) {
                        let k = choose|k: int| 0 <= k < before.len() && before[k] == x;
                        assert(list@[k] == x);
                    }
                    assert(list@[before.len() as int] == id);
                }
            }
        }
        i = i + 1;
    }
    assert(all@.take(n as int) =~= all@);
    assert forall|id: u64| #[trigger]
        g@.has(id) && !g@.hidden().contains(id) && !sight@.contains(id) implies visible.ensures(
        (id, &g.nodes@[id]),
        false,
    ) by {
        assert(all@.contains(id));
    }
    (list, sight)
}

fn find_needed(g: &Graph, hidden: &HashSet<u64>, sight: &HashSet<u64>) -> (r: Vec<u64>)
    requires
        hidden@ == g@.hidden(),
    ensures
        ids::lists(r@, needed(g@, sight@)),
{
    let ghost m = g@;
    let edges = ids::keys(&g.edges);
    assert(m.edges.dom() =~= g.edges@.dom());
    assert(m.nodes.dom() =~= g.nodes@.dom());
    let mut far: HashSet<u64> = HashSet::new();
    let mut i: usize = 0;
    while i < edges.len()
        invariant
            i <= edges@.len(),
            m == g@,
            hidden@ == m.hidden(),
            m.edges.dom() == g.edges@.dom(),
            edges@.to_set() == m.edges.dom(),
            forall|id: u64| #[trigger]
                far@.contains(id) <==> exists|k: int|
                    0 <= k < i && #[trigger] leaves(m, sight@, edges@[k]) && (m.edges[edges@[k]].from
                        == id || m.edges[edges@[k]].to == id),
        decreases edges@.len() - i,
    {
        let e: u64 = edges[i];
        let ghost before = far@;
        assert(edges@.to_set().contains(e)) by {
            assert(edges@[i as int] == e);
        }
        if let Some(edge) = g.edges.get(&e) {
            assert(edge@ == m.edges[e]);
            if !hidden.contains(&edge.from) && !hidden.contains(&edge.to) && sight.contains(
                &edge.from,
            ) != sight.contains(&edge.to) {
                far.insert(edge.from);
                far.insert(edge.to);
                assert(leaves(m, sight@, edges@[i as int]));
            }
        }
        assert forall|id: u64| #[trigger] far@.contains(id) <==> exists|k: int|
            0 <= k < i + 1 && #[trigger] leaves(m, sight@, edges@[k]) && (m.edges[edges@[k]].from
                == id || m.edges[edges@[k]].to == id) by {
            if before.contains(id) {
                let k = choose|k: int|
                    0 <= k < i && #[trigger] leaves(m, sight@, edges@[k]) && (m.edges[edges@[k]].from
                        == id || m.edges[edges@[k]].to == id);
                assert(leaves(m, sight@, edges@[k]));
            }
            if far@.contains(id) && !before.contains(id) {
                assert(leaves(m, sight@, edges@[i as int]));
            }
        }
        i = i + 1;
    }
    assert forall|id: u64| #[trigger] far@.contains(id) <==> far_end(m, sight@, id) by {
        if far_end(m, sight@, id) {
            let e = choose|e: u64| #[trigger]
                leaves(m, sight@, e) && (m.edges[e].from == id || m.edges[e].to == id);
            assert(edges@.to_set().contains(e));
            let k = choose|k: int| 0 <= k < edges@.len() && edges@[k] == e;
            assert(leaves(m, sight@, edges@[k]));
        }
    }
    let all = ids::sorted_keys(&g.nodes);
    let n: usize = all.len();
    let mut out: Vec<u64> = Vec::new();
    let ghost want = needed(m, sight@);
    let mut k: usize = 0;
    while k < n
        invariant
            k <= n,
            n == all@.len(),
            m == g@,
            want == needed(m, sight@),
            ids::lists(all@, m.nodes.dom()),
            forall|id: u64| #[trigger] far@.contains(id) <==> far_end(m, sight@, id),
            ids::increasing(out@),
            forall|x: u64| #[trigger] out@.contains(x) <==> all@.take(k as int).contains(x)
                && want.contains(x),
        decreases n - k,
    {
        let id: u64 = all[k];
        assert(all@.contains(id));
        let keep = sight.contains(&id) || far.contains(&id);
        assert(keep == want.contains(id));
        let ghost before = out@;
        if keep {
            out.push(id);
        }
        proof {
            ids::lemma_contains_push(all@, k as int);
            ids::lemma_take(all@, k as int, before, out@, keep);
            assert forall|x: u64| #[trigger] out@.contains(x) <==> all@.take(k + 1).contains(x)
                && want.contains(x) by {
                if keep {
                    assert(out@[before.len() as int] == id);
                    if before.contains(x) {
                        let j = choose|j: int| 0 <= j < before.len() && before[j] == x;
                        assert(out@[j] == x);
                    }
                    if out@.contains(x) && !before.contains(x) {
                        let j = choose|j: int| 0 <= j < out@.len() && out@[j] == x;
                        if j < before.len() {
                            assert(before[j] == x);
                        }
                    }
                }
            }
        }
        k = k + 1;
    }
    assert(all@.take(n as int) =~= all@);
    assert forall|x: u64| #[trigger] out@.contains(x) <==> want.contains(x) by {
        if want.contains(x) {
            assert(all@.contains(x));
        }
    }
    out
}

/// What a frame shows. `visible` says of a node that no fold hides whether any of
/// it is on the screen.
pub fn plan_frame<V: Fn(u64, &Node) -> bool>(
    g: &Graph,
    watch: Watch,
    find: Option<&Find>,
    visible: &V,
) -> (r: FramePlan)
    requires
        forall|id: u64, n: &Node| #[trigger] visible.requires((id, n)),
    ensures
        exists|sight: Set<u64>| #[trigger]
            in_sight(g, sight, visible) && shows(g@, r, sight, watch, find_view(find)),
{
    let hidden = g.hidden_set();
    let (list, sight) = find_sight(g, &hidden, visible);
    let wanted = find_needed(g, &hidden, &sight);
    let counts = g.child_counts();
    let wanted_set = ids::lookup(&wanted);
    assert(wanted_set@ =~= needed(g@, sight@)) by {
        assert forall|x: u64| #[trigger] wanted@.to_set().contains(x) <==> wanted@.contains(x) by {}
    }
    let depths = g.depths_for(&wanted_set);
    let nodes = plan_nodes(g, &list, &sight, &counts, watch, find);
    let edges = plan_edges(g, &hidden, &sight, &wanted_set, &depths, watch);
    proof {
        ids::lemma_listed(list@, sight@);
    }
    let r = FramePlan { needed: wanted, nodes, edges };
    assert(shows(g@, r, sight@, watch, find_view(find)));
    r
}

fn is_match(f: &Find, id: u64) -> (r: bool)
    ensures
        r == f@.matches.contains(id),
{
    let mut i: usize = 0;
    while i < f.matches.len()
        invariant
            i <= f.matches@.len(),
            forall|k: int| 0 <= k < i ==> #[trigger] f.matches@[k] != id,
        decreases f.matches@.len() - i,
    {
        if f.matches[i] == id {
            assert(f@.matches[i as int] == id);
            return true;
        }
        i = i + 1;
    }
    false
}

fn plan_node(
    g: &Graph,
    id: u64,
    node: &Node,
    counts: &HashMap<u64, usize>,
    watch: Watch,
    find: Option<&Find>,
) -> (r: NodePlan)
    requires
        g@.has(id),
        node@ == g@.nodes[id],
        forall|p: u64| #[trigger]
            counts@.dom().contains(p) <==> exists|c: u64| g@.children(p).contains(c),
    ensures
        r == node_plan(g@, id, watch, find_view(find)),
{
    let focus = id == g.focused_id && g.focused_edge.is_none();
    let fold: Option<Option<usize>> = if counts.contains_key(&id) {
        if node.collapsed {
            Some(Some(g.hidden_count(id)))
        } else {
            Some(None)
        }
    } else {
        None
    };
    let (on, hit, current): (bool, bool, bool) = match find {
        Some(f) => if crate::text::chars(f.query.as_str()).len() > 0 {
            (true, is_match(f, id), f.current() == Some(id))
        } else {
            (false, false, false)
        },
        None => (false, false, false),
    };
    let find_hit: Option<bool> = if on && hit {
        Some(current)
    } else {
        None
    };
    let r = NodePlan {
        id,
        root: id == g.root_id,
        focus,
        hover: watch.hover == Some(Hover::Node(id)),
        selected: g.is_node_selected(id),
        drop_target: watch.onto == Some(id),
        fold,
        empty: crate::text::chars(node.text.as_str()).len() == 0,
        color: node.color,
        picture: node.image.is_some(),
        dim: on && !hit,
        find_hit,
        writing: focus && g.is_editing(),
    };
    assert(counts@.dom().contains(id) <==> exists|c: u64| g@.children(id).contains(c));
    r
}

fn plan_nodes(
    g: &Graph,
    list: &Vec<u64>,
    sight: &HashSet<u64>,
    counts: &HashMap<u64, usize>,
    watch: Watch,
    find: Option<&Find>,
) -> (r: Vec<NodePlan>)
    requires
        ids::lists(list@, sight@),
        forall|id: u64| #[trigger] sight@.contains(id) ==> g@.has(id),
        forall|p: u64| #[trigger]
            counts@.dom().contains(p) <==> exists|c: u64| g@.children(p).contains(c),
    ensures
        r@ == list@.map_values(|id: u64| node_plan(g@, id, watch, find_view(find))),
{
    let ghost m = g@;
    assert(m.nodes.dom() =~= g.nodes@.dom());
    let n: usize = list.len();
    let mut out: Vec<NodePlan> = Vec::new();
    let mut i: usize = 0;
    while i < n
        invariant
            i <= n,
            n == list@.len(),
            m == g@,
            m.nodes.dom() == g.nodes@.dom(),
            ids::lists(list@, sight@),
            forall|id: u64| #[trigger] sight@.contains(id) ==> m.has(id),
            forall|p: u64| #[trigger]
                counts@.dom().contains(p) <==> exists|c: u64| m.children(p).contains(c),
            out@ == list@.take(i as int).map_values(
                |id: u64| node_plan(m, id, watch, find_view(find)),
            ),
        decreases n - i,
    {
        let id: u64 = list[i];
        assert(list@.contains(id));
        assert(sight@.contains(id));
        if let Some(node) = g.nodes.get(&id) {
            assert(node@ == m.nodes[id]);
            out.push(plan_node(g, id, node, counts, watch, find));
        } else {
            assert(false);
        }
        assert(out@ =~= list@.take(i + 1).map_values(
            |id: u64| node_plan(m, id, watch, find_view(find)),
        ));
        i = i + 1;
    }
    assert(list@.take(n as int) =~= list@);
    out
}

fn plan_edges(
    g: &Graph,
    hidden: &HashSet<u64>,
    sight: &HashSet<u64>,
    wanted: &HashSet<u64>,
    depths: &HashMap<u64, usize>,
    watch: Watch,
) -> (r: Vec<EdgePlan>)
    requires
        hidden@ == g@.hidden(),
        wanted@ == needed(g@, sight@),
        forall|w: u64| #[trigger] wanted@.contains(w) && g@.has(w) ==> depths@.dom().contains(w),
        forall|x: u64| #[trigger]
            depths@.dom().contains(x) ==> depth::is_depth(g@, x, depths@[x]),
    ensures
        r@.len() == ids::listed(drawn_edges(g@, sight@)).len(),
        forall|i: int|
            0 <= i < r@.len() ==> #[trigger] r@[i] == edge_plan(
                g@,
                ids::listed(drawn_edges(g@, sight@))[i],
                watch,
                r@[i].depth,
            ) && depth::is_depth(g@, r@[i].to, r@[i].depth),
{
    let ghost m = g@;
    let ghost want = drawn_edges(m, sight@);
    assert(m.edges.dom() =~= g.edges@.dom());
    assert(m.nodes.dom() =~= g.nodes@.dom());
    let all = ids::sorted_keys(&g.edges);
    let n: usize = all.len();
    let mut list: Vec<u64> = Vec::new();
    let mut out: Vec<EdgePlan> = Vec::new();
    let mut i: usize = 0;
    while i < n
        invariant
            i <= n,
            n == all@.len(),
            m == g@,
            want == drawn_edges(m, sight@),
            hidden@ == m.hidden(),
            wanted@ == needed(m, sight@),
            m.edges.dom() == g.edges@.dom(),
            m.nodes.dom() == g.nodes@.dom(),
            ids::lists(all@, m.edges.dom()),
            forall|w: u64| #[trigger] wanted@.contains(w) && m.has(w) ==> depths@.dom().contains(w),
            forall|x: u64| #[trigger]
                depths@.dom().contains(x) ==> depth::is_depth(m, x, depths@[x]),
            ids::increasing(list@),
            forall|x: u64| #[trigger] list@.contains(x) <==> all@.take(i as int).contains(x)
                && want.contains(x),
            out@.len() == list@.len(),
            forall|k: int|
                0 <= k < out@.len() ==> #[trigger] out@[k] == edge_plan(
                    m,
                    list@[k],
                    watch,
                    out@[k].depth,
                ) && depth::is_depth(m, out@[k].to, out@[k].depth),
        decreases n - i,
    {
        let id: u64 = all[i];
        assert(all@.contains(id));
        let ghost before = list@;
        let ghost was = out@;
        let mut keep = false;
        if let Some(e) = g.edges.get(&id) {
            assert(e@ == m.edges[id]);
            keep = !hidden.contains(&e.from) && !hidden.contains(&e.to) && g.nodes.contains_key(
                &e.from,
            ) && g.nodes.contains_key(&e.to) && (sight.contains(&e.from) || sight.contains(&e.to));
            if keep {
                proof {
                    if sight@.contains(e.from) != sight@.contains(e.to) {
                        assert(leaves(m, sight@, id));
                    }
                    assert(wanted@.contains(e.to));
                    assert(depths@.dom().contains(e.to));
                }
                let depth: usize = match depths.get(&e.to) {
                    Some(d) => *d,
                    None => 0,
                };
                let focus = g.focused_edge == Some(id);
                list.push(id);
                out.push(
                    EdgePlan {
                        id,
                        from: e.from,
                        to: e.to,
                        depth,
                        focus,
                        hover: watch.hover == Some(Hover::Edge(id)),
                        severing: watch.severing == Some(e.to),
                        writing: focus && g.is_editing(),
                    },
                );
            }
        }
        proof {
            assert(keep == want.contains(id));
            ids::lemma_contains_push(all@, i as int);
            ids::lemma_take(all@, i as int, before, list@, keep);
            assert forall|x: u64| #[trigger] list@.contains(x) <==> all@.take(i + 1).contains(x)
                && want.contains(x) by {
                if keep {
                    assert(list@[before.len() as int] == id);
                    if before.contains(x) {
                        let j = choose|j: int| 0 <= j < before.len() && before[j] == x;
                        assert(list@[j] == x);
                    }
                    if list@.contains(x) && !before.contains(x) {
                        let j = choose|j: int| 0 <= j < list@.len() && list@[j] == x;
                        if j < before.len() {
                            assert(before[j] == x);
                        }
                    }
                }
            }
            assert forall|k: int| 0 <= k < out@.len() implies #[trigger] out@[k] == edge_plan(
                m,
                list@[k],
                watch,
                out@[k].depth,
            ) && depth::is_depth(m, out@[k].to, out@[k].depth) by {
                if k < was.len() {
                    assert(out@[k] == was[k]);
                    assert(list@[k] == before[k]);
                }
            }
        }
        i = i + 1;
    }
    proof {
        assert(all@.take(n as int) =~= all@);
        assert forall|x: u64| #[trigger] list@.contains(x) <==> want.contains(x) by {
            if want.contains(x) {
                assert(all@.contains(x));
            }
        }
        ids::lemma_listed(list@, want);
    }
    out
}

/// A node that a fold hides is not drawn, and neither is an edge to it.
pub proof fn what_is_folded_is_not_drawn<V: Fn(u64, &Node) -> bool>(
    g: &Graph,
    sight: Set<u64>,
    visible: &V,
    id: u64,
    e: u64,
)
    requires
        in_sight(g, sight, visible),
        g@.hidden().contains(id),
    ensures
        !sight.contains(id),
        drawn_edges(g@, sight).contains(e) ==> g@.edges[e].from != id && g@.edges[e].to != id,
{
}

/// Every node at the end of an edge that is drawn is measured.
pub proof fn drawn_ends_are_measured(g: GraphModel, sight: Set<u64>, e: u64)
    requires
        drawn_edges(g, sight).contains(e),
    ensures
        needed(g, sight).contains(g.edges[e].from),
        needed(g, sight).contains(g.edges[e].to),
{
    if sight.contains(g.edges[e].from) != sight.contains(g.edges[e].to) {
        assert(leaves(g, sight, e));
    }
}

/// The nodes that the overview shows: those that are somewhere.
pub open spec fn placed_nodes(g: GraphModel) -> Set<u64> {
    g.nodes.dom().filter(|id: u64| g.nodes[id].x.finite() && g.nodes[id].y.finite())
}

/// The nodes that the overview shows, in ascending order: those that are
/// somewhere, on the screen or not.
pub fn overview(g: &Graph) -> (r: Vec<u64>)
    ensures
        ids::lists(r@, placed_nodes(g@)),
{
    let ghost m = g@;
    let ghost want = placed_nodes(m);
    assert(m.nodes.dom() =~= g.nodes@.dom());
    let all = ids::sorted_keys(&g.nodes);
    let n: usize = all.len();
    let mut out: Vec<u64> = Vec::new();
    let mut i: usize = 0;
    while i < n
        invariant
            i <= n,
            n == all@.len(),
            m == g@,
            want == placed_nodes(m),
            m.nodes.dom() == g.nodes@.dom(),
            ids::lists(all@, m.nodes.dom()),
            ids::increasing(out@),
            forall|x: u64| #[trigger] out@.contains(x) <==> all@.take(i as int).contains(x)
                && want.contains(x),
        decreases n - i,
    {
        let id: u64 = all[i];
        assert(all@.contains(id));
        let ghost before = out@;
        let keep = match g.nodes.get(&id) {
            Some(node) => {
                assert(node@ == m.nodes[id]);
                node.x.is_finite() && node.y.is_finite()
            },
            None => false,
        };
        if keep {
            out.push(id);
        }
        proof {
            assert(keep == want.contains(id));
            ids::lemma_contains_push(all@, i as int);
            ids::lemma_take(all@, i as int, before, out@, keep);
            assert forall|x: u64| #[trigger] out@.contains(x) <==> all@.take(i + 1).contains(x)
                && want.contains(x) by {
                if keep {
                    assert(out@[before.len() as int] == id);
                    if before.contains(x) {
                        let j = choose|j: int| 0 <= j < before.len() && before[j] == x;
                        assert(out@[j] == x);
                    }
                    if out@.contains(x) && !before.contains(x) {
                        let j = choose|j: int| 0 <= j < out@.len() && out@[j] == x;
                        if j < before.len() {
                            assert(before[j] == x);
                        }
                    }
                }
            }
        }
        i = i + 1;
    }
    assert(all@.take(n as int) =~= all@);
    assert forall|x: u64| #[trigger] out@.contains(x) <==> want.contains(x) by {
        if want.contains(x) {
            assert(all@.contains(x));
        }
    }
    out
}

} // verus!
