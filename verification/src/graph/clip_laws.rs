//! What holds of every copy and paste.

use vstd::prelude::*;
use vstd::utf8::*;
use crate::coord::Coord;
use crate::graph::clip;
use crate::graph::clip::ClipModel;
use crate::graph::keeps;
use crate::graph::laws;
use crate::graph::model::{EdgeModel, GraphModel, NodeModel};
use crate::graph::tree;
use crate::ids;

verus! {

/// The index that is `k` links up from `i` in a clip.
pub open spec fn clip_up(c: Seq<ClipModel>, i: int, k: nat) -> Option<int>
    decreases k,
{
    if k == 0 {
        Some(i)
    } else {
        match clip_up(c, i, (k - 1) as nat) {
            Some(j) => if 0 <= j < c.len() {
                match c[j].parent {
                    Some(p) => Some(p as int),
                    None => None,
                }
            } else {
                None
            },
            None => None,
        }
    }
}

/// Going up from `i` ends at a root of the clip after `k` links.
pub open spec fn clip_root_at(c: Seq<ClipModel>, i: int, k: nat) -> bool {
    clip_up(c, i, k) matches Some(j) && 0 <= j < c.len() && c[j].parent is None
}

/// Going up from `i` ends at a root of the clip.
pub open spec fn clip_rooted(c: Seq<ClipModel>, i: int) -> bool {
    exists|k: nat| #[trigger] clip_root_at(c, i, k)
}

/// A clip is a number of trees.
pub open spec fn clip_ok(c: Seq<ClipModel>) -> bool {
    forall|i: int| 0 <= i < c.len() ==> #[trigger] clip_rooted(c, i)
}

proof fn lemma_clip_shift(c: Seq<ClipModel>, i: int, k: nat)
    requires
        0 <= i < c.len(),
    ensures
        clip_up(c, i, k + 1) == (match c[i].parent {
            Some(p) => clip_up(c, p as int, k),
            None => None,
        }),
    decreases k,
{
    reveal_with_fuel(clip_up, 2);
    if k > 0 {
        lemma_clip_shift(c, i, (k - 1) as nat);
    }
}

/// A copy of a tree is a number of trees.
pub proof fn copy_is_ok(g: GraphModel, taken: Seq<u64>, c: Seq<ClipModel>)
    requires
        g.tree_ok(),
        taken.no_duplicates(),
        taken.len() <= usize::MAX,
        c.len() == taken.len(),
        forall|i: int| 0 <= i < taken.len() ==> g.has(#[trigger] taken[i]),
        forall|i: int|
            0 <= i < c.len() ==> (#[trigger] c[i]) == g.clipped(taken, taken[i], c[i].dx, c[i].dy),
    ensures
        clip_ok(c),
{
    assert forall|i: int| 0 <= i < c.len() implies #[trigger] clip_rooted(c, i) by {
        assert(g.has(taken[i]));
        assert(g.rooted(taken[i]));
        let k = choose|k: nat| #[trigger] g.top_at(taken[i], k);
        lemma_copy_ends(g, taken, c, i, k);
    }
}

proof fn lemma_copy_ends(g: GraphModel, taken: Seq<u64>, c: Seq<ClipModel>, i: int, k: nat)
    requires
        taken.no_duplicates(),
        taken.len() <= usize::MAX,
        c.len() == taken.len(),
        forall|j: int| 0 <= j < taken.len() ==> g.has(#[trigger] taken[j]),
        forall|j: int|
            0 <= j < c.len() ==> (#[trigger] c[j]) == g.clipped(taken, taken[j], c[j].dx, c[j].dy),
        0 <= i < c.len(),
        g.top_at(taken[i], k),
    ensures
        exists|m: nat| #[trigger] clip_root_at(c, i, m),
    decreases k,
{
    assert(c[i] == g.clipped(taken, taken[i], c[i].dx, c[i].dy));
    assert(g.has(taken[i]));
    assert(g.ancestor(taken[i], 0) == Some(taken[i]));
    if c[i].parent is None {
        assert(clip_up(c, i, 0) == Some(i));
        assert(clip_root_at(c, i, 0));
    } else {
        let p = g.nodes[taken[i]].parent->0;
        let j = taken.index_of(p);
        assert(0 <= j < taken.len() && taken[j] == p);
        assert(g.parent_of(taken[i]) == Some(p));
        if k == 0 {
            assert(g.parent_of(taken[i]) is None);
        }
        tree::lemma_ancestor_shift(g, taken[i], (k - 1) as nat);
        assert(g.ancestor(p, (k - 1) as nat) == g.ancestor(taken[i], k));
        assert(g.top_at(p, (k - 1) as nat));
        lemma_copy_ends(g, taken, c, j, (k - 1) as nat);
        let m = choose|m: nat| #[trigger] clip_root_at(c, j, m);
        lemma_clip_shift(c, i, m);
        assert(clip_root_at(c, i, m + 1));
    }
}

/// What linking the first `n` nodes of a clip has done: every one of them hangs
/// where it belongs, nothing else has moved, and every new edge draws one of
/// those links.
spec fn linked_well(
    h: GraphModel,
    r: GraphModel,
    c: Seq<ClipModel>,
    first: u64,
    count: nat,
    up: Option<u64>,
    n: nat,
) -> bool {
    &&& r == (GraphModel { nodes: r.nodes, edges: r.edges, next_id: r.next_id, ..h })
    &&& r.nodes.dom() == h.nodes.dom()
    &&& h.next_id <= r.next_id
    &&& forall|x: u64| #[trigger]
        h.nodes.dom().contains(x) ==> r.nodes[x] == (if first <= x < first + n {
            NodeModel { parent: clip::link_of(c[x - first], first, count, up), ..h.nodes[x] }
        } else {
            h.nodes[x]
        })
    &&& forall|e: u64| #[trigger]
        r.edges.dom().contains(e) ==> if h.edges.dom().contains(e) {
            r.edges[e] == h.edges[e]
        } else {
            &&& h.next_id <= e < r.next_id
            &&& first <= r.edges[e].to < first + n
            &&& clip::link_of(c[r.edges[e].to - first], first, count, up) == Some(r.edges[e].from)
            &&& r.edges[e].label == c[r.edges[e].to - first].label
        }
    &&& forall|e: u64| #[trigger] h.edges.dom().contains(e) ==> r.edges.dom().contains(e)
    &&& forall|e: u64, f: u64|
        #![trigger r.edges.dom().contains(e), r.edges.dom().contains(f)]
        r.edges.dom().contains(e) && r.edges.dom().contains(f) && !h.edges.dom().contains(e)
            && !h.edges.dom().contains(f) && r.edges[e].to == r.edges[f].to ==> e == f
}

proof fn lemma_linked(
    h: GraphModel,
    c: Seq<ClipModel>,
    first: u64,
    count: nat,
    up: Option<u64>,
    n: nat,
)
    requires
        n <= count <= c.len(),
        first + count <= u64::MAX,
        forall|x: u64| first <= x < first + count ==> #[trigger] h.nodes.dom().contains(x)
            && h.nodes[x].parent is None,
    ensures
        linked_well(h, h.clip_linked(c, first, count, up, n), c, first, count, up, n),
    decreases n,
{
    let r = h.clip_linked(c, first, count, up, n);
    if n > 0 {
        let m = (n - 1) as nat;
        lemma_linked(h, c, first, count, up, m);
        let g = h.clip_linked(c, first, count, up, m);
        let id = (first + m) as u64;
        assert(h.nodes.dom().contains(id));
        assert(r.nodes.dom() =~= h.nodes.dom());
        assert forall|x: u64| #[trigger] h.nodes.dom().contains(x) implies r.nodes[x] == (
        if first <= x < first + n {
            NodeModel { parent: clip::link_of(c[x - first], first, count, up), ..h.nodes[x] }
        } else {
            h.nodes[x]
        }) by {
            if x == id {
                assert(x - first == m);
            }
        }
        assert forall|e: u64| #[trigger] r.edges.dom().contains(e) implies (
        if h.edges.dom().contains(e) {
            r.edges[e] == h.edges[e]
        } else {
            &&& h.next_id <= e < r.next_id
            &&& first <= r.edges[e].to < first + n
            &&& clip::link_of(c[r.edges[e].to - first], first, count, up) == Some(r.edges[e].from)
            &&& r.edges[e].label == c[r.edges[e].to - first].label
        }) by {
            if g.edges.dom().contains(e) {
                assert(r.edges[e] == g.edges[e]);
            }
        }
        assert forall|e: u64, f: u64|
            #![trigger r.edges.dom().contains(e), r.edges.dom().contains(f)]
            r.edges.dom().contains(e) && r.edges.dom().contains(f) && !h.edges.dom().contains(e)
                && !h.edges.dom().contains(f) && r.edges[e].to == r.edges[f].to implies e == f by {
            if g.edges.dom().contains(e) && g.edges.dom().contains(f) {
                assert(r.edges[e] == g.edges[e] && r.edges[f] == g.edges[f]);
            } else if g.edges.dom().contains(e) {
                assert(g.edges[e].to < first + m);
            } else if g.edges.dom().contains(f) {
                assert(g.edges[f].to < first + m);
            }
        }
        assert forall|e: u64| #[trigger] h.edges.dom().contains(e) implies r.edges.dom().contains(
            e,
        ) by {
            assert(g.edges.dom().contains(e));
        }
    }
}

/// As long as the counter does not run out, every link is drawn.
proof fn lemma_all_drawn(
    h: GraphModel,
    c: Seq<ClipModel>,
    first: u64,
    count: nat,
    up: Option<u64>,
    n: nat,
)
    requires
        n <= count <= c.len(),
        first + count <= u64::MAX,
        forall|x: u64| first <= x < first + count ==> #[trigger] h.nodes.dom().contains(x)
            && h.nodes[x].parent is None,
        h.ids_ok(),
        h.next_id + n < u64::MAX,
    ensures
        ({
            let r = h.clip_linked(c, first, count, up, n);
            &&& r.next_id <= h.next_id + n
            &&& r.ids_ok()
            &&& forall|i: int|
                0 <= i < n && #[trigger] clip::link_of(c[i], first, count, up) is Some ==> exists|
                    e: u64,
                |
                    #[trigger] r.edges.dom().contains(e) && r.edges[e].to == first + i
                        && !h.edges.dom().contains(e)
        }),
    decreases n,
{
    let r = h.clip_linked(c, first, count, up, n);
    if n > 0 {
        let m = (n - 1) as nat;
        lemma_all_drawn(h, c, first, count, up, m);
        lemma_linked(h, c, first, count, up, m);
        let g = h.clip_linked(c, first, count, up, m);
        let id = (first + m) as u64;
        assert(h.nodes.dom().contains(id));
        if let Some(p) = clip::link_of(c[m as int], first, count, up) {
            let k = g.hung(id, Some(p));
            assert(k.nodes.dom() =~= g.nodes.dom());
            assert(!k.has(k.next_id)) by {
                if g.has(k.next_id) {
                    assert(g.past(k.next_id));
                }
            }
            assert(!k.edges.dom().contains(k.next_id)) by {
                if g.edges.dom().contains(k.next_id) {
                    assert(g.past(k.next_id));
                }
            }
            assert(k.free(k.next_id));
            let eid = k.next_id;
            assert(r.edges.dom().contains(eid) && r.edges[eid].to == id);
            assert(!h.edges.dom().contains(eid)) by {
                if h.edges.dom().contains(eid) {
                    assert(g.edges.dom().contains(eid));
                }
            }
            assert forall|x: u64| #[trigger] r.has(x) implies r.past(x) by {
                assert(g.has(x));
                assert(g.past(x));
            }
            assert forall|e: u64| #[trigger] r.edges.dom().contains(e) implies r.past(e) by {
                if e != eid {
                    assert(g.edges.dom().contains(e));
                    assert(g.past(e));
                }
            }
        }
        assert forall|i: int|
            0 <= i < n && #[trigger] clip::link_of(c[i], first, count, up) is Some implies exists|
            e: u64,
        |
            #[trigger] r.edges.dom().contains(e) && r.edges[e].to == first + i
                && !h.edges.dom().contains(e) by {
            if i < m {
                let e = choose|e: u64| #[trigger]
                    g.edges.dom().contains(e) && g.edges[e].to == first + i
                        && !h.edges.dom().contains(e);
                assert(r.edges.dom().contains(e));
                assert(r.edges[e] == g.edges[e]) by {
                    if !(r.edges[e] == g.edges[e]) {
                        assert(e == g.next_id);
                        assert(g.past(e));
                    }
                }
            }
        }
    }
}

/// Counting on finds ids that are not taken.
proof fn lemma_room_free(g: GraphModel, from: u64, n: nat)
    ensures
        g.room(from, n) <= n,
        from + g.room(from, n) <= u64::MAX,
        forall|x: u64| from <= x < from + g.room(from, n) ==> #[trigger] g.free(x),
    decreases n,
{
    if n > 0 {
        let m = (n - 1) as nat;
        lemma_room_free(g, from, m);
        let k = g.room(from, m);
        assert forall|x: u64| from <= x < from + g.room(from, n) implies #[trigger] g.free(x) by {
            if x < from + k {
                assert(g.free(x));
            } else {
                assert(x == from + k);
            }
        }
    }
}

/// With ids to spare, all of a clip has room.
proof fn lemma_room_enough(g: GraphModel, n: nat)
    requires
        g.ids_ok(),
        g.next_id + n <= u64::MAX,
    ensures
        g.room(g.next_id, n) == n,
    decreases n,
{
    if n > 0 {
        lemma_room_enough(g, (n - 1) as nat);
        let x = (g.next_id + (n - 1)) as u64;
        if g.has(x) {
            assert(g.past(x));
        }
        if g.edges.dom().contains(x) {
            assert(g.past(x));
        }
    }
}

/// The map that a paste begins with: the branch it goes into unfolded.
pub open spec fn before_paste(g: GraphModel, parent: Option<u64>) -> GraphModel {
    match parent {
        Some(p) if g.has(p) => g.opened(p),
        _ => g,
    }
}

/// What the roots of a clip hang under.
pub open spec fn paste_parent(g: GraphModel, parent: Option<u64>) -> Option<u64> {
    match parent {
        Some(p) if g.has(p) => Some(p),
        _ => None,
    }
}

/// The map with the nodes of a clip in it, hanging nowhere yet.
spec fn loose_paste(
    g: GraphModel,
    c: Seq<ClipModel>,
    at: Seq<(Coord, Coord)>,
    parent: Option<u64>,
) -> GraphModel {
    before_paste(g, parent).with_nodes(clip::fresh_nodes(c, at))
}

/// The map with the nodes of a clip in it, hung where they belong.
spec fn linked_paste(
    g: GraphModel,
    c: Seq<ClipModel>,
    at: Seq<(Coord, Coord)>,
    parent: Option<u64>,
) -> GraphModel {
    loose_paste(g, c, at, parent).clip_linked(
        c,
        g.next_id,
        at.len(),
        paste_parent(g, parent),
        at.len(),
    )
}

/// What a paste has done to the nodes and the edges.
proof fn lemma_pasted(
    g: GraphModel,
    c: Seq<ClipModel>,
    at: Seq<(Coord, Coord)>,
    parent: Option<u64>,
)
    requires
        at.len() == g.room(g.next_id, c.len()),
    ensures
        at.len() <= c.len(),
        g.next_id + at.len() <= u64::MAX,
        before_paste(g, parent).next_id == g.next_id,
        before_paste(g, parent).nodes.dom() == g.nodes.dom(),
        before_paste(g, parent).edges == g.edges,
        before_paste(g, parent).root == g.root,
        ({
            let r = linked_paste(g, c, at, parent);
            let p = g.pasted(c, at, parent);
            p.nodes == r.nodes && p.edges == r.edges && p.root == r.root && p.next_id == r.next_id
        }),
        linked_well(
            loose_paste(g, c, at, parent),
            linked_paste(g, c, at, parent),
            c,
            g.next_id,
            at.len(),
            paste_parent(g, parent),
            at.len(),
        ),
        forall|x: u64|
            g.next_id <= x < g.next_id + at.len() ==> #[trigger] loose_paste(
                g,
                c,
                at,
                parent,
            ).nodes.dom().contains(x) && loose_paste(g, c, at, parent).nodes[x] == clip::loose(
                c[x - g.next_id],
                at[x - g.next_id],
            ) && !g.nodes.dom().contains(x),
        loose_paste(g, c, at, parent).nodes.dom() == g.nodes.dom().union(
            clip::span(g.next_id, at.len()),
        ),
        forall|x: u64| #[trigger]
            g.nodes.dom().contains(x) ==> loose_paste(g, c, at, parent).nodes[x] == before_paste(
                g,
                parent,
            ).nodes[x],
{
    let b = before_paste(g, parent);
    let up = paste_parent(g, parent);
    let first = g.next_id;
    assert(b.nodes.dom() =~= g.nodes.dom());
    lemma_room_free(g, first, c.len());
    let fresh = clip::fresh_nodes(c, at);
    let h = loose_paste(g, c, at, parent);
    assert forall|x: u64| first <= x < first + at.len() implies #[trigger] h.nodes.dom().contains(x)
        && h.nodes[x] == clip::loose(c[x - first], at[x - first]) && !g.nodes.dom().contains(x) by {
        assert(g.free(x));
        assert(fresh[x - first] == clip::loose(c[x - first], at[x - first]));
    }
    assert(h.nodes.dom() =~= b.nodes.dom().union(clip::span(first, at.len())));
    assert forall|x: u64| #[trigger] b.nodes.dom().contains(x) implies h.nodes[x] == b.nodes[x] by {
        if first <= x < first + at.len() {
            assert(h.nodes.dom().contains(x));
        }
    }
    lemma_linked(h, c, first, at.len(), up, at.len());
    let r = h.clip_linked(c, first, at.len(), up, at.len());
    let p = g.pasted(c, at, parent);
    assert(p.nodes == r.nodes && p.edges == r.edges && p.root == r.root && p.next_id == r.next_id);
    assert(b.next_id == first && b.edges == g.edges && b.root == g.root);
    assert forall|x: u64|
        g.next_id <= x < g.next_id + at.len() implies #[trigger] loose_paste(
        g,
        c,
        at,
        parent,
    ).nodes.dom().contains(x) && loose_paste(g, c, at, parent).nodes[x] == clip::loose(
        c[x - g.next_id],
        at[x - g.next_id],
    ) && !g.nodes.dom().contains(x) by {
        assert(h.nodes.dom().contains(x));
    }
}

/// Pasting makes as many new nodes as there are ids for, each with what the clip
/// says of it and hung under the node that the clip says, or where the clip was
/// dropped. Every node that was there keeps its text and its parent.
pub proof fn paste_makes_the_clip(
    g: GraphModel,
    c: Seq<ClipModel>,
    at: Seq<(Coord, Coord)>,
    parent: Option<u64>,
)
    requires
        at.len() == g.room(g.next_id, c.len()),
    ensures
        ({
            let p = g.pasted(c, at, parent);
            &&& forall|i: int|
                0 <= i < at.len() ==> {
                    let id = (g.next_id + i) as u64;
                    let n = #[trigger] clip::loose(c[i], at[i]);
                    &&& !g.has(id)
                    &&& p.has(id)
                    &&& p.nodes[id] == (NodeModel {
                        parent: clip::link_of(c[i], g.next_id, at.len(), paste_parent(g, parent)),
                        ..n
                    })
                }
            &&& forall|x: u64| #[trigger]
                g.has(x) ==> p.has(x) && p.nodes[x].text == g.nodes[x].text && p.parent_of(x)
                    == g.parent_of(x)
            &&& forall|x: u64| #[trigger]
                p.has(x) ==> g.has(x) || clip::span(g.next_id, at.len()).contains(x)
            &&& at.len() > 0 ==> p.selected == clip::span(g.next_id, at.len()) && p.focus
                == g.next_id
        }),
{
    lemma_pasted(g, c, at, parent);
    let b = before_paste(g, parent);
    let p = g.pasted(c, at, parent);
    let first = g.next_id;
    assert forall|i: int| 0 <= i < at.len() implies {
        let id = (first + i) as u64;
        let n = #[trigger] clip::loose(c[i], at[i]);
        &&& !g.has(id)
        &&& p.has(id)
        &&& p.nodes[id] == (NodeModel {
            parent: clip::link_of(c[i], first, at.len(), paste_parent(g, parent)),
            ..n
        })
    } by {
        let id = (first + i) as u64;
        assert(id - first == i);
        let h = loose_paste(g, c, at, parent);
        assert(h.nodes.dom().contains(id));
    }
    assert forall|x: u64| #[trigger] g.has(x) implies p.has(x) && p.nodes[x].text == g.nodes[x].text
        && p.parent_of(x) == g.parent_of(x) by {
        let h = loose_paste(g, c, at, parent);
        assert(b.nodes.dom().contains(x));
        assert(h.nodes.dom().contains(x));
        if first <= x < first + at.len() {
            assert(h.nodes.dom().contains(x));
        }
    }
}

/// What was copied comes back: pasting a copy makes new nodes with the texts, the
/// folds, the colours and the pictures of the old ones, hung among themselves as
/// those are, and the rest hung where the clip was dropped.
pub proof fn pasted_copy_has_the_shape(
    from: GraphModel,
    taken: Seq<u64>,
    c: Seq<ClipModel>,
    g: GraphModel,
    at: Seq<(Coord, Coord)>,
    parent: Option<u64>,
    i: int,
)
    requires
        taken.no_duplicates(),
        taken.len() <= usize::MAX,
        c.len() == taken.len(),
        forall|k: int|
            0 <= k < c.len() ==> (#[trigger] c[k]) == from.clipped(
                taken,
                taken[k],
                c[k].dx,
                c[k].dy,
            ),
        at.len() == c.len(),
        at.len() == g.room(g.next_id, c.len()),
        0 <= i < c.len(),
    ensures
        ({
            let n = from.nodes[taken[i]];
            let p = g.pasted(c, at, parent);
            let m = p.nodes[(g.next_id + i) as u64];
            &&& m.text == n.text
            &&& (m.x, m.y) == at[i]
            &&& m.collapsed == n.collapsed
            &&& m.color == n.color
            &&& m.image == n.image
            &&& m.parent == (if n.parent is Some && taken.contains(n.parent->0) {
                Some((g.next_id + taken.index_of(n.parent->0)) as u64)
            } else {
                paste_parent(g, parent)
            })
        }),
{
    paste_makes_the_clip(g, c, at, parent);
    assert(c[i] == from.clipped(taken, taken[i], c[i].dx, c[i].dy));
    let n = clip::loose(c[i], at[i]);
}

/// Pasting a clip that is a number of trees keeps a map valid, and every link
/// drawn while the counter lasts.
pub proof fn paste_keeps_valid(
    g: GraphModel,
    c: Seq<ClipModel>,
    at: Seq<(Coord, Coord)>,
    parent: Option<u64>,
)
    requires
        g.valid(),
        clip_ok(c),
        at.len() == g.room(g.next_id, c.len()),
        c.len() > 0 ==> encode_utf8(c[0].text).len() <= usize::MAX,
    ensures
        g.pasted(c, at, parent).valid(),
        g.links_ok() && g.next_id + 2 * c.len() < u64::MAX ==> g.pasted(c, at, parent).links_ok(),
{
    lemma_pasted(g, c, at, parent);
    if let Some(p) = parent {
        keeps::folding_keeps_valid(g, p, false);
    }
    let b = before_paste(g, parent);
    assert(b.valid());
    assert(g.links_ok() ==> b.links_ok());
    let up = paste_parent(g, parent);
    let first = g.next_id;
    let n = at.len();
    let h = loose_paste(g, c, at, parent);
    let r = linked_paste(g, c, at, parent);
    let p = g.pasted(c, at, parent);
    // The tree.
    assert forall|x: u64| #[trigger] b.has(x) implies r.has(x) && r.parent_of(x) == b.parent_of(x) by {
        assert(h.nodes.dom().contains(x));
        if first <= x < first + n {
            assert(h.nodes.dom().contains(x));
        }
    }
    assert forall|x: u64| first <= x < first + n implies #[trigger] r.parent_of(x) == clip::link_of(
        c[x - first],
        first,
        n,
        up,
    ) && r.has(x) by {
        assert(h.nodes.dom().contains(x));
    }
    assert forall|x: u64| b.has(x) implies #[trigger] r.rooted(x) by {
        assert(b.rooted(x));
        assert forall|a: u64| #[trigger] b.above(a, x) implies b.has(a) by {
            laws::lemma_above_has(b, a, x);
        }
        laws::lemma_still_rooted(b, r, x);
    }
    assert forall|x: u64| first <= x < first + n implies #[trigger] r.rooted(x) by {
        let i = x - first;
        assert(clip_rooted(c, i));
        let k = choose|k: nat| #[trigger] clip_root_at(c, i, k);
        lemma_pasted_rooted(b, r, c, first, n, up, i, k);
    }
    assert(r.tree_ok()) by {
        assert(b.has(b.root));
        assert forall|x: u64| r.has(x) implies #[trigger] r.rooted(x) by {
            assert(h.nodes.dom().contains(x));
            if !b.has(x) {
                assert(clip::span(first, n).contains(x));
            }
        }
        assert forall|x: u64| (#[trigger] r.parent_of(x)) is Some implies r.has(r.parent_of(x)->0) by {
            assert(h.nodes.dom().contains(x));
            if b.has(x) {
                assert(b.parent_of(x) == r.parent_of(x));
                assert(b.has(b.parent_of(x)->0));
            } else {
                assert(clip::span(first, n).contains(x));
                let q = r.parent_of(x)->0;
                match c[x - first].parent {
                    Some(i) => {
                        assert(h.nodes.dom().contains(q));
                    },
                    None => {
                        assert(b.has(q));
                    },
                }
            }
        }
    }
    // The edges.
    assert forall|e: u64| #[trigger] r.edges.dom().contains(e) implies r.wanted(e) by {
        if b.edges.dom().contains(e) {
            assert(b.wanted(e));
            assert(b.has(b.edges[e].to));
        } else {
            let t = r.edges[e].to;
            assert(r.parent_of(t) == clip::link_of(c[t - first], first, n, up));
        }
    }
    assert forall|e: u64, f: u64| #[trigger]
        r.wanted(e) && #[trigger] r.wanted(f) && r.edges[e].to == r.edges[f].to implies e == f by {
        assert(r.edges.dom().contains(e) && r.edges.dom().contains(f));
        let old_e = b.edges.dom().contains(e);
        let old_f = b.edges.dom().contains(f);
        if old_e && old_f {
            assert(b.wanted(e) && b.wanted(f));
        } else if old_e {
            assert(b.wanted(e));
            assert(b.has(r.edges[e].to));
            assert(h.nodes.dom().contains(r.edges[f].to));
        } else if old_f {
            assert(b.wanted(f));
            assert(b.has(r.edges[f].to));
            assert(h.nodes.dom().contains(r.edges[e].to));
        }
    }
    // The ids.
    assert forall|x: u64| #[trigger] r.has(x) implies r.past(x) by {
        assert(h.nodes.dom().contains(x));
        if b.has(x) {
            assert(b.past(x));
        } else {
            assert(clip::span(first, n).contains(x));
        }
    }
    assert forall|e: u64| #[trigger] r.edges.dom().contains(e) implies r.past(e) by {
        if b.edges.dom().contains(e) {
            assert(b.past(e));
        }
    }
    laws::lemma_same_tree(r, p);
    laws::lemma_same_links(r, p);
    assert(p.ids_ok()) by {
        assert forall|x: u64| #[trigger] p.has(x) implies p.past(x) by {
            assert(r.has(x));
            assert(r.past(x));
        }
        assert forall|e: u64| #[trigger] p.edges.dom().contains(e) implies p.past(e) by {
            assert(r.past(e));
        }
    }
    // The cursor.
    if n > 0 {
        assert(h.nodes.dom().contains(first));
        assert(p.active_text() == c[0].text);
        encode_utf8_valid_utf8(c[0].text);
        crate::text::lemma_boundary(encode_utf8(c[0].text), encode_utf8(c[0].text).len() as int);
        assert forall|x: u64| #[trigger] p.selected.contains(x) implies p.nodes.dom().contains(x) by {
            assert(h.nodes.dom().contains(x));
        }
    } else {
        assert(h.nodes =~= b.nodes);
        assert(h =~= b);
        assert(r == h);
        assert(p =~= b);
    }
    if g.links_ok() && g.next_id + 2 * c.len() < u64::MAX {
        lemma_room_enough(g, c.len());
        assert(h.ids_ok()) by {
            assert forall|x: u64| #[trigger] h.has(x) implies h.past(x) by {
                if b.has(x) {
                    assert(b.past(x));
                } else {
                    assert(clip::span(first, n).contains(x));
                }
            }
            assert forall|e: u64| #[trigger] h.edges.dom().contains(e) implies h.past(e) by {
                assert(b.past(e));
            }
        }
        lemma_all_drawn(h, c, first, n, up, n);
        assert forall|x: u64| #[trigger] p.has(x) && p.nodes[x].parent is Some implies p.is_drawn(
            x,
        ) by {
            assert(h.nodes.dom().contains(x));
            if b.has(x) {
                assert(r.parent_of(x) == b.parent_of(x));
                assert(b.is_drawn(x));
                let e = choose|e: u64| #[trigger] b.wanted(e) && b.edges[e].to == x;
                assert(h.edges.dom().contains(e));
                assert(p.wanted(e));
            } else {
                assert(clip::span(first, n).contains(x));
                let i = x - first;
                assert(clip::link_of(c[i], first, n, up) is Some);
                let e = choose|e: u64| #[trigger]
                    r.edges.dom().contains(e) && r.edges[e].to == first + i
                        && !h.edges.dom().contains(e);
                assert(p.wanted(e));
            }
        }
    }
}

proof fn lemma_pasted_rooted(
    b: GraphModel,
    r: GraphModel,
    c: Seq<ClipModel>,
    first: u64,
    n: nat,
    up: Option<u64>,
    i: int,
    k: nat,
)
    requires
        n <= c.len(),
        first + n <= u64::MAX,
        0 <= i < n,
        clip_root_at(c, i, k),
        forall|x: u64| first <= x < first + n ==> #[trigger] r.parent_of(x) == clip::link_of(
            c[x - first],
            first,
            n,
            up,
        ) && r.has(x),
        up matches Some(p) ==> b.has(p),
        forall|x: u64| b.has(x) ==> #[trigger] r.rooted(x),
    ensures
        r.rooted((first + i) as u64),
    decreases k,
{
    let x = (first + i) as u64;
    assert(x - first == i);
    assert(r.parent_of(x) == clip::link_of(c[i], first, n, up));
    assert(r.ancestor(x, 0) == Some(x));
    match r.parent_of(x) {
        None => {
            assert(r.top_at(x, 0));
        },
        Some(q) => {
            match c[i].parent {
                Some(j) => {
                    if k == 0 {
                        assert(clip_up(c, i, 0) == Some(i));
                    } else {
                        lemma_clip_shift(c, i, (k - 1) as nat);
                        assert(clip_root_at(c, j as int, (k - 1) as nat));
                        lemma_pasted_rooted(b, r, c, first, n, up, j as int, (k - 1) as nat);
                    }
                },
                None => {
                    assert(r.rooted(q));
                },
            }
            let m = choose|m: nat| #[trigger] r.top_at(q, m);
            tree::lemma_ancestor_shift(r, x, m);
            assert(r.top_at(x, m + 1));
        },
    }
}

/// The corner of a clip is the least coordinate of its nodes: none is further to the left
/// or higher up, and one is there.
pub proof fn a_corner_is_the_least(g: GraphModel, v: Seq<u64>, i: int)
    requires
        0 <= i < v.len(),
        forall|k: int|
            0 <= k < v.len() ==> (#[trigger] g.nodes[v[k]]).x.finite() && g.nodes[v[k]].y.finite(),
    ensures
        g.leftmost(v).rank() <= g.nodes[v[i]].x.rank(),
        g.topmost(v).rank() <= g.nodes[v[i]].y.rank(),
        exists|k: int| 0 <= k < v.len() && g.leftmost(v).rank() == (#[trigger] g.nodes[v[k]]).x.rank(),
        exists|k: int| 0 <= k < v.len() && g.topmost(v).rank() == (#[trigger] g.nodes[v[k]]).y.rank(),
    decreases v.len(),
{
    let less = v.drop_last();
    let n = v.len() - 1;
    assert(v.last() == v[n]);
    assert(g.nodes[v[n]].x.finite());
    if v.len() == 1 {
        assert(less =~= seq![]);
        assert(g.leftmost(less).bits == clip::FARTHEST);
        assert(g.topmost(less).bits == clip::FARTHEST);
    } else {
        assert forall|k: int| 0 <= k < less.len() implies (#[trigger] g.nodes[less[k]]).x.finite()
            && g.nodes[less[k]].y.finite() by {
            assert(less[k] == v[k]);
            assert(g.nodes[v[k]].x.finite());
        }
        a_corner_is_the_least(
            g,
            less,
            if i < n {
                i
            } else {
                0
            },
        );
        let a = choose|k: int|
            0 <= k < less.len() && g.leftmost(less).rank() == (#[trigger] g.nodes[less[k]]).x.rank();
        let b = choose|k: int|
            0 <= k < less.len() && g.topmost(less).rank() == (#[trigger] g.nodes[less[k]]).y.rank();
        assert(less[a] == v[a] && less[b] == v[b]);
        assert(g.nodes[v[a]].x.finite() && g.nodes[v[b]].y.finite());
        if i < n {
            assert(less[i] == v[i]);
        }
        lemma_corner_is_a_number(g, less);
    }
}

proof fn lemma_corner_is_a_number(g: GraphModel, v: Seq<u64>)
    ensures
        !g.leftmost(v).not_a_number(),
        !g.topmost(v).not_a_number(),
    decreases v.len(),
{
    if v.len() > 0 {
        lemma_corner_is_a_number(g, v.drop_last());
    }
}

/// `e` draws the link of node `i` of a clip, with the label that the clip gives it.
spec fn draws(
    h: GraphModel,
    e: u64,
    c: Seq<ClipModel>,
    first: u64,
    count: nat,
    parent: Option<u64>,
    i: int,
) -> bool {
    &&& clip::link_of(c[i], first, count, parent) is Some
    &&& h.edges[e] == (EdgeModel {
        from: clip::link_of(c[i], first, count, parent)->0,
        to: (first + i) as u64,
        label: c[i].label,
    })
}

/// Hanging the nodes of a clip keeps every edge, and draws links of the clip alone.
proof fn lemma_drawn(
    g: GraphModel,
    c: Seq<ClipModel>,
    first: u64,
    count: nat,
    parent: Option<u64>,
    n: nat,
    e: u64,
)
    ensures
        ({
            let h = g.clip_linked(c, first, count, parent, n);
            &&& g.edges.dom().contains(e) ==> h.edges.dom().contains(e) && h.edges[e] == g.edges[e]
            &&& h.edges.dom().contains(e) && !g.edges.dom().contains(e) ==> exists|i: int|
                0 <= i < n && #[trigger] draws(h, e, c, first, count, parent, i)
        }),
    decreases n,
{
    if n > 0 {
        let m = (n - 1) as nat;
        lemma_drawn(g, c, first, count, parent, m, e);
        let k = g.clip_linked(c, first, count, parent, m);
        let h = g.clip_linked(c, first, count, parent, n);
        if h.edges.dom().contains(e) && !g.edges.dom().contains(e) {
            if k.edges.dom().contains(e) {
                let i = choose|i: int|
                    0 <= i < m && #[trigger] draws(k, e, c, first, count, parent, i);
                assert(draws(h, e, c, first, count, parent, i));
            } else {
                assert(draws(h, e, c, first, count, parent, n - 1));
            }
        }
    }
}

/// Pasting keeps every edge as it is. Each edge that it makes leads to a node that was
/// pasted, from the one that it hangs under, and says what the clip says of that link.
pub proof fn a_pasted_link_keeps_its_label(
    g: GraphModel,
    c: Seq<ClipModel>,
    at: Seq<(Coord, Coord)>,
    parent: Option<u64>,
    e: u64,
)
    requires
        at.len() == g.room(g.next_id, c.len()),
    ensures
        ({
            let p = g.pasted(c, at, parent);
            &&& g.edges.dom().contains(e) ==> p.edges.dom().contains(e) && p.edges[e] == g.edges[e]
            &&& p.edges.dom().contains(e) && !g.edges.dom().contains(e) ==> exists|i: int|
                #![trigger c[i]]
                {
                    &&& 0 <= i < at.len()
                    &&& p.edges[e].to == g.next_id + i
                    &&& p.edges[e].label == c[i].label
                    &&& p.nodes[p.edges[e].to].parent == Some(p.edges[e].from)
                }
        }),
{
    lemma_pasted(g, c, at, parent);
    paste_makes_the_clip(g, c, at, parent);
    let h = loose_paste(g, c, at, parent);
    let p = g.pasted(c, at, parent);
    let up = paste_parent(g, parent);
    lemma_drawn(h, c, g.next_id, at.len(), up, at.len(), e);
    let r = h.clip_linked(c, g.next_id, at.len(), up, at.len());
    assert(h.edges == g.edges);
    assert(p.edges == r.edges);
    if p.edges.dom().contains(e) && !g.edges.dom().contains(e) {
        let i = choose|i: int|
            0 <= i < at.len() && #[trigger] draws(r, e, c, g.next_id, at.len(), up, i);
        let n = clip::loose(c[i], at[i]);
        assert(p.nodes[(g.next_id + i) as u64].parent == clip::link_of(
            c[i],
            g.next_id,
            at.len(),
            up,
        ));
        assert(c[i] == c[i]);
    }
}

/// A clip keeps what the first edge of a link says, and nothing of a link that leads out of
/// the clip.
pub proof fn a_copied_link_keeps_its_label(
    g: GraphModel,
    taken: Seq<u64>,
    id: u64,
    dx: Coord,
    dy: Coord,
    e: u64,
)
    requires
        g.edges.dom().contains(e),
        g.edges[e].to == id,
        g.nodes[id].parent == Some(g.edges[e].from),
        forall|f: u64| #[trigger]
            g.edges.dom().contains(f) && g.edges[f].to == id && g.edges[f].from == g.edges[e].from
                ==> e <= f,
    ensures
        taken.contains(g.edges[e].from) ==> g.clipped(taken, id, dx, dy).label == g.edges[e].label,
        !taken.contains(g.edges[e].from) ==> g.clipped(taken, id, dx, dy).label.len() == 0
            && g.clipped(taken, id, dx, dy).parent is None,
{
    let s = g.edges_between(g.edges[e].from, id);
    assert(s.contains(e));
    assert(ids::least_of(s, e));
}

/// A clip is put down with its corner where it is dropped: every node keeps its distance
/// from there.
pub proof fn a_clip_lands_where_it_is_dropped<F: Fn(Coord, Coord) -> Coord>(
    c: Seq<ClipModel>,
    at: Seq<(Coord, Coord)>,
    x: Coord,
    y: Coord,
    sum: &F,
    i: int,
)
    requires
        clip::places_of(c, at, x, y, sum),
        0 <= i < at.len(),
    ensures
        i < c.len(),
        sum.ensures((x, c[i].dx), at[i].0),
        sum.ensures((y, c[i].dy), at[i].1),
{
}

} // verus!
