//! A map from a list of labels, each with its level.

use vstd::prelude::*;
use vstd::utf8::*;
use crate::convert::flat;
use crate::convert::flat::Item;
use crate::coord;
use crate::coord::Coord;
use crate::graph::fold;
use crate::graph::model;
use crate::graph::model::{EdgeModel, GraphModel};
use crate::graph::outline;
use crate::graph::tidy;
use crate::graph::{Graph, Mode};
use crate::ids;

verus! {

broadcast use {vstd::std_specs::hash::group_hash_axioms, vstd::std_specs::btree::group_btree_axioms};

/// As many items as there are ids for, two to each, and more than a text can hold.
pub const MOST_ITEMS: u64 = 0x3fff_ffff_ffff_ffff;

/// The id of the node that item `i` becomes.
pub open spec fn made_id(i: int) -> u64 {
    (2 + 2 * i) as u64
}

/// What item `i` hangs under: the last item before it of a lesser level, or else
/// the root.
pub open spec fn hung_under(items: Seq<Item>, i: int) -> u64 {
    match outline::outer_of(outline::levels_of(items), i, i as nat) {
        Some(j) => made_id(j),
        None => 1,
    }
}

/// A new map with the first `n` items in it, all in one place.
pub open spec fn grown_map(root: Seq<char>, items: Seq<Item>, n: nat) -> GraphModel {
    let start = coord::spec_whole(0);
    GraphModel {
        next_id: (2 + 2 * n) as u64,
        nodes: Map::new(
            |id: u64| id == 1 || (id >= 2 && id % 2 == 0 && (id - 2) / 2 < n),
            |id: u64|
                if id == 1 {
                    model::plain_node(root, start, start, None)
                } else {
                    model::plain_node(
                        items[(id - 2) / 2].1,
                        start,
                        start,
                        Some(hung_under(items, (id - 2) / 2)),
                    )
                },
        ),
        edges: Map::new(
            |e: u64| e >= 3 && e % 2 == 1 && (e - 3) / 2 < n,
            |e: u64|
                EdgeModel {
                    from: hung_under(items, (e - 3) / 2),
                    to: (e - 1) as u64,
                    label: seq![],
                },
        ),
        root: 1,
        focus: last_made(n),
        edge_focus: None,
        mode: if n == 0 {
            Mode::Browse
        } else {
            Mode::Edit
        },
        caret: encode_utf8(
            if n == 0 {
                root
            } else {
                items[n - 1].1
            },
        ).len() as usize,
        anchor: None,
        selected: set![last_made(n)],
    }
}

pub open spec fn last_made(n: nat) -> u64 {
    if n == 0 {
        1
    } else {
        made_id(n - 1)
    }
}

/// `h` is `g`, in which nothing is folded, laid out.
pub open spec fn spread(g: GraphModel, h: GraphModel) -> bool {
    &&& tidy::repositioned(g, h)
    &&& forall|x: u64|
        g.has(x) && !g.strays().contains(x) ==> ((#[trigger] h.nodes[x]).x, h.nodes[x].y) == g.slot(
            x,
        )
    &&& forall|i: int|
        0 <= i < ids::listed(g.strays()).len() ==> {
            let n = h.nodes[#[trigger] ids::listed(g.strays())[i]];
            &&& n.x == coord::spec_whole(0)
            &&& n.y == coord::spec_whole(tidy::HALF_ROW * (g.strays_top() + 2 * i))
        }
}

/// `r` is the map of a list: every item a node under the node it belongs to, laid
/// out, with the cursor on the root.
pub open spec fn map_of(root: Seq<char>, items: Seq<Item>, r: GraphModel) -> bool {
    exists|h: GraphModel| #[trigger]
        spread(grown_map(root, items, items.len()), h) && r == (GraphModel {
            mode: Mode::Browse,
            anchor: None,
            ..h
        }).focused_on(1)
}

proof fn lemma_grown_step(root: Seq<char>, items: Seq<Item>, n: nat)
    requires
        n < items.len() <= MOST_ITEMS,
    ensures
        ({
            let g = grown_map(root, items, n);
            let at = coord::spec_whole(0);
            &&& g.has(hung_under(items, n as int))
            &&& g.child_created(hung_under(items, n as int), items[n as int].1, at, at) == (
                Some(made_id(n as int)),
                grown_map(root, items, n + 1),
            )
        }),
{
    let g = grown_map(root, items, n);
    let at = coord::spec_whole(0);
    let p = hung_under(items, n as int);
    outline::lemma_outer_before(outline::levels_of(items), n as int, n);
    assert(g.has(p));
    assert forall|x: u64| #[trigger] g.has(x) implies !g.nodes[x].collapsed by {}
    fold::lemma_opened_same(g, p);
    let id = g.next_id;
    assert(id == made_id(n as int));
    assert(g.free(id));
    assert(g.free((id + 1) as u64));
    let (r, h) = g.child_created(p, items[n as int].1, at, at);
    let want = grown_map(root, items, n + 1);
    assert(h.nodes =~= want.nodes);
    assert(h.edges =~= want.edges) by {
        let e = (id + 1) as u64;
        assert((e - 3) / 2 == n);
    }
    assert(h =~= want);
}

/// In the map of a list the root is not under itself, and nothing is folded.
pub proof fn lemma_grown_ground(root: Seq<char>, items: Seq<Item>, n: nat)
    ensures
        grown_map(root, items, n).grounded(),
{
    let g = grown_map(root, items, n);
    assert(g.parent_of(1) is None);
    if g.on_loop(1) {
        let k = choose|k: nat| 1 <= k && #[trigger] g.ancestor(1, k) == Some(1u64);
        crate::graph::tree::lemma_ancestor_shift(g, 1, (k - 1) as nat);
    }
}

/// Build a map: a root, then every item where it belongs, then one layout pass.
pub fn build(root_text: &str, items: &Vec<(usize, String)>) -> (r: Graph)
    requires
        items@.len() <= MOST_ITEMS,
    ensures
        map_of(root_text@, flat::listed(items@), r@),
{
    let ghost all = flat::listed(items@);
    let mut levels: Vec<u128> = Vec::new();
    let mut k: usize = 0;
    while k < items.len()
        invariant
            k <= items@.len(),
            levels@.len() == k,
            forall|m: int| 0 <= m < k ==> #[trigger] levels@[m] == items@[m].0,
        decreases items@.len() - k,
    {
        levels.push(items[k].0 as u128);
        k = k + 1;
    }
    let over = outline::outers(&levels);
    assert(levels@.map_values(|l: u128| l as nat) =~= outline::levels_of(all));
    let mut g = Graph::new(root_text);
    let root: u64 = g.root_id;
    let ghost first = grown_map(root_text@, all, 0);
    assert(g@ =~= first) by {
        assert(g@.nodes =~= first.nodes);
        assert(g@.edges =~= first.edges);
    }
    let mut i: usize = 0;
    while i < items.len()
        invariant
            all == flat::listed(items@),
            items@.len() <= MOST_ITEMS,
            over@.len() == items@.len(),
            forall|m: int|
                0 <= m < over@.len() ==> match #[trigger] over@[m] {
                    Some(j) => outline::outer_of(outline::levels_of(all), m, m as nat) == Some(
                        j as int,
                    ) && j < m,
                    None => outline::outer_of(outline::levels_of(all), m, m as nat) is None,
                },
            i <= items@.len(),
            root == 1,
            g@ == grown_map(root_text@, all, i as nat),
        decreases items@.len() - i,
    {
        let parent: u64 = match over[i] {
            Some(j) => 2 + 2 * (j as u64),
            None => root,
        };
        proof {
            assert(parent == hung_under(all, i as int));
            lemma_grown_step(root_text@, all, i as nat);
            assert(all[i as int].1 == items@[i as int].1@);
        }
        g.create_child_at(parent, Coord::whole(0), Coord::whole(0), items[i].1.as_str());
        i = i + 1;
    }
    let ghost made = g@;
    let still = |at: Coord, from: Coord, to: Coord| -> (r: Coord)
        ensures
            r == at,
        { at };
    proof {
        lemma_grown_ground(root_text@, all, all.len());
    }
    g.tidy(&still);
    let ghost laid = g@;
    proof {
        assert forall|x: u64|
            made.has(x) && !made.strays().contains(x) implies ((#[trigger] laid.nodes[x]).x, laid.nodes[x].y)
            == made.slot(x) by {
            assert(tidy::seat(made, laid.nodes[x], x, &still));
            assert(!made.shown(x) ==> !made.seated(x)) by {
                if exists|y: u64| made.carrier(x, y) {
                    let y = choose|y: u64| made.carrier(x, y);
                    assert(made.has(y));
                }
            }
        }
        assert(spread(made, laid));
    }
    g.leave_edit();
    g.focus(root);
    g
}

} // verus!
