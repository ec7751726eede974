//! The rings of a search and the distances in a tree: in a tree whose links
//! agree, the ring that a search adds for a radius holds the nodes at that
//! distance from the start, and no others.

use crate::fs_iterators::{
    admitted_children, ancestor, came_from, fringe_below, is_admitted, is_admitted_below, is_below,
    is_excluded, is_reached_in, is_reached_over, lemma_after_one_more,
    lemma_child_is_one_edge_below, lemma_fringe_holds_children, lemma_later_ring_is_further,
    lemma_next_ring_is_one_edge_further, lemma_ring_holds_what_is_reached, ring_is_at,
    search_spec, Node, Ring,
};
use vstd::seq_lib::lemma_no_dup_in_concat;
use vstd::prelude::*;
use vstd::std_specs::cmp::PartialEqSpec;

verus! {

/// Whether `==` on nodes tells whether two nodes are the same.
pub open spec fn equality_is_identity<N: Node>() -> bool {
    forall|a: N, b: N| #[trigger] a.eq_spec(&b) <==> a == b
}

/// Whether every child of a node has that node for its parent.
pub open spec fn children_know_their_parent<N: Node>() -> bool {
    forall|parent: N, child: N| #[trigger]
        parent.spec_children()@.contains(child) ==> child.spec_parent() == Some(parent)
}

/// Whether `rank` is less for the parent of a node than for the node.
pub open spec fn falls_upwards<N: Node>(rank: spec_fn(N) -> nat) -> bool {
    forall|node: N| (#[trigger] node.spec_parent()) is Some ==> rank(node.spec_parent()->0) < rank(node)
}

/// Whether the nodes stand in trees whose links agree: `==` tells the same
/// node, the children of a node have it for their parent, and no node is
/// above itself.
pub open spec fn links_agree<N: Node>() -> bool {
    &&& equality_is_identity::<N>()
    &&& children_know_their_parent::<N>()
    &&& exists|rank: spec_fn(N) -> nat| #[trigger] falls_upwards::<N>(rank)
}

/// Whether `node` is `edges` edges away from `start`: it is reached in that
/// many edges, first up and then down, and in no fewer.
pub open spec fn is_at_distance<N: Node>(start: N, edges: nat, node: N) -> bool {
    &&& is_reached_in(start, edges, node)
    &&& forall|fewer: nat| fewer < edges ==> !#[trigger] is_reached_in(start, fewer, node)
}

/// Whether `node` is reached from `start` in `edges` edges, first up and then
/// down, never down into the node that the search came from one edge before.
pub open spec fn is_admitted_in<N: Node>(start: N, edges: nat, node: N) -> bool {
    exists|up: nat| up <= edges && #[trigger] is_admitted_below(start, up, (edges - up) as nat, node)
}

/// Whether each node of `ring` is reached in `edges` edges without turning
/// back.
pub open spec fn ring_holds_admitted<N: Node>(start: N, edges: nat, ring: Ring<N>) -> bool {
    forall|i: int| 0 <= i < ring.nodes().len() ==> is_admitted_in(start, edges, #[trigger] ring.nodes()[i])
}

/// The parent of a node is the first of its ancestors.
pub proof fn lemma_ancestor_of_parent<N: Node>(node: N, edges: nat)
    ensures
        ancestor(node, edges + 1) == match node.spec_parent() {
            Some(parent) => ancestor(parent, edges),
            None => None,
        },
    decreases edges,
{
    if edges > 0 {
        lemma_ancestor_of_parent(node, (edges - 1) as nat);
        assert(ancestor(node, edges + 1) == match ancestor(node, edges) {
            Some(over) => over.spec_parent(),
            None => None,
        });
    }
}

/// The ancestors of an ancestor are ancestors further up.
pub proof fn lemma_ancestor_of_ancestor<N: Node>(node: N, first: nat, more: nat)
    ensures
        ancestor(node, first + more) == match ancestor(node, first) {
            Some(over) => ancestor(over, more),
            None => None,
        },
    decreases more,
{
    if more > 0 {
        lemma_ancestor_of_ancestor(node, first, (more - 1) as nat);
        assert(ancestor(node, first + more) == match ancestor(node, (first + more - 1) as nat) {
            Some(over) => over.spec_parent(),
            None => None,
        });
    }
}

/// The rank falls from each ancestor to the ancestors above it.
pub proof fn lemma_rank_falls_upwards<N: Node>(rank: spec_fn(N) -> nat, node: N, near: nat, far: nat)
    requires
        falls_upwards::<N>(rank),
        near < far,
        ancestor(node, far) is Some,
    ensures
        ancestor(node, near) is Some,
        rank(ancestor(node, far)->0) < rank(ancestor(node, near)->0),
    decreases far,
{
    let below = ancestor(node, (far - 1) as nat);
    assert(below is Some && below->0.spec_parent() == ancestor(node, far));
    if near < far - 1 {
        lemma_rank_falls_upwards(rank, node, near, (far - 1) as nat);
    }
}

/// No node stands twice among the ancestors of a node.
pub proof fn lemma_ancestors_differ<N: Node>(node: N, one: nat, other: nat)
    requires
        links_agree::<N>(),
        ancestor(node, one) is Some,
        ancestor(node, one) == ancestor(node, other),
    ensures
        one == other,
{
    let rank = choose|rank: spec_fn(N) -> nat| #[trigger] falls_upwards::<N>(rank);
    if one < other {
        lemma_rank_falls_upwards(rank, node, one, other);
    } else if other < one {
        lemma_rank_falls_upwards(rank, node, other, one);
    }
}

/// A node that stands `edges` edges below `top` has `top` for its ancestor
/// `edges` edges up.
pub proof fn lemma_top_is_ancestor<N: Node>(top: N, edges: nat, node: N)
    requires
        children_know_their_parent::<N>(),
        is_below(top, edges, node),
    ensures
        ancestor(node, edges) == Some(top),
    decreases edges,
{
    if edges > 0 {
        let over = choose|over: N|
            is_below(top, (edges - 1) as nat, over) && #[trigger] over.spec_children()@.contains(node);
        lemma_top_is_ancestor(top, (edges - 1) as nat, over);
        lemma_ancestor_of_parent(node, (edges - 1) as nat);
    }
}

/// A walk that never turns back is a walk.
pub proof fn lemma_admitted_walk_is_a_walk<N: Node>(start: N, up: nat, down: nat, node: N)
    requires
        is_admitted_below(start, up, down, node),
    ensures
        is_reached_over(start, up + down, up, node),
    decreases down,
{
    if down > 0 {
        let over = choose|over: N|
            {
                &&& is_admitted_below(start, up, (down - 1) as nat, over)
                &&& #[trigger] over.spec_children()@.contains(node)
                &&& !is_excluded(came_from(start, (up + down - 1) as nat), node)
            };
        lemma_admitted_walk_is_a_walk(start, up, (down - 1) as nat, over);
        lemma_child_is_one_edge_below(ancestor(start, up)->0, (down - 1) as nat, over, node);
    }
}

/// A walk that never turns back does not start down into the node that the
/// way up came through.
pub proof fn lemma_admitted_walk_leaves_the_way_up<N: Node>(start: N, up: nat, down: nat, node: N)
    requires
        links_agree::<N>(),
        is_admitted_below(start, up, down, node),
        up >= 1,
        down >= 1,
    ensures
        ancestor(node, (down - 1) as nat) != ancestor(start, (up - 1) as nat),
    decreases down,
{
    let over = choose|over: N|
        {
            &&& is_admitted_below(start, up, (down - 1) as nat, over)
            &&& #[trigger] over.spec_children()@.contains(node)
            &&& !is_excluded(came_from(start, (up + down - 1) as nat), node)
        };
    if down == 1 {
        assert(ancestor(start, up) == Some(over));
        let before = ancestor(start, (up - 1) as nat);
        assert(before is Some);
        assert(came_from(start, up) == before);
        assert(!node.eq_spec(&before->0));
        assert(ancestor(node, 0) == Some(node));
    } else {
        lemma_admitted_walk_leaves_the_way_up(start, up, (down - 1) as nat, over);
        lemma_ancestor_of_parent(node, (down - 2) as nat);
    }
}

/// In a tree whose links agree, a walk that never turns back is a shortest
/// one: no walk from the start to the same node, first up and then down, has
/// fewer edges, and one with as many goes as far up.
pub proof fn lemma_admitted_walk_is_shortest<N: Node>(
    start: N,
    up: nat,
    down: nat,
    node: N,
    other_up: nat,
    other_down: nat,
)
    requires
        links_agree::<N>(),
        is_admitted_below(start, up, down, node),
        is_reached_over(start, other_up + other_down, other_up, node),
    ensures
        up + down <= other_up + other_down,
        up + down == other_up + other_down ==> up == other_up,
{
    lemma_admitted_walk_is_a_walk(start, up, down, node);
    let top = ancestor(start, up)->0;
    let other_top = ancestor(start, other_up)->0;
    lemma_top_is_ancestor(top, down, node);
    lemma_top_is_ancestor(other_top, other_down, node);
    if other_down >= down {
        let more = (other_down - down) as nat;
        lemma_ancestor_of_ancestor(node, down, more);
        lemma_ancestor_of_ancestor(start, up, more);
        assert(ancestor(start, up + more) == ancestor(start, other_up));
        lemma_ancestors_differ(start, other_up, up + more);
    } else {
        let more = (down - other_down) as nat;
        lemma_ancestor_of_ancestor(node, other_down, more);
        lemma_ancestor_of_ancestor(start, other_up, more);
        assert(ancestor(start, other_up + more) == ancestor(start, up));
        lemma_ancestors_differ(start, up, other_up + more);
        lemma_admitted_walk_leaves_the_way_up(start, up, down, node);
        let less = (more - 1) as nat;
        lemma_ancestor_of_ancestor(node, other_down, less);
        lemma_ancestor_of_ancestor(start, other_up, less);
        assert(other_down + less == down - 1);
        assert(other_up + less == up - 1);
        assert(false);
    }
}

/// Where `==` tells the same node, a shortest walk never turns back.
pub proof fn lemma_shortest_walk_is_admitted<N: Node>(start: N, up: nat, down: nat, node: N)
    requires
        equality_is_identity::<N>(),
        is_reached_over(start, up + down, up, node),
        forall|fewer: nat| fewer < up + down ==> !#[trigger] is_reached_in(start, fewer, node),
    ensures
        is_admitted_below(start, up, down, node),
    decreases down,
{
    let top = ancestor(start, up)->0;
    if down > 0 {
        let over = choose|over: N|
            is_below(top, (down - 1) as nat, over) && #[trigger] over.spec_children()@.contains(node);
        assert(is_reached_over(start, (up + down - 1) as nat, up, over));
        assert forall|fewer: nat| fewer < up + down - 1 implies !#[trigger] is_reached_in(
            start,
            fewer,
            over,
        ) by {
            if is_reached_in(start, fewer, over) {
                let turn = choose|turn: nat| #[trigger] is_reached_over(start, fewer, turn, over);
                lemma_child_is_one_edge_below(
                    ancestor(start, turn)->0,
                    (fewer - turn) as nat,
                    over,
                    node,
                );
                assert(is_reached_over(start, fewer + 1, turn, node));
                assert(is_reached_in(start, fewer + 1, node));
            }
        }
        lemma_shortest_walk_is_admitted(start, up, (down - 1) as nat, over);
        let from = came_from(start, (up + down - 1) as nat);
        if is_excluded(from, node) {
            let back = (up + down - 2) as nat;
            assert(from == ancestor(start, back));
            assert(node == from->0);
            assert(is_below(node, 0, node));
            assert(is_reached_over(start, back, back, node));
            assert(is_reached_in(start, back, node));
        }
    }
}

/// Each node of a fringe was admitted to it.
pub proof fn lemma_fringe_holds_admitted<N: Node>(me: Option<N>, nodes: Seq<N>, i: int)
    requires
        0 <= i < fringe_below(me, nodes).len(),
    ensures
        !is_excluded(me, fringe_below(me, nodes)[i]),
    decreases nodes.len(),
{
    let before = fringe_below(me, nodes.drop_last());
    if i < before.len() {
        lemma_fringe_holds_admitted(me, nodes.drop_last(), i);
    } else {
        let admitted = admitted_children(me, nodes.last());
        assert(admitted[i - before.len()] == fringe_below(me, nodes)[i]);
        nodes.last().spec_children()@.lemma_filter_pred(is_admitted(me), i - before.len());
    }
}

/// The ring after one whose nodes are reached without turning back holds
/// such nodes too, one edge further away.
pub proof fn lemma_next_ring_holds_admitted<N: Node>(start: N, edges: nat, ring: Ring<N>)
    requires
        ring_is_at(start, edges, ring),
        ring_holds_admitted(start, edges, ring),
    ensures
        ring_is_at(start, edges + 1, ring.next()),
        ring_holds_admitted(start, edges + 1, ring.next()),
{
    lemma_next_ring_is_one_edge_further(start, edges, ring);
    let next = ring.next();
    assert forall|i: int| 0 <= i < next.nodes().len() implies is_admitted_in(
        start,
        edges + 1,
        #[trigger] next.nodes()[i],
    ) by {
        let node = next.nodes()[i];
        if i < next.descendents.len() {
            assert(node == fringe_below(ring.me, ring.nodes())[i]);
            lemma_fringe_holds_children(ring.me, ring.nodes(), i);
            lemma_fringe_holds_admitted(ring.me, ring.nodes(), i);
            let j = choose|j: int|
                0 <= j < ring.nodes().len() && (#[trigger] ring.nodes()[j]).spec_children()@.contains(node);
            let over = ring.nodes()[j];
            assert(is_admitted_in(start, edges, over));
            let up = choose|up: nat|
                up <= edges && #[trigger] is_admitted_below(start, up, (edges - up) as nat, over);
            let down = (edges + 1 - up) as nat;
            assert((down - 1) as nat == (edges - up) as nat);
            assert((up + down - 1) as nat == edges);
            assert(is_admitted_below(start, up, down, node));
        } else {
            assert(next.parent == Some(node));
            assert(is_admitted_below(start, edges + 1, 0, node));
            assert((edges + 1 - (edges + 1)) as nat == 0);
        }
    }
}

/// The ring `more` rounds later holds nodes that are reached without turning
/// back, `more` edges further away.
pub proof fn lemma_later_ring_holds_admitted<N: Node>(start: N, edges: nat, ring: Ring<N>, more: nat)
    requires
        ring_is_at(start, edges, ring),
        ring_holds_admitted(start, edges, ring),
    ensures
        ring_is_at(start, edges + more, ring.after(more)),
        ring_holds_admitted(start, edges + more, ring.after(more)),
    decreases more,
{
    if more > 0 {
        lemma_next_ring_holds_admitted(start, edges, ring);
        lemma_later_ring_holds_admitted(start, edges + 1, ring.next(), (more - 1) as nat);
    }
}

/// Every node of the ring that a search adds for the radius `edges` is
/// reached in `edges` edges without turning back.
pub proof fn lemma_ring_holds_admitted<N: Node>(start: N, edges: nat)
    ensures
        ring_holds_admitted(start, edges, Ring::first(start).after(edges)),
{
    let first = Ring::first(start);
    assert(ring_is_at(start, 0, first));
    assert forall|i: int| 0 <= i < first.nodes().len() implies is_admitted_in(
        start,
        0,
        #[trigger] first.nodes()[i],
    ) by {
        assert(first.nodes()[i] == start);
        assert(is_admitted_below(start, 0, 0, start));
    }
    lemma_later_ring_holds_admitted(start, 0, first, edges);
}

/// In a tree whose links agree, the ring that a search adds for the radius
/// `edges` holds the nodes that are `edges` edges away from the start, and
/// no others: none that is nearer, none that is further away.
pub proof fn lemma_ring_holds_the_nodes_at_its_distance<N: Node>(start: N, edges: nat, node: N)
    requires
        links_agree::<N>(),
    ensures
        Ring::first(start).after(edges).nodes().contains(node) <==> is_at_distance(start, edges, node),
{
    let ring = Ring::first(start).after(edges);
    if ring.nodes().contains(node) {
        lemma_ring_holds_admitted(start, edges);
        let i = choose|i: int| 0 <= i < ring.nodes().len() && ring.nodes()[i] == node;
        assert(is_admitted_in(start, edges, ring.nodes()[i]));
        let up = choose|up: nat|
            up <= edges && #[trigger] is_admitted_below(start, up, (edges - up) as nat, node);
        lemma_admitted_walk_is_a_walk(start, up, (edges - up) as nat, node);
        assert(is_reached_over(start, edges, up, node));
        assert forall|fewer: nat| fewer < edges implies !#[trigger] is_reached_in(start, fewer, node) by {
            if is_reached_in(start, fewer, node) {
                let turn = choose|turn: nat| #[trigger] is_reached_over(start, fewer, turn, node);
                lemma_admitted_walk_is_shortest(
                    start,
                    up,
                    (edges - up) as nat,
                    node,
                    turn,
                    (fewer - turn) as nat,
                );
            }
        }
    }
    if is_at_distance(start, edges, node) {
        let up = choose|up: nat| #[trigger] is_reached_over(start, edges, up, node);
        lemma_shortest_walk_is_admitted(start, up, (edges - up) as nat, node);
        lemma_ring_holds_what_is_reached(start, up, (edges - up) as nat, node);
    }
}

/// In a tree whose links agree, no node is in two rings of a search.
pub proof fn lemma_rings_share_no_node<N: Node>(start: N, one: nat, other: nat, node: N)
    requires
        links_agree::<N>(),
        Ring::first(start).after(one).nodes().contains(node),
        Ring::first(start).after(other).nodes().contains(node),
    ensures
        one == other,
{
    lemma_ring_holds_the_nodes_at_its_distance(start, one, node);
    lemma_ring_holds_the_nodes_at_its_distance(start, other, node);
}

/// Whether no node has a child twice.
pub open spec fn children_are_distinct<N: Node>() -> bool {
    forall|node: N| (#[trigger] node.spec_children())@.no_duplicates()
}

/// What is left of a sequence without duplicates has none.
pub proof fn lemma_filter_keeps_distinct<T>(items: Seq<T>, keep: spec_fn(T) -> bool)
    requires
        items.no_duplicates(),
    ensures
        items.filter(keep).no_duplicates(),
    decreases items.len(),
{
    reveal(Seq::filter);
    if items.len() > 0 {
        let rest = items.drop_last();
        lemma_filter_keeps_distinct(rest, keep);
        let kept = rest.filter(keep);
        if keep(items.last()) {
            assert forall|i: int, j: int| 0 <= i < kept.len() && 0 <= j < 1 implies kept[i] != seq![
                items.last(),
            ][j] by {
                assert(kept.contains(kept[i]));
                rest.lemma_filter_contains_rev(keep, kept[i]);
                let at = choose|at: int| 0 <= at < rest.len() && rest[at] == kept[i];
                assert(items[at] == kept[i]);
            }
            lemma_no_dup_in_concat(kept, seq![items.last()]);
            assert(kept.push(items.last()) =~= kept + seq![items.last()]);
        }
    }
}

/// In a tree whose links agree and whose nodes have no child twice, a fringe
/// made from distinct nodes holds no node twice.
pub proof fn lemma_fringe_is_distinct<N: Node>(me: Option<N>, nodes: Seq<N>)
    requires
        children_know_their_parent::<N>(),
        children_are_distinct::<N>(),
        nodes.no_duplicates(),
    ensures
        fringe_below(me, nodes).no_duplicates(),
    decreases nodes.len(),
{
    if nodes.len() > 0 {
        let rest = nodes.drop_last();
        let last = nodes.last();
        lemma_fringe_is_distinct(me, rest);
        let before = fringe_below(me, rest);
        let admitted = admitted_children(me, last);
        lemma_filter_keeps_distinct(last.spec_children()@, is_admitted(me));
        assert forall|i: int, j: int|
            0 <= i < before.len() && 0 <= j < admitted.len() implies before[i] != admitted[j] by {
            lemma_fringe_holds_children(me, rest, i);
            let k = choose|k: int|
                0 <= k < rest.len() && (#[trigger] rest[k]).spec_children()@.contains(before[i]);
            assert(admitted.contains(admitted[j]));
            last.spec_children()@.lemma_filter_contains_rev(is_admitted(me), admitted[j]);
            assert(before[i].spec_parent() == Some(rest[k]));
            assert(admitted[j].spec_parent() == Some(last));
            assert(rest[k] == nodes[k]);
            assert(last == nodes[nodes.len() - 1]);
        }
        lemma_no_dup_in_concat(before, admitted);
    }
}

/// In a tree whose links agree and whose nodes have no child twice, a ring of
/// a search holds no node twice.
pub proof fn lemma_ring_is_distinct<N: Node>(start: N, edges: nat)
    requires
        links_agree::<N>(),
        children_are_distinct::<N>(),
    ensures
        Ring::first(start).after(edges).nodes().no_duplicates(),
    decreases edges,
{
    let first = Ring::first(start);
    if edges == 0 {
        assert(first.nodes() =~= seq![start]);
    } else {
        let nearer = (edges - 1) as nat;
        let before = first.after(nearer);
        let ring = first.after(edges);
        lemma_ring_is_distinct(start, nearer);
        lemma_after_one_more(first, nearer);
        assert(ring_is_at(start, 0, first));
        lemma_later_ring_is_further(start, 0, first, edges);
        lemma_fringe_is_distinct(before.me, before.nodes());
        match ring.parent {
            Some(top) => {
                assert forall|i: int, j: int|
                    0 <= i < ring.descendents.len() && 0 <= j < 1 implies ring.descendents[i] != seq![
                    top,
                ][j] by {
                    if ring.descendents[i] == top {
                        lemma_fringe_holds_children(before.me, before.nodes(), i);
                        let k = choose|k: int|
                            0 <= k < before.nodes().len() && (#[trigger] before.nodes()[k]).spec_children()@.contains(
                                top,
                            );
                        let over = before.nodes()[k];
                        assert(top.spec_parent() == Some(over));
                        assert(ancestor(start, edges + 1) == Some(over));
                        assert(is_admitted_below(start, edges + 1, 0, over));
                        lemma_ring_holds_what_is_reached(start, edges + 1, 0, over);
                        assert(before.nodes().contains(over));
                        lemma_rings_share_no_node(start, nearer, edges + 1, over);
                    }
                }
                lemma_no_dup_in_concat(ring.descendents, seq![top]);
            },
            None => {
                assert(ring.nodes() =~= ring.descendents);
            },
        }
    }
}

/// The nodes whose contents a search of `radius` around `start` yields, in
/// the order in which it yields them.
pub open spec fn search_nodes<N: Node>(start: N, radius: nat) -> Seq<N>
    decreases radius,
{
    if radius == 0 {
        Ring::first(start).nodes()
    } else {
        search_nodes(start, (radius - 1) as nat) + Ring::first(start).after(radius).nodes()
    }
}

/// Whether `node` is at most `radius` edges away from `start`.
pub open spec fn is_within<N: Node>(start: N, radius: nat, node: N) -> bool {
    exists|edges: nat| edges <= radius && #[trigger] is_at_distance(start, edges, node)
}

/// A search yields the contents of its nodes, node by node.
pub proof fn lemma_search_yields_the_contents_of_its_nodes<N: Node>(start: N, radius: nat)
    ensures
        search_spec(start, radius).len() == search_nodes(start, radius).len(),
        forall|i: int|
            0 <= i < search_nodes(start, radius).len() ==> search_spec(start, radius)[i] == (
            #[trigger] search_nodes(start, radius)[i]).spec_content(),
    decreases radius,
{
    if radius > 0 {
        lemma_search_yields_the_contents_of_its_nodes(start, (radius - 1) as nat);
    }
}

/// In a tree whose links agree, a search of `radius` yields the nodes that
/// are at most `radius` edges away from the start, and no others.
pub proof fn lemma_search_holds_the_nodes_within_its_radius<N: Node>(start: N, radius: nat, node: N)
    requires
        links_agree::<N>(),
    ensures
        search_nodes(start, radius).contains(node) <==> is_within(start, radius, node),
    decreases radius,
{
    let ring = Ring::first(start).after(radius);
    lemma_ring_holds_the_nodes_at_its_distance(start, radius, node);
    if radius == 0 {
        if is_within(start, radius, node) {
            let edges = choose|edges: nat| edges <= radius && #[trigger] is_at_distance(start, edges, node);
            assert(edges == 0);
        }
    } else {
        let nearer = (radius - 1) as nat;
        lemma_search_holds_the_nodes_within_its_radius(start, nearer, node);
        let before = search_nodes(start, nearer);
        let whole = search_nodes(start, radius);
        if whole.contains(node) {
            let i = choose|i: int| 0 <= i < whole.len() && whole[i] == node;
            if i < before.len() {
                assert(before[i] == node);
                let edges = choose|edges: nat|
                    edges <= nearer && #[trigger] is_at_distance(start, edges, node);
                assert(is_within(start, radius, node));
            } else {
                assert(ring.nodes()[i - before.len()] == node);
                assert(is_at_distance(start, radius, node));
            }
        }
        if is_within(start, radius, node) {
            let edges = choose|edges: nat| edges <= radius && #[trigger] is_at_distance(start, edges, node);
            if edges == radius {
                let j = choose|j: int| 0 <= j < ring.nodes().len() && ring.nodes()[j] == node;
                assert(whole[before.len() + j] == node);
            } else {
                assert(is_within(start, nearer, node));
                let j = choose|j: int| 0 <= j < before.len() && before[j] == node;
                assert(whole[j] == node);
            }
        }
    }
}

/// In a tree whose links agree and whose nodes have no child twice, a search
/// yields no node twice.
pub proof fn lemma_search_yields_no_node_twice<N: Node>(start: N, radius: nat)
    requires
        links_agree::<N>(),
        children_are_distinct::<N>(),
    ensures
        search_nodes(start, radius).no_duplicates(),
    decreases radius,
{
    lemma_ring_is_distinct(start, radius);
    if radius > 0 {
        let nearer = (radius - 1) as nat;
        lemma_search_yields_no_node_twice(start, nearer);
        let before = search_nodes(start, nearer);
        let ring = Ring::first(start).after(radius);
        assert forall|i: int, j: int|
            0 <= i < before.len() && 0 <= j < ring.nodes().len() implies before[i] != ring.nodes()[j] by {
            let node = before[i];
            if node == ring.nodes()[j] {
                assert(before.contains(node));
                assert(ring.nodes().contains(node));
                lemma_search_holds_the_nodes_within_its_radius(start, nearer, node);
                lemma_ring_holds_the_nodes_at_its_distance(start, radius, node);
                let edges = choose|edges: nat|
                    edges <= nearer && #[trigger] is_at_distance(start, edges, node);
                assert(is_reached_in(start, edges, node));
            }
        }
        lemma_no_dup_in_concat(before, ring.nodes());
    }
}

/// In a tree whose links agree and whose nodes have no child twice, what a
/// search of one more in radius adds are the nodes that are exactly one edge
/// further away than the radius before, each once, and nothing else.
pub proof fn lemma_wider_search_adds_the_next_distance<N: Node>(start: N, radius: nat, node: N)
    requires
        links_agree::<N>(),
        children_are_distinct::<N>(),
    ensures
        search_nodes(start, radius + 1) == search_nodes(start, radius) + Ring::first(start).after(
            radius + 1,
        ).nodes(),
        Ring::first(start).after(radius + 1).nodes().no_duplicates(),
        Ring::first(start).after(radius + 1).nodes().contains(node) <==> is_at_distance(
            start,
            radius + 1,
            node,
        ),
        Ring::first(start).after(radius + 1).nodes().contains(node) ==> !search_nodes(
            start,
            radius,
        ).contains(node),
{
    lemma_ring_is_distinct(start, radius + 1);
    lemma_ring_holds_the_nodes_at_its_distance(start, radius + 1, node);
    lemma_search_holds_the_nodes_within_its_radius(start, radius, node);
    if is_at_distance(start, radius + 1, node) && is_within(start, radius, node) {
        let edges = choose|edges: nat| edges <= radius && #[trigger] is_at_distance(start, edges, node);
        assert(is_reached_in(start, edges, node));
    }
}

/// In a tree whose links agree and whose nodes have no child twice, the ring
/// that follows the ring for the radius `edges` holds the nodes that are
/// `edges + 1` edges away from the start, each once, and no others.
pub proof fn lemma_next_ring_holds_the_next_distance<N: Node>(start: N, edges: nat, node: N)
    requires
        links_agree::<N>(),
        children_are_distinct::<N>(),
    ensures
        Ring::first(start).after(edges).next() == Ring::first(start).after(edges + 1),
        Ring::first(start).after(edges).next().nodes().no_duplicates(),
        Ring::first(start).after(edges).next().nodes().contains(node) <==> is_at_distance(
            start,
            edges + 1,
            node,
        ),
{
    lemma_after_one_more(Ring::first(start), edges);
    lemma_ring_is_distinct(start, edges + 1);
    lemma_ring_holds_the_nodes_at_its_distance(start, edges + 1, node);
}

/// Whether one edge leads from `from` to `to`: down, to a child, or up, to
/// the parent.
pub open spec fn is_edge<N: Node>(from: N, to: N) -> bool {
    from.spec_children()@.contains(to) || from.spec_parent() == Some(to)
}

/// Whether a walk of `edges` edges leads from `start` to `node`, each edge
/// up or down as it may be.
pub open spec fn is_walked_in<N: Node>(start: N, edges: nat, node: N) -> bool
    decreases edges,
{
    if edges == 0 {
        node == start
    } else {
        exists|before: N| is_walked_in(start, (edges - 1) as nat, before) && #[trigger] is_edge(before, node)
    }
}

/// Whether `edges` is the number of edges on the way from `start` to `node`:
/// a walk of that many edges leads there, and none of fewer.
pub open spec fn is_fewest_edges<N: Node>(start: N, edges: nat, node: N) -> bool {
    &&& is_walked_in(start, edges, node)
    &&& forall|fewer: nat| fewer < edges ==> !#[trigger] is_walked_in(start, fewer, node)
}

/// Whether `node` is reached from `start` in at most `edges` edges, first up
/// and then down.
pub open spec fn is_reached_within<N: Node>(start: N, edges: nat, node: N) -> bool {
    exists|fewer: nat| fewer <= edges && #[trigger] is_reached_in(start, fewer, node)
}

/// The way up to an ancestor is a walk.
pub proof fn lemma_way_up_is_a_walk<N: Node>(start: N, up: nat)
    requires
        ancestor(start, up) is Some,
    ensures
        is_walked_in(start, up, ancestor(start, up)->0),
    decreases up,
{
    if up > 0 {
        let before = ancestor(start, (up - 1) as nat)->0;
        lemma_way_up_is_a_walk(start, (up - 1) as nat);
        assert(is_edge(before, ancestor(start, up)->0));
    }
}

/// A way that goes first up and then down is a walk.
pub proof fn lemma_way_up_and_down_is_a_walk<N: Node>(start: N, up: nat, down: nat, node: N)
    requires
        is_reached_over(start, up + down, up, node),
    ensures
        is_walked_in(start, up + down, node),
    decreases down,
{
    let top = ancestor(start, up)->0;
    if down == 0 {
        lemma_way_up_is_a_walk(start, up);
    } else {
        let over = choose|over: N|
            is_below(top, (down - 1) as nat, over) && #[trigger] over.spec_children()@.contains(node);
        assert(is_reached_over(start, (up + down - 1) as nat, up, over));
        lemma_way_up_and_down_is_a_walk(start, up, (down - 1) as nat, over);
        assert(is_edge(over, node));
    }
}

/// Where the children of a node have it for their parent, a walk is no
/// shorter than going first up and then down: where a walk leads, a way up
/// and down of no more edges leads too.
pub proof fn lemma_walk_is_no_shorter<N: Node>(start: N, edges: nat, node: N)
    requires
        children_know_their_parent::<N>(),
        is_walked_in(start, edges, node),
    ensures
        is_reached_within(start, edges, node),
    decreases edges,
{
    if edges == 0 {
        assert(is_below(start, 0, node));
        assert(is_reached_over(start, 0, 0, node));
        assert(is_reached_in(start, 0, node));
    } else {
        let before = choose|before: N|
            is_walked_in(start, (edges - 1) as nat, before) && #[trigger] is_edge(before, node);
        lemma_walk_is_no_shorter(start, (edges - 1) as nat, before);
        let fewer = choose|fewer: nat| fewer <= edges - 1 && #[trigger] is_reached_in(start, fewer, before);
        let up = choose|up: nat| #[trigger] is_reached_over(start, fewer, up, before);
        let top = ancestor(start, up)->0;
        let down = (fewer - up) as nat;
        if before.spec_children()@.contains(node) {
            lemma_child_is_one_edge_below(top, down, before, node);
            assert(is_reached_over(start, fewer + 1, up, node));
            assert(is_reached_in(start, fewer + 1, node));
        } else if down == 0 {
            assert(ancestor(start, up + 1) == Some(node));
            assert(is_below(node, 0, node));
            assert(is_reached_over(start, fewer + 1, up + 1, node));
            assert(is_reached_in(start, fewer + 1, node));
        } else {
            let over = choose|over: N|
                is_below(top, (down - 1) as nat, over) && #[trigger] over.spec_children()@.contains(before);
            assert(over == node);
            assert(is_reached_over(start, (fewer - 1) as nat, up, node));
            assert(is_reached_in(start, (fewer - 1) as nat, node));
        }
    }
}

/// Where the children of a node have it for their parent, the distance of a
/// node from the start is the number of edges on the way to it: no walk, go
/// up and down as it may, has fewer edges than the way that goes first up
/// and then down.
pub proof fn lemma_distance_is_the_fewest_edges<N: Node>(start: N, edges: nat, node: N)
    requires
        children_know_their_parent::<N>(),
    ensures
        is_at_distance(start, edges, node) <==> is_fewest_edges(start, edges, node),
{
    if is_at_distance(start, edges, node) {
        let up = choose|up: nat| #[trigger] is_reached_over(start, edges, up, node);
        lemma_way_up_and_down_is_a_walk(start, up, (edges - up) as nat, node);
        assert forall|fewer: nat| fewer < edges implies !#[trigger] is_walked_in(start, fewer, node) by {
            if is_walked_in(start, fewer, node) {
                lemma_walk_is_no_shorter(start, fewer, node);
                let less = choose|less: nat| less <= fewer && #[trigger] is_reached_in(start, less, node);
                assert(less < edges);
            }
        }
    }
    if is_fewest_edges(start, edges, node) {
        lemma_walk_is_no_shorter(start, edges, node);
        let less = choose|less: nat| less <= edges && #[trigger] is_reached_in(start, less, node);
        let up = choose|up: nat| #[trigger] is_reached_over(start, less, up, node);
        lemma_way_up_and_down_is_a_walk(start, up, (less - up) as nat, node);
        assert(less == edges);
        assert forall|fewer: nat| fewer < edges implies !#[trigger] is_reached_in(start, fewer, node) by {
            if is_reached_in(start, fewer, node) {
                let turn = choose|turn: nat| #[trigger] is_reached_over(start, fewer, turn, node);
                lemma_way_up_and_down_is_a_walk(start, turn, (fewer - turn) as nat, node);
            }
        }
    }
}

} // verus!
