//! A bounded search that spreads from one node of a tree towards its ancestors
//! and its descendants at once, ring by ring.

use crate::error::{CLIError, CLIResult};
use crate::text::option_seq;
use vstd::prelude::*;
use vstd::std_specs::cmp::PartialEqSpec;
use vstd::string::StringExecFns;

verus! {

/// A node of a tree: it has a content, at most one parent and an ordered
/// sequence of children. Two nodes are the same node when `==` says so.
///
/// The three `spec_` functions say what the node is; an implementation
/// promises that `content`, `parent` and `children` return just that. A
/// search follows these links as they are; where they agree with each other
/// as the links of a tree do, its rings are the distances from the start
/// (see the module `distance`).
pub trait Node: Sized + PartialEq {
    type Item;

    spec fn spec_content(&self) -> Self::Item;

    spec fn spec_parent(&self) -> Option<Self>;

    spec fn spec_children(&self) -> Vec<Self>;

    fn content(&self) -> (item: Self::Item)
        ensures
            item == self.spec_content(),
    ;

    fn parent(&self) -> (up: Option<Self>)
        ensures
            up == self.spec_parent(),
    ;

    fn children(&self) -> (below: Vec<Self>)
        ensures
            below@ == self.spec_children()@,
    ;
}

/// One ring of the search: the node on the path to the root that the ring
/// reaches, the node that the path came from, and the nodes that the ring
/// reaches below the path.
pub struct Ring<N> {
    pub me: Option<N>,
    pub parent: Option<N>,
    pub descendents: Seq<N>,
}

/// Whether `node` is the node that a ring must not descend into again.
pub open spec fn is_excluded<N: Node>(me: Option<N>, node: N) -> bool {
    me is Some && node.eq_spec(&me->0)
}

/// The children of `node` that a ring with `me` behind it descends into.
pub open spec fn admitted_children<N: Node>(me: Option<N>, node: N) -> Seq<N> {
    node.spec_children()@.filter(is_admitted(me))
}

/// The test that a child passes when a ring with `me` behind it descends into it.
pub open spec fn is_admitted<N: Node>(me: Option<N>) -> spec_fn(N) -> bool {
    |child: N| !is_excluded(me, child)
}

/// The admitted children of each of `nodes`, in order.
pub open spec fn fringe_below<N: Node>(me: Option<N>, nodes: Seq<N>) -> Seq<N>
    decreases nodes.len(),
{
    if nodes.len() == 0 {
        Seq::empty()
    } else {
        fringe_below(me, nodes.drop_last()) + admitted_children(me, nodes.last())
    }
}

impl<N: Node> Ring<N> {
    /// The ring of radius 0 around `start`.
    pub open spec fn first(start: N) -> Ring<N> {
        Ring { me: None, parent: Some(start), descendents: Seq::empty() }
    }

    /// The nodes of the ring in the order in which they are yielded: those
    /// below the path first, then the node on the path.
    pub open spec fn nodes(self) -> Seq<N> {
        self.descendents + option_seq(self.parent)
    }

    /// The contents of the nodes of the ring, in the same order.
    pub open spec fn contents(self) -> Seq<N::Item> {
        self.nodes().map_values(|n: N| n.spec_content())
    }

    /// The ring one edge further out.
    pub open spec fn next(self) -> Ring<N> {
        Ring {
            me: self.parent,
            parent: match self.parent {
                Some(p) => p.spec_parent(),
                None => None,
            },
            descendents: fringe_below(self.me, self.nodes()),
        }
    }

    /// The ring `k` edges further out.
    pub open spec fn after(self, k: nat) -> Ring<N>
        decreases k,
    {
        if k == 0 {
            self
        } else {
            self.next().after((k - 1) as nat)
        }
    }

    /// The contents of the `rounds` rings that follow this one.
    pub open spec fn tail(self, rounds: nat) -> Seq<N::Item>
        decreases rounds,
    {
        if rounds == 0 {
            Seq::empty()
        } else {
            self.next().contents() + self.next().tail((rounds - 1) as nat)
        }
    }
}

/// What a search of `radius` around `start` yields: ring 0, which is `start`
/// alone, then one ring after the other up to ring `radius`.
pub open spec fn search_spec<N: Node>(start: N, radius: nat) -> Seq<N::Item>
    decreases radius,
{
    if radius == 0 {
        Ring::first(start).contents()
    } else {
        search_spec(start, (radius - 1) as nat) + Ring::first(start).after(radius).contents()
    }
}

/// The rings that follow `ring`, up to `rounds + 1` of them, are the first
/// `rounds` of them and then the one `rounds + 1` edges out.
pub proof fn lemma_tail_grows<N: Node>(ring: Ring<N>, rounds: nat)
    ensures
        ring.tail(rounds + 1) == ring.tail(rounds) + ring.after(rounds + 1).contents(),
    decreases rounds,
{
    if rounds == 0 {
        assert(ring.next().tail(0) =~= Seq::empty());
        assert(ring.after(1) == ring.next().after(0));
        assert(ring.tail(1) =~= ring.tail(0) + ring.after(1).contents());
    } else {
        lemma_tail_grows(ring.next(), (rounds - 1) as nat);
        assert(ring.after(rounds + 1) == ring.next().after(rounds));
        assert(ring.tail(rounds + 1) =~= ring.tail(rounds) + ring.after(rounds + 1).contents());
    }
}

/// After a ring without nodes no ring has any: the search is over, however
/// many rounds are left.
pub proof fn lemma_nothing_follows_an_empty_ring<N: Node>(ring: Ring<N>, rounds: nat)
    requires
        ring.parent is None,
        ring.descendents.len() == 0,
    ensures
        ring.tail(rounds) == Seq::<N::Item>::empty(),
    decreases rounds,
{
    if rounds > 0 {
        let next = ring.next();
        assert(ring.nodes() =~= Seq::empty());
        assert(next.nodes() =~= Seq::empty());
        assert(next.contents() =~= Seq::empty());
        lemma_nothing_follows_an_empty_ring(next, (rounds - 1) as nat);
        assert(ring.tail(rounds) =~= Seq::empty());
    }
}

/// A search yields its first ring and then the rings that follow it.
pub proof fn lemma_search_is_first_ring_and_tail<N: Node>(start: N, radius: nat)
    ensures
        search_spec(start, radius) == Ring::first(start).contents() + Ring::first(start).tail(
            radius,
        ),
    decreases radius,
{
    let first = Ring::first(start);
    if radius == 0 {
        assert(search_spec(start, radius) =~= first.contents() + first.tail(radius));
    } else {
        lemma_search_is_first_ring_and_tail(start, (radius - 1) as nat);
        lemma_tail_grows(first, (radius - 1) as nat);
        assert(search_spec(start, radius) =~= first.contents() + first.tail(radius));
    }
}

/// The state of a search: the ring it is in, how many rings may follow, and
/// how many nodes of the ring have been yielded.
pub struct SearchState<N> {
    pub ring: Ring<N>,
    pub degree: nat,
    pub index: nat,
}

impl<N: Node> SearchState<N> {
    /// The contents of the ring that are still to be yielded.
    pub open spec fn pending(self) -> Seq<N::Item> {
        if self.index <= self.ring.contents().len() {
            self.ring.contents().skip(self.index as int)
        } else {
            Seq::empty()
        }
    }

    /// Everything that is still to be yielded.
    pub open spec fn remaining(self) -> Seq<N::Item> {
        self.pending() + self.ring.tail(self.degree)
    }

    /// Whether the next step leaves the ring for the next one: the ring is
    /// used up, a ring may follow, and the ring holds a node. After a ring
    /// without nodes no ring has any, so such a ring is never left.
    pub open spec fn moves_on(self) -> bool {
        self.index >= self.ring.nodes().len() && self.degree > 0 && self.ring.nodes().len() > 0
    }

    /// The state one ring further out, with nothing of that ring yielded.
    pub open spec fn advanced(self) -> SearchState<N> {
        SearchState { ring: self.ring.next(), degree: (self.degree - 1) as nat, index: 0 }
    }

    /// The state in which the next step looks for its node: the next ring
    /// where the step moves on, else the state as it is.
    pub open spec fn settled(self) -> SearchState<N> {
        if self.moves_on() {
            self.advanced()
        } else {
            self
        }
    }

    /// What the next step yields: the content of the node at `index`, in the
    /// ring that the step looks in, or nothing if that ring has no node there.
    pub open spec fn yielded(self) -> Option<N::Item> {
        let at = self.settled();
        if at.index < at.ring.nodes().len() {
            Some(at.ring.nodes()[at.index as int].spec_content())
        } else {
            None
        }
    }

    /// The state after the next step. A step that yields a node raises
    /// `index` by one and leaves the ring as it is: the ring after it is made
    /// only by the step that finds this one used up. The one exception is an
    /// `index` that cannot be raised, at the last node of a ring that holds
    /// as many nodes as can be counted: that ring is left at once, for the
    /// next one or, if none may follow, for a ring without nodes.
    pub open spec fn stepped(self) -> SearchState<N> {
        let at = self.settled();
        if at.index >= at.ring.nodes().len() {
            at
        } else if at.index < usize::MAX {
            SearchState { index: at.index + 1, ..at }
        } else if at.degree > 0 {
            at.advanced()
        } else {
            SearchState {
                ring: Ring { me: at.ring.me, parent: None, descendents: Seq::empty() },
                degree: 0,
                index: 0,
            }
        }
    }
}

/// A search in progress. It yields the contents of one node at a time.
pub struct BreadthFirstTreeIter<N: Node> {
    pub me: Option<N>,
    pub parent: Option<N>,
    pub descendents: Vec<N>,
    pub degree: usize,
    pub index: usize,
}

impl<N: Node> View for BreadthFirstTreeIter<N> {
    type V = SearchState<N>;

    open spec fn view(&self) -> SearchState<N> {
        SearchState {
            ring: Ring { me: self.me, parent: self.parent, descendents: self.descendents@ },
            degree: self.degree as nat,
            index: self.index as nat,
        }
    }
}

impl<N: Node> BreadthFirstTreeIter<N> {
    /// A search around `start` that has yielded nothing yet.
    pub fn new(start: N, radius: usize) -> (walk: Self)
        ensures
            walk@ == (SearchState { ring: Ring::first(start), degree: radius as nat, index: 0 }),
    {
        BreadthFirstTreeIter {
            me: None,
            parent: Some(start),
            descendents: Vec::new(),
            degree: radius,
            index: 0,
        }
    }

    /// The node of the current ring at position `idx`, if the ring has one
    /// there.
    pub fn get_node(&self, idx: usize) -> (node: Option<&N>)
        ensures
            idx < self@.ring.nodes().len() ==> node == Some(&self@.ring.nodes()[idx as int]),
            idx >= self@.ring.nodes().len() ==> node is None,
    {
        if idx < self.descendents.len() {
            Some(&self.descendents[idx])
        } else if idx == self.descendents.len() {
            self.parent.as_ref()
        } else {
            None
        }
    }

    /// Moves on to the next ring, if one may follow, and says whether it did.
    pub fn relate(&mut self) -> (moved: bool)
        requires
            N::obeys_eq_spec(),
        ensures
            moved == (old(self).degree > 0),
            moved ==> final(self)@ == (SearchState {
                ring: old(self)@.ring.next(),
                degree: (old(self).degree - 1) as nat,
                index: 0,
            }),
            !moved ==> *final(self) == *old(self),
    {
        if self.degree > 0 {
            let mut next_descendents: Vec<N> = Vec::new();
            let ghost ring = self@.ring;
            let count = self.descendents.len();
            let mut at: usize = 0;
            while at < count
                invariant
                    N::obeys_eq_spec(),
                    *self == *old(self),
                    ring == self@.ring,
                    count == self.descendents.len(),
                    at <= count,
                    next_descendents@ == fringe_below(ring.me, ring.descendents.take(at as int)),
                decreases count - at,
            {
                push_admitted_children(&mut next_descendents, &self.me, &self.descendents[at]);
                proof {
                    let upto = ring.descendents.take(at + 1);
                    assert(upto.drop_last() =~= ring.descendents.take(at as int));
                    assert(upto.last() == ring.descendents[at as int]);
                }
                at += 1;
            }
            proof {
                assert(ring.descendents.take(count as int) =~= ring.descendents);
            }
            match &self.parent {
                Some(p) => {
                    push_admitted_children(&mut next_descendents, &self.me, p);
                    proof {
                        assert(ring.nodes().drop_last() =~= ring.descendents);
                        assert(ring.nodes().last() == *p);
                    }
                },
                None => {
                    proof {
                        assert(ring.nodes() =~= ring.descendents);
                    }
                },
            }
            let next_parent = match &self.parent {
                Some(p) => p.parent(),
                None => None,
            };
            self.descendents = next_descendents;
            self.me = self.parent.take();
            self.parent = next_parent;
            self.index = 0;
            self.degree -= 1;
            true
        } else {
            false
        }
    }

    /// Yields the content of the next node, or `None` when the search is
    /// over. The ring after the current one is made, and the children of the
    /// nodes of the current ring are asked for, only by the step that finds
    /// the current ring used up; a step that finds nothing leaves the search
    /// as it is, unless it has just moved on to a ring without nodes.
    pub fn next(&mut self) -> (item: Option<N::Item>)
        requires
            N::obeys_eq_spec(),
        ensures
            item == old(self)@.yielded(),
            final(self)@ == old(self)@.stepped(),
            !old(self)@.moves_on() && item is None ==> *final(self) == *old(self),
            match item {
                Some(c) => old(self)@.remaining() == seq![c] + final(self)@.remaining(),
                None => old(self)@.remaining().len() == 0 && final(self)@.remaining().len() == 0,
            },
    {
        if self.get_node(self.index).is_none() {
            proof {
                assert(self@.pending() =~= Seq::empty());
            }
            if self.parent.is_none() && self.descendents.len() == 0 {
                proof {
                    assert(self@.ring.nodes() =~= Seq::empty());
                    lemma_nothing_follows_an_empty_ring(self@.ring, self@.degree);
                    assert(self@.remaining() =~= Seq::empty());
                }
                return None;
            }
            proof {
                assert(self@.ring.nodes().len() > 0);
            }
            if !self.relate() {
                proof {
                    assert(self@.remaining() =~= Seq::empty());
                }
                return None;
            }
            proof {
                assert(self@ == old(self)@.advanced());
                assert(self@.pending() =~= self@.ring.contents());
            }
        }
        let ghost at = self@;
        proof {
            assert(at == old(self)@.settled());
            assert(at.remaining() == old(self)@.remaining());
        }
        let idx = self.index;
        match self.get_node(idx) {
            Some(node) => {
                let item = node.content();
                proof {
                    let contents = at.ring.contents();
                    assert(at.pending() =~= seq![item] + contents.skip(idx + 1));
                }
                if idx < usize::MAX {
                    self.index = idx + 1;
                    proof {
                        assert(at.remaining() =~= seq![item] + self@.remaining());
                    }
                } else {
                    let below = self.descendents.len();
                    proof {
                        assert(self.descendents@.len() == below);
                        assert(option_seq(self.parent).len() <= 1);
                        assert(at.ring.nodes().len() == idx + 1);
                        assert(at.ring.contents().skip(idx + 1) =~= Seq::empty());
                    }
                    if self.relate() {
                        proof {
                            assert(self@.pending() =~= self@.ring.contents());
                        }
                    } else {
                        self.parent = None;
                        self.descendents = Vec::new();
                        self.index = 0;
                        proof {
                            assert(self@.pending() =~= Seq::empty());
                        }
                    }
                    proof {
                        assert(at.remaining() =~= seq![item] + self@.remaining());
                    }
                }
                Some(item)
            },
            None => {
                proof {
                    assert(at.ring.nodes() =~= Seq::empty());
                    assert(at.pending() =~= Seq::empty());
                    lemma_nothing_follows_an_empty_ring(at.ring, at.degree);
                    assert(at.remaining() =~= Seq::empty());
                }
                None
            },
        }
    }
}

/// The contents of all nodes at most `radius` edges away from `start`,
/// nearest first.
pub fn search<N: Node>(start: N, radius: usize) -> (found: Vec<N::Item>)
    requires
        N::obeys_eq_spec(),
    ensures
        found@ == search_spec(start, radius as nat),
{
    let mut walk = BreadthFirstTreeIter::new(start, radius);
    let mut found: Vec<N::Item> = Vec::new();
    proof {
        lemma_search_is_first_ring_and_tail(start, radius as nat);
        assert(walk@.pending() =~= walk@.ring.contents());
    }
    loop
        invariant
            N::obeys_eq_spec(),
            search_spec(start, radius as nat) == found@ + walk@.remaining(),
        decreases walk@.remaining().len(),
    {
        match walk.next() {
            Some(item) => {
                proof {
                    assert(found@.push(item) + walk@.remaining() =~= found@ + (seq![item]
                        + walk@.remaining()));
                }
                found.push(item);
            },
            None => {
                proof {
                    assert(found@ + walk@.remaining() =~= found@);
                }
                return found;
            },
        }
    }
}

/// A search of radius 0 yields the content of its start and nothing else.
pub proof fn lemma_search_of_radius_zero<N: Node>(start: N)
    ensures
        search_spec(start, 0) == seq![start.spec_content()],
{
    assert(Ring::first(start).nodes() =~= seq![start]);
    assert(search_spec(start, 0) =~= seq![start.spec_content()]);
}

/// A search of one more in radius yields what the narrower search yields, in
/// the same order, and then the ring one edge further out: nothing is taken
/// away or moved.
pub proof fn lemma_search_grows_by_one_ring<N: Node>(start: N, radius: nat)
    ensures
        search_spec(start, radius + 1) == search_spec(start, radius) + Ring::first(start).after(
            radius + 1,
        ).contents(),
        search_spec(start, radius).is_prefix_of(search_spec(start, radius + 1)),
{
}

/// A wider search starts with what a narrower search yields.
pub proof fn lemma_search_is_prefix_of_wider<N: Node>(start: N, narrow: nat, wide: nat)
    requires
        narrow <= wide,
    ensures
        search_spec(start, narrow).is_prefix_of(search_spec(start, wide)),
    decreases wide,
{
    if narrow < wide {
        lemma_search_is_prefix_of_wider(start, narrow, (wide - 1) as nat);
        lemma_search_grows_by_one_ring(start, (wide - 1) as nat);
    }
}

/// The node `edges` edges above `start`, if the tree reaches that far up.
pub open spec fn ancestor<N: Node>(start: N, edges: nat) -> Option<N>
    decreases edges,
{
    if edges == 0 {
        Some(start)
    } else {
        match ancestor(start, (edges - 1) as nat) {
            Some(node) => node.spec_parent(),
            None => None,
        }
    }
}

/// Whether `node` is reached from `top` by going down `edges` edges, each
/// from a node to one of its children.
pub open spec fn is_below<N: Node>(top: N, edges: nat, node: N) -> bool
    decreases edges,
{
    if edges == 0 {
        node == top
    } else {
        exists|over: N|
            is_below(top, (edges - 1) as nat, over) && #[trigger] over.spec_children()@.contains(node)
    }
}

/// Whether `node` is reached from `start` by going up `up` edges, each from a
/// node to its parent, and then down, each from a node to one of its
/// children, `edges` edges in all.
pub open spec fn is_reached_over<N: Node>(start: N, edges: nat, up: nat, node: N) -> bool {
    &&& up <= edges
    &&& ancestor(start, up) is Some
    &&& is_below(ancestor(start, up)->0, (edges - up) as nat, node)
}

/// Whether `node` is reached from `start` in `edges` edges: first up, then
/// down.
pub open spec fn is_reached_in<N: Node>(start: N, edges: nat, node: N) -> bool {
    exists|up: nat| #[trigger] is_reached_over(start, edges, up, node)
}

/// The node that the ring `edges` edges away does not descend into again:
/// the ancestor one edge nearer, which the search came from.
pub open spec fn came_from<N: Node>(start: N, edges: nat) -> Option<N> {
    if edges == 0 {
        None
    } else {
        ancestor(start, (edges - 1) as nat)
    }
}

/// Whether `node` is reached from `start` by going up `up` edges and then
/// down `down` edges, never down into the node that the search came from
/// one edge before.
pub open spec fn is_admitted_below<N: Node>(start: N, up: nat, down: nat, node: N) -> bool
    decreases down,
{
    if down == 0 {
        ancestor(start, up) == Some(node)
    } else {
        exists|over: N|
            {
                &&& is_admitted_below(start, up, (down - 1) as nat, over)
                &&& #[trigger] over.spec_children()@.contains(node)
                &&& !is_excluded(came_from(start, (up + down - 1) as nat), node)
            }
    }
}

/// Whether `ring` is `edges` edges away from `start`: it has reached the
/// ancestor that far up, and what it holds below the path is that far away.
pub open spec fn ring_is_at<N: Node>(start: N, edges: nat, ring: Ring<N>) -> bool {
    &&& ring.parent == ancestor(start, edges)
    &&& ring.me == came_from(start, edges)
    &&& forall|i: int|
        0 <= i < ring.descendents.len() ==> is_reached_in(start, edges, #[trigger] ring.descendents[i])
}

/// A child of a node that is `edges` edges below `top` is one edge further
/// below it.
pub proof fn lemma_child_is_one_edge_below<N: Node>(top: N, edges: nat, over: N, node: N)
    requires
        is_below(top, edges, over),
        over.spec_children()@.contains(node),
    ensures
        is_below(top, edges + 1, node),
{
    assert(((edges + 1) - 1) as nat == edges);
    assert(is_below(top, ((edges + 1) - 1) as nat, over));
}

/// Each node of a fringe is a child of one of the nodes that the fringe was
/// made from.
pub proof fn lemma_fringe_holds_children<N: Node>(me: Option<N>, nodes: Seq<N>, i: int)
    requires
        0 <= i < fringe_below(me, nodes).len(),
    ensures
        exists|j: int|
            0 <= j < nodes.len() && (#[trigger] nodes[j]).spec_children()@.contains(
                fringe_below(me, nodes)[i],
            ),
    decreases nodes.len(),
{
    let before = fringe_below(me, nodes.drop_last());
    let node = fringe_below(me, nodes)[i];
    if i < before.len() {
        lemma_fringe_holds_children(me, nodes.drop_last(), i);
        let j = choose|j: int|
            0 <= j < nodes.drop_last().len() && (#[trigger] nodes.drop_last()[j]).spec_children()@.contains(
                node,
            );
        assert(nodes[j] == nodes.drop_last()[j]);
    } else {
        let admitted = admitted_children(me, nodes.last());
        assert(admitted[i - before.len()] == node);
        assert(admitted.contains(node));
        nodes.last().spec_children()@.lemma_filter_contains_rev(is_admitted(me), node);
        assert(nodes[nodes.len() - 1] == nodes.last());
    }
}

/// The ring after one that is `edges` edges away is one edge further away.
pub proof fn lemma_next_ring_is_one_edge_further<N: Node>(start: N, edges: nat, ring: Ring<N>)
    requires
        ring_is_at(start, edges, ring),
    ensures
        ring_is_at(start, edges + 1, ring.next()),
{
    let next = ring.next();
    assert forall|i: int| 0 <= i < next.descendents.len() implies is_reached_in(
        start,
        edges + 1,
        #[trigger] next.descendents[i],
    ) by {
        let node = next.descendents[i];
        lemma_fringe_holds_children(ring.me, ring.nodes(), i);
        let j = choose|j: int|
            0 <= j < ring.nodes().len() && (#[trigger] ring.nodes()[j]).spec_children()@.contains(node);
        let over = ring.nodes()[j];
        if j < ring.descendents.len() {
            assert(over == ring.descendents[j]);
            assert(is_reached_in(start, edges, over));
        } else {
            assert(ring.parent == Some(over));
            assert(is_below(over, 0, over));
            assert(is_reached_over(start, edges, edges, over));
        }
        let up = choose|up: nat| #[trigger] is_reached_over(start, edges, up, over);
        let top = ancestor(start, up)->0;
        lemma_child_is_one_edge_below(top, (edges - up) as nat, over, node);
        assert(is_reached_over(start, edges + 1, up, node));
    }
}

/// The ring `more` rounds after one that is `edges` edges away is `more`
/// edges further away.
pub proof fn lemma_later_ring_is_further<N: Node>(start: N, edges: nat, ring: Ring<N>, more: nat)
    requires
        ring_is_at(start, edges, ring),
    ensures
        ring_is_at(start, edges + more, ring.after(more)),
    decreases more,
{
    if more > 0 {
        lemma_next_ring_is_one_edge_further(start, edges, ring);
        lemma_later_ring_is_further(start, edges + 1, ring.next(), (more - 1) as nat);
    }
}

/// Every node of the ring that a search adds for the radius `edges` is
/// reached from the start in `edges` edges: some edges up and the others
/// down.
pub proof fn lemma_ring_is_at_its_distance<N: Node>(start: N, edges: nat)
    ensures
        forall|i: int|
            0 <= i < Ring::first(start).after(edges).nodes().len() ==> is_reached_in(
                start,
                edges,
                #[trigger] Ring::first(start).after(edges).nodes()[i],
            ),
{
    let first = Ring::first(start);
    assert(ring_is_at(start, 0, first));
    lemma_later_ring_is_further(start, 0, first, edges);
    let ring = first.after(edges);
    assert forall|i: int| 0 <= i < ring.nodes().len() implies is_reached_in(
        start,
        edges,
        #[trigger] ring.nodes()[i],
    ) by {
        if i < ring.descendents.len() {
            assert(ring.nodes()[i] == ring.descendents[i]);
        } else {
            let top = ring.nodes()[i];
            assert(ancestor(start, edges) == Some(top));
            assert(is_below(top, 0, top));
            assert(is_reached_over(start, edges, edges, top));
        }
    }
}

/// The ring one round later is the next of the ring before it.
pub proof fn lemma_after_one_more<N: Node>(ring: Ring<N>, rounds: nat)
    ensures
        ring.after(rounds + 1) == ring.after(rounds).next(),
    decreases rounds,
{
    if rounds > 0 {
        lemma_after_one_more(ring.next(), (rounds - 1) as nat);
        assert(ring.after(rounds + 1) == ring.next().after(rounds));
    } else {
        assert(ring.after(1) == ring.next().after(0));
    }
}

/// A fringe holds every admitted child of each of the nodes that it was made
/// from.
pub proof fn lemma_fringe_holds_admitted_children<N: Node>(
    me: Option<N>,
    nodes: Seq<N>,
    over: N,
    node: N,
)
    requires
        nodes.contains(over),
        over.spec_children()@.contains(node),
        !is_excluded(me, node),
    ensures
        fringe_below(me, nodes).contains(node),
    decreases nodes.len(),
{
    let j = choose|j: int| 0 <= j < nodes.len() && nodes[j] == over;
    let before = fringe_below(me, nodes.drop_last());
    let admitted = admitted_children(me, nodes.last());
    if j < nodes.len() - 1 {
        assert(nodes.drop_last()[j] == over);
        lemma_fringe_holds_admitted_children(me, nodes.drop_last(), over, node);
        let i = choose|i: int| 0 <= i < before.len() && before[i] == node;
        assert(fringe_below(me, nodes)[i] == node);
    } else {
        let children = over.spec_children()@;
        let k = choose|k: int| 0 <= k < children.len() && children[k] == node;
        children.lemma_filter_contains(is_admitted(me), k);
        let i = choose|i: int| 0 <= i < admitted.len() && admitted[i] == node;
        assert(fringe_below(me, nodes)[before.len() + i] == node);
    }
}

/// Every node that is reached from the start by going up `up` edges and then
/// down `down` edges, never down into the node that the search came from, is
/// in the ring that the search adds for the radius `up + down`.
pub proof fn lemma_ring_holds_what_is_reached<N: Node>(start: N, up: nat, down: nat, node: N)
    requires
        is_admitted_below(start, up, down, node),
    ensures
        Ring::first(start).after(up + down).nodes().contains(node),
    decreases down,
{
    let first = Ring::first(start);
    assert(ring_is_at(start, 0, first));
    if down == 0 {
        lemma_later_ring_is_further(start, 0, first, up);
        let ring = first.after(up);
        assert(ring.nodes()[ring.descendents.len() as int] == node);
    } else {
        let over = choose|over: N|
            {
                &&& is_admitted_below(start, up, (down - 1) as nat, over)
                &&& #[trigger] over.spec_children()@.contains(node)
                &&& !is_excluded(came_from(start, (up + down - 1) as nat), node)
            };
        let nearer = (up + down - 1) as nat;
        lemma_ring_holds_what_is_reached(start, up, (down - 1) as nat, over);
        lemma_later_ring_is_further(start, 0, first, nearer);
        lemma_after_one_more(first, nearer);
        let ring = first.after(nearer);
        lemma_fringe_holds_admitted_children(ring.me, ring.nodes(), over, node);
        let next = ring.next();
        let i = choose|i: int| 0 <= i < next.descendents.len() && next.descendents[i] == node;
        assert(next.nodes()[i] == node);
    }
}

/// Whether `item` is the first of `yielded` that `accepts` accepts, and
/// stands at `at`: `accepts` rejects all before it.
pub open spec fn is_first_accepted_at<T, F: Fn(&T) -> bool>(
    yielded: Seq<T>,
    accepts: F,
    item: T,
    at: int,
) -> bool {
    &&& 0 <= at < yielded.len()
    &&& yielded[at] == item
    &&& accepts.ensures((&item,), true)
    &&& forall|j: int| 0 <= j < at ==> accepts.ensures((&#[trigger] yielded[j],), false)
}

/// Whether `item` is the first of `yielded` that `accepts` accepts.
pub open spec fn is_first_accepted<T, F: Fn(&T) -> bool>(yielded: Seq<T>, accepts: F, item: T) -> bool {
    exists|at: int| #[trigger] is_first_accepted_at(yielded, accepts, item, at)
}

/// Whether `accepts` rejects each of `yielded`.
pub open spec fn rejects_all<T, F: Fn(&T) -> bool>(yielded: Seq<T>, accepts: F) -> bool {
    forall|j: int| 0 <= j < yielded.len() ==> accepts.ensures((&#[trigger] yielded[j],), false)
}

impl<N: Node> SearchState<N> {
    /// The state after `steps` steps.
    pub open spec fn after_steps(self, steps: nat) -> SearchState<N>
        decreases steps,
    {
        if steps == 0 {
            self
        } else {
            self.after_steps((steps - 1) as nat).stepped()
        }
    }
}

impl<N: Node> BreadthFirstTreeIter<N> {
    /// Steps on to the first content that `accepts` accepts, and yields it;
    /// or to the end of the search, if there is none. It makes no step after
    /// the one that yields the content.
    pub fn find<F: Fn(&N::Item) -> bool>(&mut self, accepts: F) -> (found: Option<N::Item>)
        requires
            N::obeys_eq_spec(),
            forall|item: &N::Item| accepts.requires((item,)),
        ensures
            match found {
                Some(item) => exists|at: int|
                    {
                        &&& #[trigger] is_first_accepted_at(old(self)@.remaining(), accepts, item, at)
                        &&& final(self)@ == old(self)@.after_steps((at + 1) as nat)
                    },
                None => {
                    &&& rejects_all(old(self)@.remaining(), accepts)
                    &&& final(self)@ == old(self)@.after_steps(old(self)@.remaining().len() + 1)
                },
            },
    {
        let ghost all = self@.remaining();
        let ghost mut seen: Seq<N::Item> = Seq::empty();
        proof {
            assert(seen + self@.remaining() =~= all);
        }
        loop
            invariant
                N::obeys_eq_spec(),
                forall|item: &N::Item| accepts.requires((item,)),
                all == old(self)@.remaining(),
                all == seen + self@.remaining(),
                self@ == old(self)@.after_steps(seen.len()),
                forall|j: int| 0 <= j < seen.len() ==> accepts.ensures((&#[trigger] all[j],), false),
            decreases self@.remaining().len(),
        {
            let ghost before = self@;
            match self.next() {
                Some(item) => {
                    proof {
                        assert(all[seen.len() as int] == item);
                        assert(seen.push(item) + self@.remaining() =~= all);
                        assert(self@ == old(self)@.after_steps(seen.len() + 1));
                    }
                    if accepts(&item) {
                        proof {
                            assert(is_first_accepted_at(all, accepts, item, seen.len() as int));
                        }
                        return Some(item);
                    }
                    proof {
                        seen = seen.push(item);
                    }
                },
                None => {
                    proof {
                        assert(seen + before.remaining() =~= seen);
                        assert(self@ == old(self)@.after_steps(seen.len() + 1));
                    }
                    return None;
                },
            }
        }
    }
}

/// Looks for a compilation database around `start`: the directories at most
/// `radius` edges away are tried from the nearest on, and the first that
/// `has_database` accepts is the one.
pub fn find_compilation_database<N: Node, F: Fn(&N::Item) -> bool>(
    start: N,
    radius: usize,
    has_database: F,
) -> (found: CLIResult<N::Item>)
    requires
        N::obeys_eq_spec(),
        forall|dir: &N::Item| has_database.requires((dir,)),
    ensures
        match found {
            Ok(dir) => is_first_accepted(search_spec(start, radius as nat), has_database, dir),
            Err(error) => error is CompilationDatabaseSearchFailed && rejects_all(
                search_spec(start, radius as nat),
                has_database,
            ),
        },
{
    let mut walk = BreadthFirstTreeIter::new(start, radius);
    proof {
        lemma_search_is_first_ring_and_tail(start, radius as nat);
        assert(walk@.pending() =~= walk@.ring.contents());
    }
    match walk.find(has_database) {
        Some(dir) => Ok(dir),
        None => Err(CLIError::CompilationDatabaseSearchFailed),
    }
}

/// The path without its last component, as `std::path::Path::parent` tells
/// it, or `None` where the path ends in a root or is empty.
pub uninterp spec fn parent_path(path: Seq<char>) -> Option<Seq<char>>;

/// `std::path::Path::parent`.
#[verifier::external_body]
fn parent_of_path(path: &str) -> (up: Option<String>)
    ensures
        match up {
            Some(dir) => parent_path(path@) == Some(dir@),
            None => parent_path(path@) is None,
        },
{
    match std::path::Path::new(path).parent() {
        Some(up) => Some(up.to_string_lossy().into_owned()),
        None => None,
    }
}

/// A directory, by its absolute path. Its children are its subdirectories;
/// reading them is left to the caller.
pub struct FilesystemDirectoryNode {
    pub path: String,
}

impl FilesystemDirectoryNode {
    /// The path of the directory.
    pub fn content(&self) -> (path: String)
        ensures
            path@ == self.path@,
    {
        String::from_str(self.path.as_str())
    }

    /// The directory that holds this one, if there is one.
    pub fn parent(&self) -> (up: Option<FilesystemDirectoryNode>)
        ensures
            match up {
                Some(dir) => parent_path(self.path@) == Some(dir.path@),
                None => parent_path(self.path@) is None,
            },
    {
        match parent_of_path(self.path.as_str()) {
            Some(path) => Some(FilesystemDirectoryNode { path }),
            None => None,
        }
    }
}

/// Appends to `fringe` the children of `node` other than `me`.
fn push_admitted_children<N: Node>(fringe: &mut Vec<N>, me: &Option<N>, node: &N)
    requires
        N::obeys_eq_spec(),
    ensures
        final(fringe)@ == old(fringe)@ + admitted_children(*me, *node),
{
    let kids = node.children();
    let ghost all = kids@;
    let ghost keep = is_admitted(*me);
    let ghost base = fringe@;
    proof {
        reveal(Seq::filter);
        assert(all.take(0).filter(keep) =~= Seq::empty());
    }
    for child in it: kids.into_iter()
        invariant
            N::obeys_eq_spec(),
            it.seq() == all,
            all == node.spec_children()@,
            base == old(fringe)@,
            keep == is_admitted(*me),
            fringe@ == base + all.take(it.index() as int).filter(keep),
    {
        let excluded = match me {
            Some(m) => child.eq(m),
            None => false,
        };
        proof {
            let upto = all.take(it.index() + 1);
            let sofar = all.take(it.index() as int);
            assert(upto.drop_last() =~= sofar);
            assert(upto.last() == child);
            assert(keep(child) == !excluded);
            assert(upto.filter(keep) == if keep(child) {
                sofar.filter(keep).push(child)
            } else {
                sofar.filter(keep)
            }) by {
                reveal(Seq::filter);
            }
        }
        if !excluded {
            fringe.push(child);
        }
        proof {
            assert(fringe@ =~= base + all.take(it.index() + 1).filter(keep));
        }
    }
    proof {
        assert(all.take(all.len() as int) =~= all);
    }
}

} // verus!
