//! Lower bounds for the multi-level search, by way of portals.

use crate::directions::STRAIGHT_COST;
use crate::frontier::Frontier;
use crate::geometry::{
    apart, are_comparable, chebyshev, comparable, fewest_steps_cost, geometrically_connected,
    law_distances_in_numbers, law_estimate_is_zero_in_range,
    law_step_lowers_estimate_by_at_most_its_cost, magnitude, octile_fits, octile_to_range, one_step,
    outside, relaxed_cost, relaxed_distance, smaller, LayeredNode,
};
use crate::measure::{lemma_potential_at_first, lemma_potential_falls, potential};
use crate::packed_map::PackedMap;
use crate::queue::RelaxedQueueEntry;
use crate::topology::{law_positions_lead_back, node_for_xyz, NavLink, Topology};
use crate::walks::{admissible, is_walk, lemma_walk_prepend, lemma_walk_tail, total, Edges};
use vstd::multiset::Multiset;
use vstd::prelude::*;

verus! {

broadcast use vstd::multiset::group_multiset_axioms;

/// The relaxed model of a multi-level search. Walls, blockers and the question whether a mover may
/// take a link are left out of it.
pub struct PortalModel {
    /// Where the z-levels stand.
    pub topology: Topology,
    /// Search target node.
    pub goal: LayeredNode,
    /// Acceptable distance from the target.
    pub radius: int,
    /// Whether the mover flies.
    pub is_flying: bool,
    /// Registered links.
    pub links: Seq<NavLink>,
}

impl PortalModel {
    /// Whether a node is an end of a link whose ends both have a place.
    pub open spec fn ends(self, link: NavLink, node: LayeredNode) -> bool {
        match (self.topology.node(link.source), self.topology.node(link.destination)) {
            (Some(source), Some(destination)) => node == source || node == destination,
            _ => false,
        }
    }

    /// Whether a node is the goal or an end of one of the first `count` links.
    pub open spec fn portal_upto(self, count: int, node: LayeredNode) -> bool {
        node == self.goal || exists|i: int|
            0 <= i < count && self.ends(#[trigger] self.links[i], node)
    }

    /// Whether a node is the goal or an end of a link.
    pub open spec fn portal(self, node: LayeredNode) -> bool {
        self.portal_upto(self.links.len() as int, node)
    }

    /// Whether a link leads from one node to another at a cost.
    pub open spec fn link_hop(self, from: LayeredNode, to: LayeredNode, cost: nat) -> bool {
        exists|i: int|
            {
                &&& 0 <= i < self.links.len()
                &&& self.topology.node((#[trigger] self.links[i]).source) == Some(from)
                &&& self.topology.node(self.links[i].destination) == Some(to)
                &&& self.links[i].cost == cost
            }
    }

    /// Whether a mover can get straight from one portal to another: by geometry or by a link.
    pub open spec fn hop(self, from: LayeredNode, to: LayeredNode, cost: nat) -> bool {
        &&& self.portal(from)
        &&& self.portal(to)
        &&& {
            ||| geometrically_connected(from, to, self.is_flying) && cost == relaxed_cost(
                from,
                to,
                0,
                self.is_flying,
            )
            ||| self.link_hop(from, to, cost)
        }
    }

    /// The graph of the portals.
    pub open spec fn hops(self) -> Edges<LayeredNode> {
        |from: LayeredNode, to: LayeredNode, cost: nat| self.hop(from, to, cost)
    }

    /// Whether a walk through the portals ends where geometry leads to the target region.
    pub open spec fn relaxed_route(self, nodes: Seq<LayeredNode>, steps: Seq<nat>) -> bool {
        &&& is_walk(self.hops(), nodes, steps)
        &&& self.portal(nodes[0])
        &&& geometrically_connected(nodes.last(), self.goal, self.is_flying)
    }

    /// What is left from a node that geometry joins to the target region.
    pub open spec fn last_leg(self, node: LayeredNode) -> int {
        relaxed_cost(node, self.goal, self.radius, self.is_flying)
    }

    /// What a relaxed route costs, its last leg included.
    pub open spec fn route_cost(self, nodes: Seq<LayeredNode>, steps: Seq<nat>) -> int {
        total(steps) + self.last_leg(nodes.last())
    }

    /// Whether some relaxed route from a node has this cost, as far as 32 bits can tell.
    pub open spec fn reached_at(self, node: LayeredNode, distance: u32) -> bool {
        exists|nodes: Seq<LayeredNode>, steps: Seq<nat>|
            {
                &&& #[trigger] self.relaxed_route(nodes, steps)
                &&& nodes[0] == node
                &&& distance == smaller(self.route_cost(nodes, steps), u32::MAX as int)
            }
    }

    /// Whether this is the cost of a cheapest relaxed route from a node.
    pub open spec fn least(self, node: LayeredNode, distance: u32) -> bool {
        &&& self.reached_at(node, distance)
        &&& forall|nodes: Seq<LayeredNode>, steps: Seq<nat>| #[trigger]
            self.relaxed_route(nodes, steps) && nodes[0] == node ==> distance <= self.route_cost(
                nodes,
                steps,
            )
    }

    /// The cost of a cheapest relaxed route from a portal, if there is any.
    pub open spec fn distance(self, node: LayeredNode) -> Option<u32> {
        if exists|d: u32| #[trigger] self.least(node, d) {
            Some(choose|d: u32| #[trigger] self.least(node, d))
        } else {
            None
        }
    }

    /// Link sources with their relaxed distances, in the order of the first `count` links.
    pub open spec fn sources_upto(self, count: nat) -> Seq<(LayeredNode, u32)>
        decreases count,
    {
        if count == 0 {
            Seq::empty()
        } else {
            let before = self.sources_upto((count - 1) as nat);
            match self.topology.node(self.links[count - 1].source) {
                Some(source) => match self.distance(source) {
                    Some(d) => before.push((source, d)),
                    None => before,
                },
                None => before,
            }
        }
    }

    /// Whether the distances between portals stay within their machine range.
    pub open spec fn measurable(self) -> bool {
        &&& forall|p: LayeredNode| #[trigger]
            self.portal(p) && geometrically_connected(p, self.goal, self.is_flying) ==> comparable(
                p.coord(),
                self.goal.coord(),
            ) && octile_to_range(p.coord(), self.goal.coord(), self.radius) <= u32::MAX
        &&& forall|p: LayeredNode, q: LayeredNode| #[trigger]
            self.portal(p) && #[trigger] self.portal(q) && geometrically_connected(
                p,
                q,
                self.is_flying,
            ) ==> comparable(p.coord(), q.coord())
    }
}

/// The relaxed model that the given data make.
pub open spec fn portal_model(
    topology: Topology,
    goal: LayeredNode,
    radius: i32,
    is_flying: bool,
    links: Seq<NavLink>,
) -> PortalModel {
    PortalModel { topology, goal, radius: radius as int, is_flying, links }
}

/// Tests whether a list holds a node.
fn holds(list: &Vec<LayeredNode>, node: LayeredNode) -> (found: bool)
    ensures
        found == list@.contains(node),
{
    let mut at: usize = 0;
    while at < list.len()
        invariant
            at <= list@.len(),
            forall|i: int| 0 <= i < at ==> list@[i] != node,
        decreases list@.len() - at,
    {
        if list[at] == node {
            assert(list@[at as int] == node);
            return true;
        }
        at = at + 1;
    }
    false
}

/// Lists the goal and the ends of all links whose ends both have a place, each once.
fn collect_portals(
    topology: &Topology,
    goal: LayeredNode,
    radius: i32,
    is_flying: bool,
    links: &[NavLink],
) -> (portals: Vec<LayeredNode>)
    requires
        links@.len() <= 0x3fff_ffff,
    ensures
        portals@.len() <= 2 * links@.len() + 1,
        forall|p: LayeredNode| #[trigger]
            portals@.contains(p) <==> portal_model(
                *topology,
                goal,
                radius,
                is_flying,
                links@,
            ).portal(p),
{
    let ghost model = portal_model(*topology, goal, radius, is_flying, links@);
    let mut portals: Vec<LayeredNode> = Vec::new();
    portals.push(goal);
    assert(portals@[0] == goal);
    let mut at: usize = 0;
    while at < links.len()
        invariant
            at <= links@.len() <= 0x3fff_ffff,
            portals@.len() <= 2 * at + 1,
            model == portal_model(*topology, goal, radius, is_flying, links@),
            forall|p: LayeredNode| #[trigger]
                portals@.contains(p) <==> model.portal_upto(at as int, p),
        decreases links@.len() - at,
    {
        let link = links[at];
        let ghost before = portals@;
        let source = node_for_xyz(topology, link.source.0, link.source.1, link.source.2);
        let destination = node_for_xyz(
            topology,
            link.destination.0,
            link.destination.1,
            link.destination.2,
        );
        if let (Some(source), Some(destination)) = (source, destination) {
            if !holds(&portals, source) {
                portals.push(source);
            }
            let ghost middle = portals@;
            proof {
                lemma_pushed_once(before, middle, source);
            }
            if !holds(&portals, destination) {
                portals.push(destination);
            }
            proof {
                lemma_pushed_once(middle, portals@, destination);
            }
        }
        proof {
            assert forall|p: LayeredNode| #[trigger]
                portals@.contains(p) <==> model.portal_upto(at + 1, p) by {
                assert(before.contains(p) <==> model.portal_upto(at as int, p));
                if model.ends(links@[at as int], p) {
                    assert(model.ends(model.links[at as int], p));
                }
                if model.portal_upto(at as int, p) && p != goal {
                    let i = choose|i: int| 0 <= i < at && model.ends(#[trigger] model.links[i], p);
                    assert(0 <= i < at + 1 && model.ends(model.links[i], p));
                }
            }
        }
        at = at + 1;
    }
    portals
}

/// What a list holds after a node was pushed unless it was there.
proof fn lemma_pushed_once(before: Seq<LayeredNode>, after: Seq<LayeredNode>, node: LayeredNode)
    requires
        if before.contains(node) {
            after == before
        } else {
            after == before.push(node)
        },
    ensures
        forall|p: LayeredNode| #[trigger] after.contains(p) <==> before.contains(p) || p == node,
{
    assert forall|p: LayeredNode| #[trigger] after.contains(p) <==> before.contains(p) || p
        == node by {
        if before.contains(p) {
            let i = choose|i: int| 0 <= i < before.len() && before[i] == p;
            assert(after[i] == p);
        }
        if p == node && !before.contains(node) {
            assert(after[after.len() - 1] == node);
        }
    }
}

/// Tests whether a mover can get from one node to the other without taking a link.
fn is_connected(from: LayeredNode, to: LayeredNode, is_flying: bool) -> (ok: bool)
    ensures
        ok == geometrically_connected(from, to, is_flying),
{
    from.group == to.group && (is_flying || from.layer == to.layer)
}

/// Tests whether the distances between portals stay within their machine range.
pub fn portals_measurable(
    topology: &Topology,
    goal: LayeredNode,
    min_target_distance: i32,
    is_flying: bool,
    links: &[NavLink],
) -> (ok: bool)
    requires
        links@.len() <= 0x3fff_ffff,
    ensures
        ok == portal_model(*topology, goal, min_target_distance, is_flying, links@).measurable(),
{
    let ghost model = portal_model(*topology, goal, min_target_distance, is_flying, links@);
    let portals = collect_portals(topology, goal, min_target_distance, is_flying, links);
    let mut at: usize = 0;
    while at < portals.len()
        invariant
            at <= portals@.len(),
            model == portal_model(*topology, goal, min_target_distance, is_flying, links@),
            forall|p: LayeredNode| #[trigger] portals@.contains(p) <==> model.portal(p),
            forall|i: int| 0 <= i < at ==> measured(model, portals@, #[trigger] portals@[i]),
        decreases portals@.len() - at,
    {
        let p = portals[at];
        assert(portals@.contains(p));
        assert(model.portal(p));
        if is_connected(p, goal, is_flying) {
            if !are_comparable((p.x, p.y), (goal.x, goal.y)) || !octile_fits(
                (p.x, p.y),
                (goal.x, goal.y),
                min_target_distance,
            ) {
                return false;
            }
        }
        let mut other: usize = 0;
        while other < portals.len()
            invariant
                other <= portals@.len(),
                model == portal_model(*topology, goal, min_target_distance, is_flying, links@),
                forall|p: LayeredNode| #[trigger] portals@.contains(p) <==> model.portal(p),
                model.portal(p),
                forall|j: int|
                    0 <= j < other && geometrically_connected(
                        p,
                        #[trigger] portals@[j],
                        is_flying,
                    ) ==> comparable(p.coord(), portals@[j].coord()),
            decreases portals@.len() - other,
        {
            let q = portals[other];
            assert(portals@.contains(q));
            assert(model.portal(q));
            if is_connected(p, q, is_flying) && !are_comparable((p.x, p.y), (q.x, q.y)) {
                return false;
            }
            other = other + 1;
        }
        assert(measured(model, portals@, p));
        at = at + 1;
    }
    proof {
        assert forall|p: LayeredNode| #[trigger] model.portal(p) implies measured(
            model,
            portals@,
            p,
        ) by {
            assert(portals@.contains(p));
            let i = choose|i: int| 0 <= i < portals@.len() && portals@[i] == p;
            assert(measured(model, portals@, portals@[i]));
        }
        assert forall|p: LayeredNode, q: LayeredNode| #[trigger]
            model.portal(p) && #[trigger] model.portal(q) && geometrically_connected(
                p,
                q,
                is_flying,
            ) implies comparable(p.coord(), q.coord()) by {
            assert(portals@.contains(q));
            let j = choose|j: int| 0 <= j < portals@.len() && portals@[j] == q;
            assert(measured(model, portals@, p));
            assert(geometrically_connected(p, portals@[j], is_flying));
        }
    }
    true
}

/// Whether the distances from one portal stay within their machine range.
spec fn measured(model: PortalModel, portals: Seq<LayeredNode>, p: LayeredNode) -> bool {
    &&& geometrically_connected(p, model.goal, model.is_flying) ==> comparable(
        p.coord(),
        model.goal.coord(),
    ) && octile_to_range(p.coord(), model.goal.coord(), model.radius) <= u32::MAX
    &&& forall|j: int|
        0 <= j < portals.len() && geometrically_connected(
            p,
            #[trigger] portals[j],
            model.is_flying,
        ) ==> comparable(p.coord(), portals[j].coord())
}

/// Relaxed distances found so far, and the entries still waiting.
#[verifier::ext_equal]
struct Labels {
    /// Best known relaxed distance of each portal.
    pub costs: Map<LayeredNode, u32>,
    /// Queued entries, stale ones included.
    pub queue: Multiset<RelaxedQueueEntry>,
}

/// Whether a distance is better than what is known of a portal.
spec fn improves(labels: Labels, node: LayeredNode, cost: u32) -> bool {
    !labels.costs.contains_key(node) || cost < labels.costs[node]
}

/// The labels after a portal was offered at a distance.
spec fn offered(labels: Labels, node: LayeredNode, cost: u32, sequence: u64) -> Labels {
    if improves(labels, node, cost) {
        Labels {
            costs: labels.costs.insert(node, cost),
            queue: labels.queue.insert(RelaxedQueueEntry { node, cost, sequence }),
        }
    } else {
        labels
    }
}

/// Whether an entry with the best known distance of a portal is waiting.
spec fn waiting(labels: Labels, node: LayeredNode) -> bool {
    exists|e: RelaxedQueueEntry| #[trigger]
        labels.queue.contains(e) && e.node == node && e.cost == labels.costs[node]
}

/// Whether all hops to a portal have been taken into account.
spec fn settled(model: PortalModel, labels: Labels, node: LayeredNode) -> bool {
    forall|p: LayeredNode, c: nat| #[trigger]
        model.hop(p, node, c) ==> labels.costs.contains_key(p) && labels.costs[p]
            <= labels.costs[node] + c
}

/// What holds of the labels at every moment; one portal may be in hand.
spec fn consistent(model: PortalModel, labels: Labels, hand: Option<LayeredNode>) -> bool {
    &&& forall|e: RelaxedQueueEntry| #[trigger]
        labels.queue.contains(e) ==> labels.costs.contains_key(e.node)
    &&& forall|p: LayeredNode| #[trigger]
        labels.costs.contains_key(p) ==> {
            &&& model.portal(p)
            &&& model.reached_at(p, labels.costs[p])
            &&& waiting(labels, p) || hand == Some(p) || settled(model, labels, p)
        }
}

/// Whether every portal that geometry joins to the target region has a label for that.
spec fn last_legs_known(model: PortalModel, labels: Labels) -> bool {
    forall|p: LayeredNode| #[trigger]
        model.portal(p) && geometrically_connected(p, model.goal, model.is_flying)
            ==> labels.costs.contains_key(p) && labels.costs[p] <= model.last_leg(p)
}

/// A relaxed cost is never negative.
proof fn lemma_relaxed_cost_is_natural(
    from: LayeredNode,
    to: LayeredNode,
    radius: int,
    is_flying: bool,
)
    ensures
        relaxed_cost(from, to, radius, is_flying) >= 0,
        relaxed_cost(from, from, 0, is_flying) == 0,
{
    law_estimate_is_zero_in_range(from.coord(), to.coord(), radius);
}

/// A portal that geometry joins to the target region is reached at the cost of its last leg.
proof fn lemma_last_leg_reaches(model: PortalModel, p: LayeredNode)
    requires
        model.portal(p),
        geometrically_connected(p, model.goal, model.is_flying),
    ensures
        model.reached_at(p, smaller(model.last_leg(p), u32::MAX as int) as u32),
{
    lemma_relaxed_cost_is_natural(p, model.goal, model.radius, model.is_flying);
    let nodes = seq![p];
    let steps = Seq::<nat>::empty();
    assert(is_walk(model.hops(), nodes, steps));
    assert(model.relaxed_route(nodes, steps));
    assert(total(steps) == 0);
}

/// One more hop in front of a relaxed route.
proof fn lemma_hop_reaches(model: PortalModel, p: LayeredNode, q: LayeredNode, c: nat, d: u32)
    requires
        model.hop(p, q, c),
        model.reached_at(q, d),
    ensures
        model.reached_at(p, smaller(d + c, u32::MAX as int) as u32),
{
    let (nodes, steps) = choose|nodes: Seq<LayeredNode>, steps: Seq<nat>|
        {
            &&& #[trigger] model.relaxed_route(nodes, steps)
            &&& nodes[0] == q
            &&& d == smaller(model.route_cost(nodes, steps), u32::MAX as int)
        };
    lemma_relaxed_cost_is_natural(nodes.last(), model.goal, model.radius, model.is_flying);
    lemma_walk_prepend(model.hops(), p, c, nodes, steps);
    let longer = seq![p] + nodes;
    let costs = seq![c] + steps;
    assert(model.relaxed_route(longer, costs));
    assert(model.route_cost(longer, costs) == c + model.route_cost(nodes, steps));
}

/// Offering a portal at a distance at which it is reached keeps the labels consistent.
proof fn lemma_offer(
    model: PortalModel,
    labels: Labels,
    hand: Option<LayeredNode>,
    node: LayeredNode,
    cost: u32,
    sequence: u64,
)
    requires
        consistent(model, labels, hand),
        model.portal(node),
        model.reached_at(node, cost),
        hand == Some(node) ==> !improves(labels, node, cost),
    ensures
        ({
            let after = offered(labels, node, cost, sequence);
            &&& consistent(model, after, hand)
            &&& after.costs.contains_key(node)
            &&& after.costs[node] <= cost
            &&& forall|p: LayeredNode| #[trigger]
                labels.costs.contains_key(p) ==> after.costs.contains_key(p) && after.costs[p]
                    <= labels.costs[p]
            &&& hand matches Some(h) ==> labels.costs.contains_key(h) ==> after.costs[h]
                == labels.costs[h]
        }),
{
    let after = offered(labels, node, cost, sequence);
    if improves(labels, node, cost) {
        let entry = RelaxedQueueEntry { node, cost, sequence };
        assert(after.queue.contains(entry));
        assert(waiting(after, node));
        assert forall|e: RelaxedQueueEntry| #[trigger]
            after.queue.contains(e) implies after.costs.contains_key(e.node) by {
            if e != entry {
                assert(labels.queue.contains(e));
            }
        }
        assert forall|p: LayeredNode| #[trigger] after.costs.contains_key(p) implies {
            &&& model.portal(p)
            &&& model.reached_at(p, after.costs[p])
            &&& waiting(after, p) || hand == Some(p) || settled(model, after, p)
        } by {
            if p != node {
                assert(labels.costs.contains_key(p));
                if waiting(labels, p) {
                    let e = choose|e: RelaxedQueueEntry| #[trigger]
                        labels.queue.contains(e) && e.node == p && e.cost == labels.costs[p];
                    assert(after.queue.contains(e));
                } else if hand != Some(p) {
                    assert(settled(model, labels, p));
                    assert(settled(model, after, p));
                }
            }
        }
    }
}

/// Taking an entry out keeps the labels consistent; a fresh one's portal is in hand then.
proof fn lemma_take(model: PortalModel, labels: Labels, e: RelaxedQueueEntry)
    requires
        consistent(model, labels, None),
        labels.queue.contains(e),
    ensures
        ({
            let after = Labels { queue: labels.queue.remove(e), ..labels };
            if labels.costs[e.node] == e.cost {
                consistent(model, after, Some(e.node))
            } else {
                consistent(model, after, None)
            }
        }),
{
    let after = Labels { queue: labels.queue.remove(e), ..labels };
    let hand = if labels.costs[e.node] == e.cost {
        Some(e.node)
    } else {
        None
    };
    assert forall|x: RelaxedQueueEntry| #[trigger]
        after.queue.contains(x) implies after.costs.contains_key(x.node) by {
        assert(labels.queue.contains(x));
    }
    assert forall|p: LayeredNode| #[trigger] after.costs.contains_key(p) implies {
        &&& model.portal(p)
        &&& model.reached_at(p, after.costs[p])
        &&& waiting(after, p) || hand == Some(p) || settled(model, after, p)
    } by {
        assert(labels.costs.contains_key(p));
        if waiting(labels, p) {
            let x = choose|x: RelaxedQueueEntry| #[trigger]
                labels.queue.contains(x) && x.node == p && x.cost == labels.costs[p];
            if x != e {
                assert(after.queue.contains(x));
            }
        } else {
            assert(settled(model, labels, p));
            assert(settled(model, after, p));
        }
    }
}

/// Once nothing waits, the labels bound every relaxed route from below.
proof fn lemma_labels_bound(
    model: PortalModel,
    labels: Labels,
    nodes: Seq<LayeredNode>,
    steps: Seq<nat>,
)
    requires
        consistent(model, labels, None),
        labels.queue == Multiset::<RelaxedQueueEntry>::empty(),
        last_legs_known(model, labels),
        model.relaxed_route(nodes, steps),
    ensures
        labels.costs.contains_key(nodes[0]),
        labels.costs[nodes[0]] <= model.route_cost(nodes, steps),
    decreases steps.len(),
{
    if steps.len() == 0 {
        assert(nodes.last() == nodes[0]);
    } else {
        lemma_walk_tail(model.hops(), nodes, steps);
        let rest = nodes.drop_first();
        assert(rest[0] == nodes[1]);
        assert(model.hops()(nodes[0], nodes[1], steps[0]));
        assert(model.hop(nodes[0], nodes[1], steps[0]));
        lemma_labels_bound(model, labels, rest, steps.drop_first());
        assert(!waiting(labels, nodes[1]));
        assert(settled(model, labels, nodes[1]));
    }
}

/// A portal has one least distance at most.
proof fn lemma_least_is_unique(model: PortalModel, node: LayeredNode, a: u32, b: u32)
    requires
        model.least(node, a),
        model.least(node, b),
    ensures
        a == b,
{
}

/// Once nothing waits, the labels are the distances of the model.
proof fn lemma_labels_are_distances(model: PortalModel, labels: Labels, node: LayeredNode)
    requires
        consistent(model, labels, None),
        labels.queue == Multiset::<RelaxedQueueEntry>::empty(),
        last_legs_known(model, labels),
    ensures
        model.distance(node) == if labels.costs.contains_key(node) {
            Some(labels.costs[node])
        } else {
            None
        },
{
    if labels.costs.contains_key(node) {
        let d = labels.costs[node];
        assert forall|nodes: Seq<LayeredNode>, steps: Seq<nat>| #[trigger]
            model.relaxed_route(nodes, steps) && nodes[0] == node implies d <= model.route_cost(
            nodes,
            steps,
        ) by {
            lemma_labels_bound(model, labels, nodes, steps);
        }
        assert(model.least(node, d));
        let chosen = choose|d: u32| #[trigger] model.least(node, d);
        lemma_least_is_unique(model, node, d, chosen);
    } else if exists|d: u32| #[trigger] model.least(node, d) {
        let d = choose|d: u32| #[trigger] model.least(node, d);
        let (nodes, steps) = choose|nodes: Seq<LayeredNode>, steps: Seq<nat>|
            {
                &&& #[trigger] model.relaxed_route(nodes, steps)
                &&& nodes[0] == node
                &&& d == smaller(model.route_cost(nodes, steps), u32::MAX as int)
            };
        lemma_labels_bound(model, labels, nodes, steps);
    }
}

/// The state of the search for relaxed distances.
struct Relaxation {
    /// Best known relaxed distance of each portal.
    distances: PackedMap<LayeredNode, u32>,
    /// Portals whose hops have to be taken into account.
    frontier: Frontier<RelaxedQueueEntry>,
    /// Sequence used to break queue ties.
    sequence: u64,
}

impl Relaxation {
    spec fn labels(self) -> Labels {
        Labels { costs: self.distances@, queue: self.frontier@ }
    }

    /// Whether the sequence cannot run out before the potential does.
    spec fn within_budget(self, portals: Seq<LayeredNode>) -> bool {
        &&& portals.len() <= 0x7fff_ffff
        &&& self.sequence + potential(portals, self.distances@) <= portals.len() * 0x1_0000_0000
    }

    /// Whether the state got nearer to its end than another, or is the other.
    spec fn nearer(self, portals: Seq<LayeredNode>, before: Relaxation) -> bool {
        ||| potential(portals, self.distances@) < potential(portals, before.distances@)
        ||| self.labels() == before.labels()
    }

    /// Offers a portal at a distance; it is queued where that is better than what is known.
    fn offer(&mut self, node: LayeredNode, cost: u32)
        requires
            old(self).frontier.wf(),
            old(self).sequence < u64::MAX,
        ensures
            final(self).frontier.wf(),
            final(self).labels() == offered(
                old(self).labels(),
                node,
                cost,
                (old(self).sequence + 1) as u64,
            ),
            final(self).sequence == if improves(old(self).labels(), node, cost) {
                old(self).sequence + 1
            } else {
                old(self).sequence as int
            },
    {
        let better: bool = match self.distances.get(node) {
            Some(known) => cost < *known,
            None => true,
        };
        if better {
            self.distances.insert(node, cost);
            self.sequence = self.sequence + 1;
            self.frontier.push(RelaxedQueueEntry { node, cost, sequence: self.sequence });
        }
    }

    /// Offers a listed portal; the budget holds out and the end comes no further away.
    fn offer_portal(
        &mut self,
        node: LayeredNode,
        cost: u32,
        Ghost(model): Ghost<PortalModel>,
        Ghost(portals): Ghost<Seq<LayeredNode>>,
        Ghost(hand): Ghost<Option<LayeredNode>>,
    )
        requires
            old(self).frontier.wf(),
            old(self).within_budget(portals),
            consistent(model, old(self).labels(), hand),
            portals.contains(node),
            model.portal(node),
            model.reached_at(node, cost),
            hand == Some(node) ==> !improves(old(self).labels(), node, cost),
        ensures
            final(self).frontier.wf(),
            final(self).within_budget(portals),
            consistent(model, final(self).labels(), hand),
            final(self).distances@.contains_key(node),
            final(self).distances@[node] <= cost,
            forall|p: LayeredNode| #[trigger]
                old(self).distances@.contains_key(p) ==> final(self).distances@.contains_key(p)
                    && final(self).distances@[p] <= old(self).distances@[p],
            hand matches Some(h) ==> old(self).distances@.contains_key(h)
                ==> final(self).distances@[h] == old(self).distances@[h],
            final(self).nearer(portals, *old(self)),
    {
        proof {
            let labels = self.labels();
            lemma_offer(model, labels, hand, node, cost, (self.sequence + 1) as u64);
            if improves(labels, node, cost) {
                lemma_potential_falls(portals, labels.costs, node, cost);
            }
        }
        self.offer(node, cost);
    }
}

impl Relaxation {
    /// Takes the hops to the portal in hand into account: first those by geometry, for which the
    /// portals form a complete graph, then those by a link.
    fn settle(
        &mut self,
        topology: &Topology,
        links: &[NavLink],
        portals: &Vec<LayeredNode>,
        is_flying: bool,
        entry: RelaxedQueueEntry,
        Ghost(model): Ghost<PortalModel>,
    )
        requires
            model.topology == *topology,
            model.links == links@,
            model.is_flying == is_flying,
            model.measurable(),
            forall|p: LayeredNode| #[trigger] portals@.contains(p) <==> model.portal(p),
            old(self).frontier.wf(),
            old(self).within_budget(portals@),
            consistent(model, old(self).labels(), Some(entry.node)),
            old(self).distances@.contains_key(entry.node),
            old(self).distances@[entry.node] == entry.cost,
            last_legs_known(model, old(self).labels()),
        ensures
            final(self).frontier.wf(),
            final(self).within_budget(portals@),
            consistent(model, final(self).labels(), None),
            last_legs_known(model, final(self).labels()),
            final(self).nearer(portals@, *old(self)),
    {
        let ghost hand = Some(entry.node);
        let mut at: usize = 0;
        while at < portals.len()
            invariant
                at <= portals@.len(),
                hand == Some(entry.node),
                model.is_flying == is_flying,
                model.measurable(),
                forall|p: LayeredNode| #[trigger] portals@.contains(p) <==> model.portal(p),
                self.frontier.wf(),
                self.within_budget(portals@),
                consistent(model, self.labels(), hand),
                self.distances@.contains_key(entry.node),
                self.distances@[entry.node] == entry.cost,
                last_legs_known(model, self.labels()),
                self.nearer(portals@, *old(self)),
                forall|i: int|
                    0 <= i < at && geometrically_connected(
                        #[trigger] portals@[i],
                        entry.node,
                        is_flying,
                    ) ==> self.distances@.contains_key(portals@[i]) && self.distances@[portals@[i]]
                        <= entry.cost + relaxed_cost(portals@[i], entry.node, 0, is_flying),
            decreases portals@.len() - at,
        {
            let candidate = portals[at];
            assert(portals@.contains(candidate));
            assert(self.labels().costs.contains_key(entry.node));
            proof {
                if geometrically_connected(candidate, entry.node, is_flying) {
                    lemma_portals_are_measured(model, candidate, entry.node);
                }
            }
            if let Some(edge_cost) = relaxed_distance(candidate, entry.node, 0, is_flying) {
                let candidate_cost: u32 = entry.cost.saturating_add(edge_cost);
                proof {
                    lemma_relaxed_cost_is_natural(candidate, entry.node, 0, is_flying);
                    lemma_relaxed_cost_is_natural(entry.node, entry.node, 0, is_flying);
                    let c = relaxed_cost(candidate, entry.node, 0, is_flying) as nat;
                    assert(model.hop(candidate, entry.node, c));
                    lemma_hop_reaches(model, candidate, entry.node, c, entry.cost);
                    assert(candidate_cost == smaller(entry.cost + c, u32::MAX as int));
                }
                self.offer_portal(
                    candidate,
                    candidate_cost,
                    Ghost(model),
                    Ghost(portals@),
                    Ghost(hand),
                );
            }
            at = at + 1;
        }
        let mut k: usize = 0;
        while k < links.len()
            invariant
                k <= links@.len(),
                hand == Some(entry.node),
                model.topology == *topology,
                model.links == links@,
                model.is_flying == is_flying,
                forall|p: LayeredNode| #[trigger] portals@.contains(p) <==> model.portal(p),
                self.frontier.wf(),
                self.within_budget(portals@),
                consistent(model, self.labels(), hand),
                self.distances@.contains_key(entry.node),
                self.distances@[entry.node] == entry.cost,
                last_legs_known(model, self.labels()),
                self.nearer(portals@, *old(self)),
                forall|i: int|
                    0 <= i < portals@.len() && geometrically_connected(
                        #[trigger] portals@[i],
                        entry.node,
                        is_flying,
                    ) ==> self.distances@.contains_key(portals@[i]) && self.distances@[portals@[i]]
                        <= entry.cost + relaxed_cost(portals@[i], entry.node, 0, is_flying),
                forall|i: int|
                    0 <= i < k ==> link_offered(model, self.labels(), #[trigger] links@[i], entry),
            decreases links@.len() - k,
        {
            let link = links[k];
            let ghost before = self.labels();
            let destination = node_for_xyz(
                topology,
                link.destination.0,
                link.destination.1,
                link.destination.2,
            );
            let source = node_for_xyz(topology, link.source.0, link.source.1, link.source.2);
            if let (Some(destination), Some(source)) = (destination, source) {
                if destination == entry.node {
                    let candidate_cost: u32 = entry.cost.saturating_add(link.cost);
                    proof {
                        assert(self.labels().costs.contains_key(entry.node));
                        assert(model.ends(model.links[k as int], source));
                        assert(model.ends(model.links[k as int], destination));
                        assert(model.portal(source) && model.portal(destination));
                        assert(model.link_hop(source, destination, link.cost as nat)) by {
                            assert(model.links[k as int].cost == link.cost as nat);
                        }
                        assert(model.hop(source, entry.node, link.cost as nat));
                        lemma_hop_reaches(
                            model,
                            source,
                            entry.node,
                            link.cost as nat,
                            entry.cost,
                        );
                        assert(portals@.contains(source));
                    }
                    self.offer_portal(
                        source,
                        candidate_cost,
                        Ghost(model),
                        Ghost(portals@),
                        Ghost(hand),
                    );
                }
            }
            proof {
                assert forall|i: int| 0 <= i < k + 1 implies link_offered(
                    model,
                    self.labels(),
                    #[trigger] links@[i],
                    entry,
                ) by {
                    if i < k {
                        assert(link_offered(model, before, links@[i], entry));
                    }
                }
            }
            k = k + 1;
        }
        proof {
            lemma_settled(model, self.labels(), portals@, entry);
        }
    }
}

/// Whether a link that leads to the portal in hand has been taken into account.
spec fn link_offered(
    model: PortalModel,
    labels: Labels,
    link: NavLink,
    entry: RelaxedQueueEntry,
) -> bool {
    match (model.topology.node(link.destination), model.topology.node(link.source)) {
        (Some(destination), Some(source)) => destination == entry.node ==> {
            labels.costs.contains_key(source) && labels.costs[source] <= entry.cost + link.cost
        },
        _ => true,
    }
}

/// Distances between portals that geometry joins can be measured.
proof fn lemma_portals_are_measured(model: PortalModel, p: LayeredNode, q: LayeredNode)
    requires
        model.measurable(),
        model.portal(p),
        model.portal(q),
        geometrically_connected(p, q, model.is_flying),
    ensures
        comparable(p.coord(), q.coord()),
        octile_to_range(p.coord(), q.coord(), 0) <= u32::MAX,
{
}

/// Once all hops have been offered the search is through with the portal in hand.
proof fn lemma_settled(
    model: PortalModel,
    labels: Labels,
    portals: Seq<LayeredNode>,
    entry: RelaxedQueueEntry,
)
    requires
        consistent(model, labels, Some(entry.node)),
        labels.costs.contains_key(entry.node),
        labels.costs[entry.node] == entry.cost,
        forall|p: LayeredNode| #[trigger] portals.contains(p) <==> model.portal(p),
        forall|i: int|
            0 <= i < portals.len() && geometrically_connected(
                #[trigger] portals[i],
                entry.node,
                model.is_flying,
            ) ==> labels.costs.contains_key(portals[i]) && labels.costs[portals[i]] <= entry.cost
                + relaxed_cost(portals[i], entry.node, 0, model.is_flying),
        forall|i: int|
            0 <= i < model.links.len() ==> link_offered(
                model,
                labels,
                #[trigger] model.links[i],
                entry,
            ),
    ensures
        consistent(model, labels, None),
{
    assert forall|p: LayeredNode, c: nat| #[trigger]
        model.hop(p, entry.node, c) implies labels.costs.contains_key(p) && labels.costs[p]
        <= labels.costs[entry.node] + c by {
        if model.link_hop(p, entry.node, c) {
            let i = choose|i: int|
                {
                    &&& 0 <= i < model.links.len()
                    &&& model.topology.node((#[trigger] model.links[i]).source) == Some(p)
                    &&& model.topology.node(model.links[i].destination) == Some(entry.node)
                    &&& model.links[i].cost == c
                };
            assert(link_offered(model, labels, model.links[i], entry));
        } else {
            assert(portals.contains(p));
            let i = choose|i: int| 0 <= i < portals.len() && portals[i] == p;
            assert(geometrically_connected(portals[i], entry.node, model.is_flying));
        }
    }
    assert(settled(model, labels, entry.node));
}

/// A lower-bound route model for the multi-level search.
///
/// The model ignores walls, conditional blockers, and mover-specific link eligibility. It
/// therefore cannot overestimate the real graph, while the portal nodes let it account for useful
/// links between levels.
pub struct PortalHeuristic {
    /// Search target node.
    pub goal: LayeredNode,
    /// Acceptable distance from the target.
    pub min_target_distance: i32,
    /// Whether the mover flies.
    pub is_flying: bool,
    /// Relaxed distance from each link source to the target region.
    pub source_distances: Vec<(LayeredNode, u32)>,
}

impl PortalHeuristic {
    /// Finds the relaxed distance of every link source.
    ///
    /// The distances come from a reverse Dijkstra search over the relaxed portal graph. Geometric
    /// movement is represented as a complete graph between portals; links add directed weighted
    /// edges.
    pub fn new(
        topology: &Topology,
        goal: LayeredNode,
        min_target_distance: i32,
        is_flying: bool,
        links: &[NavLink],
    ) -> (heuristic: Self)
        requires
            links@.len() <= 0x3fff_ffff,
            portal_model(*topology, goal, min_target_distance, is_flying, links@).measurable(),
        ensures
            heuristic.goal == goal,
            heuristic.min_target_distance == min_target_distance,
            heuristic.is_flying == is_flying,
            heuristic.source_distances@ == portal_model(
                *topology,
                goal,
                min_target_distance,
                is_flying,
                links@,
            ).sources_upto(links@.len()),
    {
        let ghost model = portal_model(*topology, goal, min_target_distance, is_flying, links@);
        let portals = collect_portals(topology, goal, min_target_distance, is_flying, links);
        let mut state = Relaxation {
            distances: PackedMap::new(),
            frontier: Frontier::new(),
            sequence: 0,
        };
        proof {
            lemma_potential_at_first(portals@);
            assert(state.distances@ =~= Map::<LayeredNode, u32>::empty());
        }
        let mut at: usize = 0;
        while at < portals.len()
            invariant
                at <= portals@.len(),
                model == portal_model(*topology, goal, min_target_distance, is_flying, links@),
                model.measurable(),
                forall|p: LayeredNode| #[trigger] portals@.contains(p) <==> model.portal(p),
                state.frontier.wf(),
                state.within_budget(portals@),
                consistent(model, state.labels(), None),
                forall|i: int|
                    0 <= i < at && geometrically_connected(
                        #[trigger] portals@[i],
                        goal,
                        is_flying,
                    ) ==> state.distances@.contains_key(portals@[i])
                        && state.distances@[portals@[i]] <= model.last_leg(portals@[i]),
            decreases portals@.len() - at,
        {
            let portal = portals[at];
            assert(portals@.contains(portal));
            assert(model.portal(portal));
            if let Some(cost) = relaxed_distance(portal, goal, min_target_distance, is_flying) {
                proof {
                    lemma_relaxed_cost_is_natural(
                        portal,
                        goal,
                        min_target_distance as int,
                        is_flying,
                    );
                    lemma_last_leg_reaches(model, portal);
                }
                state.offer_portal(portal, cost, Ghost(model), Ghost(portals@), Ghost(None));
            }
            at = at + 1;
        }
        proof {
            assert forall|p: LayeredNode| #[trigger]
                model.portal(p) && geometrically_connected(p, goal, is_flying) implies
                state.distances@.contains_key(p) && state.distances@[p] <= model.last_leg(p) by {
                assert(portals@.contains(p));
                let i = choose|i: int| 0 <= i < portals@.len() && portals@[i] == p;
                assert(geometrically_connected(portals@[i], goal, is_flying));
            }
            assert(last_legs_known(model, state.labels()));
        }
        loop
            invariant
                model == portal_model(*topology, goal, min_target_distance, is_flying, links@),
                model.measurable(),
                forall|p: LayeredNode| #[trigger] portals@.contains(p) <==> model.portal(p),
                state.frontier.wf(),
                state.within_budget(portals@),
                consistent(model, state.labels(), None),
                last_legs_known(model, state.labels()),
            ensures
                consistent(model, state.labels(), None),
                last_legs_known(model, state.labels()),
                state.frontier@ == Multiset::<RelaxedQueueEntry>::empty(),
            decreases potential(portals@, state.distances@), state.frontier@.len(),
        {
            let ghost before = state.labels();
            let entry = match state.frontier.pop() {
                Some(entry) => entry,
                None => {
                    break;
                },
            };
            proof {
                assert(before.queue.contains(entry));
                lemma_take(model, before, entry);
                assert(state.labels() == Labels { queue: before.queue.remove(entry), ..before });
            }
            let fresh: bool = match state.distances.get(entry.node) {
                Some(known) => *known == entry.cost,
                None => false,
            };
            if fresh {
                state.settle(topology, links, &portals, is_flying, entry, Ghost(model));
            }
        }
        let mut source_distances: Vec<(LayeredNode, u32)> = Vec::new();
        let mut k: usize = 0;
        while k < links.len()
            invariant
                k <= links@.len(),
                model == portal_model(*topology, goal, min_target_distance, is_flying, links@),
                consistent(model, state.labels(), None),
                last_legs_known(model, state.labels()),
                state.frontier@ == Multiset::<RelaxedQueueEntry>::empty(),
                source_distances@ == model.sources_upto(k as nat),
            decreases links@.len() - k,
        {
            let link = links[k];
            if let Some(source) = node_for_xyz(
                topology,
                link.source.0,
                link.source.1,
                link.source.2,
            ) {
                proof {
                    lemma_labels_are_distances(model, state.labels(), source);
                }
                if let Some(distance) = state.distances.get(source) {
                    source_distances.push((source, *distance));
                }
            }
            k = k + 1;
        }
        PortalHeuristic { goal, min_target_distance, is_flying, source_distances }
    }
}

impl PortalHeuristic {
    /// Whether the heuristic was made for a model.
    pub open spec fn made_for(self, model: PortalModel) -> bool {
        &&& self.goal == model.goal
        &&& self.min_target_distance == model.radius
        &&& self.is_flying == model.is_flying
        &&& self.source_distances@ == model.sources_upto(model.links.len())
    }

    /// What geometry alone makes of a node: the cost of its last leg, or nothing known.
    pub open spec fn direct(self, node: LayeredNode) -> int {
        if geometrically_connected(node, self.goal, self.is_flying) {
            smaller(
                relaxed_cost(node, self.goal, self.min_target_distance as int, self.is_flying),
                u32::MAX as int,
            )
        } else {
            0
        }
    }

    /// The way by one of the link sources.
    pub open spec fn by_source(self, node: LayeredNode, index: int) -> int {
        let (source, distance) = self.source_distances@[index];
        smaller(
            smaller(relaxed_cost(node, source, 0, self.is_flying), u32::MAX as int) + distance,
            u32::MAX as int,
        )
    }

    /// The least of the direct way and the ways by the first `count` link sources that geometry
    /// leads to.
    pub open spec fn estimate_upto(self, node: LayeredNode, count: nat) -> int
        decreases count,
    {
        if count == 0 {
            self.direct(node)
        } else {
            let before = self.estimate_upto(node, (count - 1) as nat);
            if geometrically_connected(
                node,
                self.source_distances@[count - 1].0,
                self.is_flying,
            ) {
                smaller(before, self.by_source(node, count - 1))
            } else {
                before
            }
        }
    }

    /// The estimate of what is left from a node to the target region.
    pub open spec fn estimate_of(self, node: LayeredNode) -> int {
        self.estimate_upto(node, self.source_distances@.len())
    }

    /// Whether two heuristics say the same.
    pub open spec fn same(self, other: PortalHeuristic) -> bool {
        &&& self.goal == other.goal
        &&& self.min_target_distance == other.min_target_distance
        &&& self.is_flying == other.is_flying
        &&& self.source_distances@ == other.source_distances@
    }

    /// Whether the distances from a node stay within their machine range.
    pub open spec fn measures(self, node: LayeredNode) -> bool {
        &&& geometrically_connected(node, self.goal, self.is_flying) ==> comparable(
            node.coord(),
            self.goal.coord(),
        ) && octile_to_range(node.coord(), self.goal.coord(), self.min_target_distance as int)
            <= u32::MAX
        &&& forall|i: int|
            0 <= i < self.source_distances@.len() && geometrically_connected(
                node,
                (#[trigger] self.source_distances@[i]).0,
                self.is_flying,
            ) ==> comparable(node.coord(), self.source_distances@[i].0.coord())
    }

    /// Estimates what is left from a node to the target region.
    pub fn estimate(&self, node: LayeredNode) -> (cost: u32)
        requires
            self.measures(node),
        ensures
            cost == self.estimate_of(node),
    {
        let mut best: u32 = match relaxed_distance(
            node,
            self.goal,
            self.min_target_distance,
            self.is_flying,
        ) {
            Some(cost) => cost,
            None => 0,
        };
        let mut at: usize = 0;
        while at < self.source_distances.len()
            invariant
                at <= self.source_distances@.len(),
                self.measures(node),
                best == self.estimate_upto(node, at as nat),
            decreases self.source_distances@.len() - at,
        {
            let (source, distance) = self.source_distances[at];
            assert(self.source_distances@[at as int] == (source, distance));
            if let Some(to_source) = relaxed_distance(node, source, 0, self.is_flying) {
                let by_source: u32 = to_source.saturating_add(distance);
                if by_source < best {
                    best = by_source;
                }
            }
            at = at + 1;
        }
        best
    }
}

/// An estimate is never negative, and fits 32 bits.
pub proof fn lemma_estimate_fits(heuristic: PortalHeuristic, node: LayeredNode)
    ensures
        0 <= heuristic.estimate_of(node) <= u32::MAX,
{
    lemma_estimate_is_least(heuristic, node, heuristic.source_distances@.len());
}

impl PortalHeuristic {
    /// Tests whether the distances from a node stay within their machine range.
    pub fn can_measure(&self, node: LayeredNode) -> (ok: bool)
        ensures
            ok == self.measures(node),
    {
        let goal = self.goal;
        if is_connected(node, goal, self.is_flying) {
            if !are_comparable((node.x, node.y), (goal.x, goal.y)) || !octile_fits(
                (node.x, node.y),
                (goal.x, goal.y),
                self.min_target_distance,
            ) {
                return false;
            }
        }
        let mut at: usize = 0;
        while at < self.source_distances.len()
            invariant
                at <= self.source_distances@.len(),
                forall|i: int|
                    0 <= i < at && geometrically_connected(
                        node,
                        (#[trigger] self.source_distances@[i]).0,
                        self.is_flying,
                    ) ==> comparable(node.coord(), self.source_distances@[i].0.coord()),
            decreases self.source_distances@.len() - at,
        {
            let source = self.source_distances[at].0;
            assert(self.source_distances@[at as int].0 == source);
            if is_connected(node, source, self.is_flying) && !are_comparable(
                (node.x, node.y),
                (source.x, source.y),
            ) {
                return false;
            }
            at = at + 1;
        }
        true
    }
}

impl PortalModel {
    /// Whether a link leads from the world position of a node to another node at a cost.
    pub open spec fn link_move(self, from: LayeredNode, to: LayeredNode, cost: nat) -> bool {
        exists|i: int|
            {
                &&& 0 <= i < self.links.len()
                &&& self.topology.z_of(from) == Some((#[trigger] self.links[i]).source.2)
                &&& self.links[i].source.0 == from.x && self.links[i].source.1 == from.y
                &&& self.topology.node(self.links[i].destination) == Some(to)
                &&& self.links[i].cost == cost
            }
    }

    /// What a mover could do if nothing stood in its way: take a step, change the layer if it
    /// flies, or take a link.
    pub open spec fn may_move(self, from: LayeredNode, to: LayeredNode, cost: nat) -> bool {
        ||| from.group == to.group && from.layer == to.layer && one_step(
            from.coord(),
            to.coord(),
            cost as int,
        )
        ||| {
            &&& self.is_flying
            &&& from.group == to.group && from.coord() == to.coord()
            &&& magnitude(from.layer - to.layer) == 1
            &&& cost == STRAIGHT_COST
        }
        ||| self.link_move(from, to, cost)
    }

    /// The graph of all moves that could be.
    pub open spec fn moves(self) -> Edges<LayeredNode> {
        |from: LayeredNode, to: LayeredNode, cost: nat| self.may_move(from, to, cost)
    }

    /// Whether a node is close enough to the goal, on the goal's own level.
    pub open spec fn in_target(self, node: LayeredNode) -> bool {
        &&& node.group == self.goal.group
        &&& node.layer == self.goal.layer
        &&& chebyshev(node.coord(), self.goal.coord()) <= self.radius
    }

    /// Whether every link costs something.
    pub open spec fn links_cost(self) -> bool {
        forall|i: int| 0 <= i < self.links.len() ==> (#[trigger] self.links[i]).cost > 0
    }

    /// Whether a relaxed way from a node to the target region costs no more than a bound: straight
    /// on, or by way of a link source.
    spec fn bounded(self, node: LayeredNode, bound: int) -> bool {
        ||| geometrically_connected(node, self.goal, self.is_flying) && self.last_leg(node) <= bound
        ||| exists|i: int| self.bounded_by(#[trigger] self.links[i], i, node, bound)
    }

    spec fn bounded_by(self, link: NavLink, i: int, node: LayeredNode, bound: int) -> bool {
        &&& 0 <= i < self.links.len()
        &&& self.topology.node(link.source) matches Some(source)
        &&& geometrically_connected(node, source, self.is_flying)
        &&& self.distance(source) matches Some(d)
        &&& relaxed_cost(node, source, 0, self.is_flying) + d <= bound
    }
}

/// Where there is a relaxed route there is a cheapest one.
proof fn lemma_least_exists(model: PortalModel, nodes: Seq<LayeredNode>, steps: Seq<nat>)
    requires
        model.relaxed_route(nodes, steps),
    ensures
        model.distance(nodes[0]) matches Some(d) && d <= model.route_cost(nodes, steps)
            && model.least(nodes[0], d),
    decreases model.route_cost(nodes, steps),
{
    lemma_relaxed_cost_is_natural(nodes.last(), model.goal, model.radius, model.is_flying);
    let cost = model.route_cost(nodes, steps);
    if exists|others: Seq<LayeredNode>, costs: Seq<nat>| #[trigger]
        model.relaxed_route(others, costs) && others[0] == nodes[0] && model.route_cost(
            others,
            costs,
        ) < cost {
        let (others, costs) = choose|others: Seq<LayeredNode>, costs: Seq<nat>| #[trigger]
            model.relaxed_route(others, costs) && others[0] == nodes[0] && model.route_cost(
                others,
                costs,
            ) < cost;
        lemma_relaxed_cost_is_natural(others.last(), model.goal, model.radius, model.is_flying);
        lemma_least_exists(model, others, costs);
    } else {
        let d = smaller(cost, u32::MAX as int) as u32;
        assert(model.reached_at(nodes[0], d));
        assert(model.least(nodes[0], d));
        let chosen = choose|d: u32| #[trigger] model.least(nodes[0], d);
        lemma_least_is_unique(model, nodes[0], d, chosen);
    }
}

/// A hop to a portal with a known distance gives a distance no greater than the sum.
proof fn lemma_distance_by_hop(model: PortalModel, p: LayeredNode, q: LayeredNode, c: nat, d: u32)
    requires
        model.hop(p, q, c),
        model.reached_at(q, d),
    ensures
        model.distance(p) matches Some(e) && e <= d + c,
        model.distance(p) matches Some(e) ==> model.least(p, e),
{
    lemma_hop_reaches(model, p, q, c, d);
    let sum = smaller(d + c, u32::MAX as int) as u32;
    let (nodes, steps) = choose|nodes: Seq<LayeredNode>, steps: Seq<nat>|
        {
            &&& #[trigger] model.relaxed_route(nodes, steps)
            &&& nodes[0] == p
            &&& sum == smaller(model.route_cost(nodes, steps), u32::MAX as int)
        };
    lemma_least_exists(model, nodes, steps);
}

/// The sources listed are those with a distance.
proof fn lemma_source_is_listed(model: PortalModel, count: nat, i: int)
    requires
        0 <= i < count <= model.links.len(),
        model.topology.node(model.links[i].source) matches Some(source) && model.distance(
            source,
        ) is Some,
    ensures
        ({
            let source = model.topology.node(model.links[i].source).unwrap();
            model.sources_upto(count).contains((source, model.distance(source).unwrap()))
        }),
    decreases count,
{
    let source = model.topology.node(model.links[i].source).unwrap();
    let item = (source, model.distance(source).unwrap());
    let list = model.sources_upto(count);
    let before = model.sources_upto((count - 1) as nat);
    if i == count - 1 {
        assert(list[list.len() - 1] == item);
    } else {
        lemma_source_is_listed(model, (count - 1) as nat, i);
        let j = choose|j: int| 0 <= j < before.len() && before[j] == item;
        assert(list[j] == item);
    }
}

/// The estimate exceeds none of the ways it is drawn from.
proof fn lemma_estimate_is_least(heuristic: PortalHeuristic, node: LayeredNode, count: nat)
    requires
        count <= heuristic.source_distances@.len(),
    ensures
        0 <= heuristic.estimate_upto(node, count) <= heuristic.direct(node),
        forall|j: int|
            0 <= j < count && geometrically_connected(
                node,
                (#[trigger] heuristic.source_distances@[j]).0,
                heuristic.is_flying,
            ) ==> heuristic.estimate_upto(node, count) <= heuristic.by_source(node, j),
    decreases count,
{
    lemma_relaxed_cost_is_natural(
        node,
        heuristic.goal,
        heuristic.min_target_distance as int,
        heuristic.is_flying,
    );
    if count > 0 {
        lemma_estimate_is_least(heuristic, node, (count - 1) as nat);
        lemma_relaxed_cost_is_natural(
            node,
            heuristic.source_distances@[count - 1].0,
            0,
            heuristic.is_flying,
        );
    }
}

/// The estimate respects every bound on relaxed ways.
proof fn lemma_estimate_within_bound(
    model: PortalModel,
    heuristic: PortalHeuristic,
    node: LayeredNode,
    bound: int,
)
    requires
        heuristic.made_for(model),
        model.bounded(node, bound),
        bound >= 0,
    ensures
        0 <= heuristic.estimate_of(node) <= bound,
{
    let count = heuristic.source_distances@.len();
    lemma_estimate_is_least(heuristic, node, count);
    if !(geometrically_connected(node, model.goal, model.is_flying) && model.last_leg(node)
        <= bound) {
        let i = choose|i: int| model.bounded_by(#[trigger] model.links[i], i, node, bound);
        let source = model.topology.node(model.links[i].source).unwrap();
        lemma_source_is_listed(model, model.links.len(), i);
        let item = (source, model.distance(source).unwrap());
        let list = heuristic.source_distances@;
        let j = choose|j: int| 0 <= j < list.len() && list[j] == item;
        assert(geometrically_connected(node, list[j].0, heuristic.is_flying));
        lemma_relaxed_cost_is_natural(node, source, 0, heuristic.is_flying);
    }
}

/// A move raises the bound by no more than its cost.
proof fn lemma_move_keeps_bound(
    model: PortalModel,
    from: LayeredNode,
    to: LayeredNode,
    cost: nat,
    bound: int,
)
    requires
        model.topology.consistent(),
        model.may_move(from, to, cost),
        model.bounded(to, bound),
    ensures
        model.bounded(from, bound + cost),
{
    if model.link_move(from, to, cost) {
        lemma_link_keeps_bound(model, from, to, cost, bound);
    } else {
        assert(geometrically_connected(from, to, model.is_flying));
        assert forall|x: LayeredNode, r: int|
            geometrically_connected(to, x, model.is_flying) implies #[trigger] relaxed_cost(
            from,
            x,
            r,
            model.is_flying,
        ) <= cost + relaxed_cost(to, x, r, model.is_flying) by {
            if from.layer == to.layer && one_step(from.coord(), to.coord(), cost as int) {
                law_step_lowers_estimate_by_at_most_its_cost(
                    from.coord(),
                    to.coord(),
                    cost as int,
                    x.coord(),
                    r,
                );
            }
        }
        if geometrically_connected(to, model.goal, model.is_flying) && model.last_leg(to) <= bound {
            assert(model.last_leg(from) <= bound + cost);
        } else {
            let i = choose|i: int| model.bounded_by(#[trigger] model.links[i], i, to, bound);
            assert(model.bounded_by(model.links[i], i, from, bound + cost));
        }
    }
}

proof fn lemma_link_keeps_bound(
    model: PortalModel,
    from: LayeredNode,
    to: LayeredNode,
    cost: nat,
    bound: int,
)
    requires
        model.topology.consistent(),
        model.link_move(from, to, cost),
        model.bounded(to, bound),
    ensures
        model.bounded(from, bound + cost),
{
    let k = choose|i: int|
        {
            &&& 0 <= i < model.links.len()
            &&& model.topology.z_of(from) == Some((#[trigger] model.links[i]).source.2)
            &&& model.links[i].source.0 == from.x && model.links[i].source.1 == from.y
            &&& model.topology.node(model.links[i].destination) == Some(to)
            &&& model.links[i].cost == cost
        };
    let link = model.links[k];
    law_positions_lead_back(model.topology, from, link.source.2);
    assert(model.topology.node(link.source) == Some(from));
    assert(model.ends(model.links[k], from) && model.ends(model.links[k], to));
    assert(model.portal(from) && model.portal(to));
    assert(model.link_hop(from, to, cost));
    assert(model.hop(from, to, cost));
    lemma_relaxed_cost_is_natural(from, from, 0, model.is_flying);
    if geometrically_connected(to, model.goal, model.is_flying) && model.last_leg(to) <= bound {
        lemma_last_leg_reaches(model, to);
        let d = smaller(model.last_leg(to), u32::MAX as int) as u32;
        lemma_distance_by_hop(model, from, to, cost, d);
        assert(model.bounded_by(model.links[k], k, from, bound + cost));
    } else {
        let i = choose|i: int| model.bounded_by(#[trigger] model.links[i], i, to, bound);
        let source = model.topology.node(model.links[i].source).unwrap();
        let d = model.distance(source).unwrap();
        assert(model.least(source, d));
        assert(model.portal(source)) by {
            let (nodes, steps) = choose|nodes: Seq<LayeredNode>, steps: Seq<nat>|
                {
                    &&& #[trigger] model.relaxed_route(nodes, steps)
                    &&& nodes[0] == source
                    &&& d == smaller(model.route_cost(nodes, steps), u32::MAX as int)
                };
        }
        lemma_relaxed_cost_is_natural(to, source, 0, model.is_flying);
        let leg = relaxed_cost(to, source, 0, model.is_flying) as nat;
        assert(model.hop(to, source, leg));
        lemma_distance_by_hop(model, to, source, leg, d);
        let e = model.distance(to).unwrap();
        lemma_distance_by_hop(model, from, to, cost, e);
        assert(model.bounded_by(model.links[k], k, from, bound + cost));
    }
}

/// Where moves lead to the target region the relaxed ways are bounded by their sum.
proof fn lemma_walk_is_bounded(model: PortalModel, nodes: Seq<LayeredNode>, steps: Seq<nat>)
    requires
        model.topology.consistent(),
        is_walk(model.moves(), nodes, steps),
        model.in_target(nodes.last()),
    ensures
        model.bounded(nodes[0], total(steps) as int),
    decreases steps.len(),
{
    if steps.len() == 0 {
        law_estimate_is_zero_in_range(nodes[0].coord(), model.goal.coord(), model.radius);
        assert(nodes.last() == nodes[0]);
    } else {
        lemma_walk_tail(model.moves(), nodes, steps);
        lemma_walk_is_bounded(model, nodes.drop_first(), steps.drop_first());
        assert(model.moves()(nodes[0], nodes[1], steps[0]));
        lemma_move_keeps_bound(
            model,
            nodes[0],
            nodes[1],
            steps[0],
            total(steps.drop_first()) as int,
        );
    }
}

impl PortalHeuristic {
    /// The estimate as a function on nodes.
    pub open spec fn estimator(self) -> spec_fn(LayeredNode) -> nat {
        |node: LayeredNode| self.estimate_of(node) as nat
    }
}

/// Heuristics that say the same estimate the same.
pub proof fn lemma_same_estimate(
    a: PortalHeuristic,
    b: PortalHeuristic,
    node: LayeredNode,
    count: nat,
)
    requires
        a.same(b),
    ensures
        a.estimate_upto(node, count) == b.estimate_upto(node, count),
    decreases count,
{
    if count > 0 {
        lemma_same_estimate(a, b, node, (count - 1) as nat);
    }
}

/// The estimate cannot overestimate the real graph: whatever way there is from a node to the
/// target region, by steps, layers and links, costs at least what the estimate says.
///
/// Every z-level must lead back to its layer; a link that leaves from a z-level shared by two
/// layers would be known at one of them only.
pub proof fn law_estimate_is_admissible(model: PortalModel, heuristic: PortalHeuristic)
    requires
        heuristic.made_for(model),
        model.topology.consistent(),
    ensures
        admissible(
            model.moves(),
            heuristic.estimator(),
            |node: LayeredNode| model.in_target(node),
        ),
{
    let target = |node: LayeredNode| model.in_target(node);
    assert forall|nodes: Seq<LayeredNode>, steps: Seq<nat>| #[trigger]
        is_walk(model.moves(), nodes, steps) && target(nodes.last()) implies heuristic.estimator()(
        nodes[0],
    ) <= total(steps) by {
        lemma_walk_is_bounded(model, nodes, steps);
        lemma_estimate_within_bound(model, heuristic, nodes[0], total(steps) as int);
    }
}

/// Only a walk that stays where it is is free, if every link costs something.
proof fn lemma_free_walk_stays(model: PortalModel, nodes: Seq<LayeredNode>, steps: Seq<nat>)
    requires
        is_walk(model.hops(), nodes, steps),
        model.links_cost(),
        total(steps) == 0,
    ensures
        nodes.last() == nodes[0],
    decreases steps.len(),
{
    if steps.len() > 0 {
        let rest = nodes.drop_first();
        let first: int = 0;
        assert((model.hops())(nodes[first], nodes[first + 1], steps[first]));
        if model.link_hop(nodes[0], nodes[1], steps[0]) {
            let i = choose|i: int|
                {
                    &&& 0 <= i < model.links.len()
                    &&& model.topology.node((#[trigger] model.links[i]).source) == Some(nodes[0])
                    &&& model.topology.node(model.links[i].destination) == Some(nodes[1])
                    &&& model.links[i].cost == steps[0]
                };
            assert(model.links[i].cost > 0);
        }
        assert(nodes[0] == nodes[1]);
        assert forall|i: int| 0 <= i < steps.drop_first().len() implies (model.hops())(
            rest[i],
            rest[i + 1],
            #[trigger] steps.drop_first()[i],
        ) by {
            assert((model.hops())(nodes[i + 1], nodes[i + 1 + 1], steps[i + 1]));
        }
        lemma_free_walk_stays(model, rest, steps.drop_first());
    }
}

/// Every listed link source comes with its distance.
proof fn lemma_listed_distance(model: PortalModel, count: nat, index: int)
    requires
        0 <= index < model.sources_upto(count).len(),
    ensures
        model.distance(model.sources_upto(count)[index].0) == Some(
            model.sources_upto(count)[index].1,
        ),
    decreases count,
{
    if count > 0 && index < model.sources_upto((count - 1) as nat).len() {
        lemma_listed_distance(model, (count - 1) as nat, index);
    }
}

/// A way by a link source is not free outside the target region.
proof fn lemma_way_by_source_costs(
    model: PortalModel,
    heuristic: PortalHeuristic,
    node: LayeredNode,
    index: int,
)
    requires
        heuristic.made_for(model),
        model.links_cost(),
        geometrically_connected(node, model.goal, model.is_flying),
        !model.in_target(node),
        0 <= index < heuristic.source_distances@.len(),
        geometrically_connected(node, heuristic.source_distances@[index].0, model.is_flying),
    ensures
        heuristic.by_source(node, index) > 0,
{
    let (source, distance) = heuristic.source_distances@[index];
    lemma_relaxed_cost_is_natural(node, source, 0, model.is_flying);
    if source == node {
        lemma_listed_distance(model, model.links.len(), index);
        assert(model.least(source, distance));
        let (nodes, steps) = choose|nodes: Seq<LayeredNode>, steps: Seq<nat>|
            {
                &&& #[trigger] model.relaxed_route(nodes, steps)
                &&& nodes[0] == source
                &&& distance == smaller(model.route_cost(nodes, steps), u32::MAX as int)
            };
        lemma_relaxed_cost_is_natural(nodes.last(), model.goal, model.radius, model.is_flying);
        if total(steps) == 0 {
            lemma_free_walk_stays(model, nodes, steps);
            assert(model.last_leg(node) > 0);
        }
        assert(distance > 0);
    }
}

/// The estimate does not collapse to zero: where every link costs something, it is positive at each
/// node outside the target region from which geometry leads there, thus everywhere on the goal's own
/// level outside the target radius.
pub proof fn law_estimate_is_positive_outside_the_target(
    model: PortalModel,
    heuristic: PortalHeuristic,
    node: LayeredNode,
)
    requires
        heuristic.made_for(model),
        model.links_cost(),
        geometrically_connected(node, model.goal, model.is_flying),
        !model.in_target(node),
    ensures
        heuristic.estimate_of(node) > 0,
{
    lemma_positive_upto(model, heuristic, node, heuristic.source_distances@.len());
}

proof fn lemma_positive_upto(
    model: PortalModel,
    heuristic: PortalHeuristic,
    node: LayeredNode,
    count: nat,
)
    requires
        heuristic.made_for(model),
        model.links_cost(),
        geometrically_connected(node, model.goal, model.is_flying),
        !model.in_target(node),
        count <= heuristic.source_distances@.len(),
    ensures
        heuristic.estimate_upto(node, count) > 0,
    decreases count,
{
    if count > 0 {
        lemma_positive_upto(model, heuristic, node, (count - 1) as nat);
        if geometrically_connected(
            node,
            heuristic.source_distances@[count - 1].0,
            heuristic.is_flying,
        ) {
            lemma_way_by_source_costs(model, heuristic, node, count - 1);
        }
    }
}

/// What a relaxed walk costs in numbers, as far as 32 bits can tell.
pub open spec fn relaxed_walk(
    from: LayeredNode,
    to: LayeredNode,
    radius: int,
    is_flying: bool,
) -> int {
    let cost = fewest_steps_cost(
        outside(apart(from.x as int, to.x as int), radius),
        outside(apart(from.y as int, to.y as int), radius),
    ) + if is_flying {
        10 * apart(from.layer as int, to.layer as int)
    } else {
        0
    };
    if cost < u32::MAX {
        cost
    } else {
        u32::MAX as int
    }
}

/// Whether an estimate is that of the way by one of the listed link sources: the walk to it and what
/// is left from there, as far as 32 bits can tell.
pub open spec fn is_by_source(
    heuristic: PortalHeuristic,
    node: LayeredNode,
    j: int,
    estimate: int,
) -> bool {
    let (source, distance) = heuristic.source_distances@[j];
    let cost = relaxed_walk(node, source, 0, heuristic.is_flying) + distance;
    &&& node.group == source.group && (heuristic.is_flying || node.layer == source.layer)
    &&& estimate == if cost < u32::MAX {
        cost
    } else {
        u32::MAX as int
    }
}

proof fn lemma_estimate_is_one_of_the_ways(
    heuristic: PortalHeuristic,
    node: LayeredNode,
    count: nat,
)
    requires
        count <= heuristic.source_distances@.len(),
    ensures
        ({
            let estimate = heuristic.estimate_upto(node, count);
            estimate == heuristic.direct(node) || exists|j: int|
                0 <= j < count && #[trigger] is_by_source(heuristic, node, j, estimate)
        }),
    decreases count,
{
    if count > 0 {
        lemma_estimate_is_one_of_the_ways(heuristic, node, (count - 1) as nat);
        let last = count - 1;
        let before = heuristic.estimate_upto(node, last as nat);
        let estimate = heuristic.estimate_upto(node, count);
        let source = heuristic.source_distances@[last].0;
        law_distances_in_numbers((0, 0), (0, 0), 0, node, source, heuristic.is_flying);
        if estimate != before {
            assert(is_by_source(heuristic, node, last, estimate));
        } else if before != heuristic.direct(node) {
            let j = choose|j: int|
                0 <= j < last && #[trigger] is_by_source(heuristic, node, j, before);
            assert(0 <= j < count);
        }
    }
}

/// The estimate is the least of the ways that it is drawn from: straight to the target region, where
/// geometry leads there, and by each of the listed link sources that geometry leads to. Where geometry
/// does not lead to the target region nothing is promised.
pub proof fn law_estimate_is_the_least_way(heuristic: PortalHeuristic, node: LayeredNode, j: int)
    ensures
        ({
            let estimate = heuristic.estimate_of(node);
            let goal = heuristic.goal;
            let flies = heuristic.is_flying;
            let straight = relaxed_walk(node, goal, heuristic.min_target_distance as int, flies);
            if node.group == goal.group && (flies || node.layer == goal.layer) {
                &&& estimate <= straight
                &&& estimate == straight || exists|k: int|
                    0 <= k < heuristic.source_distances@.len() && #[trigger] is_by_source(
                        heuristic,
                        node,
                        k,
                        estimate,
                    )
            } else {
                estimate == 0
            }
        }),
        0 <= j < heuristic.source_distances@.len() ==> {
            let (source, distance) = heuristic.source_distances@[j];
            node.group == source.group && (heuristic.is_flying || node.layer == source.layer)
                ==> heuristic.estimate_of(node) <= relaxed_walk(
                node,
                source,
                0,
                heuristic.is_flying,
            ) + distance
        },
{
    let count = heuristic.source_distances@.len();
    lemma_estimate_is_least(heuristic, node, count);
    lemma_estimate_is_one_of_the_ways(heuristic, node, count);
    law_distances_in_numbers(
        (0, 0),
        (0, 0),
        heuristic.min_target_distance as int,
        node,
        heuristic.goal,
        heuristic.is_flying,
    );
    if 0 <= j < count {
        let source = heuristic.source_distances@[j].0;
        law_distances_in_numbers((0, 0), (0, 0), 0, node, source, heuristic.is_flying);
    }
}

/// The link sources are listed with the least cost of a relaxed route from each to the target region:
/// every source with a place from which there is one, and no others.
pub proof fn law_sources_are_listed_with_their_distances(
    model: PortalModel,
    heuristic: PortalHeuristic,
    j: int,
    i: int,
)
    requires
        heuristic.made_for(model),
    ensures
        heuristic.goal == model.goal,
        heuristic.min_target_distance == model.radius,
        heuristic.is_flying == model.is_flying,
        0 <= j < heuristic.source_distances@.len() ==> {
            let (source, distance) = heuristic.source_distances@[j];
            &&& model.least(source, distance)
            &&& exists|k: int|
                0 <= k < model.links.len() && model.topology.node(
                    (#[trigger] model.links[k]).source,
                ) == Some(source)
        },
        0 <= i < model.links.len() ==> (model.topology.node(model.links[i].source) matches Some(source)
            ==> (forall|nodes: Seq<LayeredNode>, steps: Seq<nat>|
            !(#[trigger] model.relaxed_route(nodes, steps) && nodes[0] == source)) || exists|k: int|
            0 <= k < heuristic.source_distances@.len() && (
            #[trigger] heuristic.source_distances@[k]).0 == source),
{
    let list = heuristic.source_distances@;
    if 0 <= j < list.len() {
        lemma_listed_distance(model, model.links.len(), j);
        lemma_listed_source(model, model.links.len(), j);
    }
    if 0 <= i < model.links.len() {
        if let Some(source) = model.topology.node(model.links[i].source) {
            if exists|nodes: Seq<LayeredNode>, steps: Seq<nat>|
                #[trigger] model.relaxed_route(nodes, steps) && nodes[0] == source {
                let (nodes, steps) = choose|nodes: Seq<LayeredNode>, steps: Seq<nat>|
                    #[trigger] model.relaxed_route(nodes, steps) && nodes[0] == source;
                lemma_least_exists(model, nodes, steps);
                lemma_source_is_listed(model, model.links.len(), i);
                let item = (source, model.distance(source).unwrap());
                let k = choose|k: int| 0 <= k < list.len() && list[k] == item;
                assert(list[k].0 == source);
            }
        }
    }
}

proof fn lemma_listed_source(model: PortalModel, count: nat, index: int)
    requires
        count <= model.links.len(),
        0 <= index < model.sources_upto(count).len(),
    ensures
        exists|k: int|
            0 <= k < count && model.topology.node((#[trigger] model.links[k]).source) == Some(
                model.sources_upto(count)[index].0,
            ),
    decreases count,
{
    if count > 0 {
        let before = model.sources_upto((count - 1) as nat);
        if index < before.len() {
            lemma_listed_source(model, (count - 1) as nat, index);
            let k = choose|k: int|
                0 <= k < count - 1 && model.topology.node((#[trigger] model.links[k]).source)
                    == Some(before[index].0);
            assert(model.topology.node(model.links[k].source) == Some(
                model.sources_upto(count)[index].0,
            ));
        } else {
            assert(model.topology.node(model.links[count - 1].source) == Some(
                model.sources_upto(count)[index].0,
            ));
        }
    }
}

/// Whether a link joins two nodes in the given order, both ends having a place.
pub open spec fn joins(
    topology: Topology,
    link: NavLink,
    from: LayeredNode,
    to: LayeredNode,
) -> bool {
    let places = topology.z_to_layer@;
    &&& places.contains_key(link.source.2) && places.contains_key(link.destination.2)
    &&& from.group == places[link.source.2].group && from.layer == places[link.source.2].layer
    &&& from.x == link.source.0 && from.y == link.source.1
    &&& to.group == places[link.destination.2].group && to.layer
        == places[link.destination.2].layer
    &&& to.x == link.destination.0 && to.y == link.destination.1
}

/// Whether a node is an end of a link whose ends both have a place.
pub open spec fn is_end(topology: Topology, link: NavLink, node: LayeredNode) -> bool {
    let places = topology.z_to_layer@;
    &&& places.contains_key(link.source.2) && places.contains_key(link.destination.2)
    &&& {
        ||| {
            &&& node.group == places[link.source.2].group
            &&& node.layer == places[link.source.2].layer
            &&& node.x == link.source.0 && node.y == link.source.1
        }
        ||| {
            &&& node.group == places[link.destination.2].group
            &&& node.layer == places[link.destination.2].layer
            &&& node.x == link.destination.0 && node.y == link.destination.1
        }
    }
}

/// A relaxed route goes from portal to portal: over any distance that geometry joins, at the cost of
/// the fewest steps, or by a link at its cost. Portals are the goal and the ends of the links whose ends
/// both have a place. From its last portal it goes straight to the target region.
pub proof fn law_relaxed_routes_go_by_portals(
    model: PortalModel,
    from: LayeredNode,
    to: LayeredNode,
    cost: nat,
)
    ensures
        model.portal(from) <==> {
            ||| from == model.goal
            ||| exists|i: int|
                0 <= i < model.links.len() && is_end(
                    model.topology,
                    #[trigger] model.links[i],
                    from,
                )
        },
        model.hop(from, to, cost) <==> {
            &&& model.portal(from) && model.portal(to)
            &&& {
                ||| {
                    &&& from.group == to.group && (model.is_flying || from.layer == to.layer)
                    &&& cost == fewest_steps_cost(
                        apart(from.x as int, to.x as int),
                        apart(from.y as int, to.y as int),
                    ) + if model.is_flying {
                        10 * apart(from.layer as int, to.layer as int)
                    } else {
                        0
                    }
                }
                ||| exists|i: int|
                    0 <= i < model.links.len() && joins(
                        model.topology,
                        #[trigger] model.links[i],
                        from,
                        to,
                    ) && model.links[i].cost == cost
            }
        },
        model.last_leg(from) == fewest_steps_cost(
            outside(apart(from.x as int, model.goal.x as int), model.radius),
            outside(apart(from.y as int, model.goal.y as int), model.radius),
        ) + if model.is_flying {
            10 * apart(from.layer as int, model.goal.layer as int)
        } else {
            0
        },
{
    law_distances_in_numbers((0, 0), (0, 0), 0, from, to, model.is_flying);
    law_distances_in_numbers((0, 0), (0, 0), model.radius, from, model.goal, model.is_flying);
    if model.portal(from) && from != model.goal {
        let i = choose|i: int|
            0 <= i < model.links.len() && model.ends(#[trigger] model.links[i], from);
        assert(is_end(model.topology, model.links[i], from));
    }
    if exists|i: int|
        0 <= i < model.links.len() && is_end(model.topology, #[trigger] model.links[i], from) {
        let i = choose|i: int|
            0 <= i < model.links.len() && is_end(model.topology, #[trigger] model.links[i], from);
        assert(model.ends(model.links[i], from));
    }
    if model.link_hop(from, to, cost) {
        let i = choose|i: int|
            {
                &&& 0 <= i < model.links.len()
                &&& model.topology.node((#[trigger] model.links[i]).source) == Some(from)
                &&& model.topology.node(model.links[i].destination) == Some(to)
                &&& model.links[i].cost == cost
            };
        assert(joins(model.topology, model.links[i], from, to));
    }
    if exists|i: int|
        0 <= i < model.links.len() && joins(model.topology, #[trigger] model.links[i], from, to)
            && model.links[i].cost == cost {
        let i = choose|i: int|
            0 <= i < model.links.len() && joins(model.topology, #[trigger] model.links[i], from, to)
                && model.links[i].cost == cost;
        assert(model.topology.node(model.links[i].source) == Some(from));
        assert(model.link_hop(from, to, cost));
    }
}

} // verus!
