//! Walks through a graph with weighted edges, and what a best-first search knows about them.

use vstd::prelude::*;

verus! {

/// Which nodes are joined by an edge of which cost.
pub type Edges<N> = spec_fn(N, N, nat) -> bool;

/// Sum of the costs of a walk.
pub open spec fn total(steps: Seq<nat>) -> nat
    decreases steps.len(),
{
    if steps.len() == 0 {
        0
    } else {
        steps[0] + total(steps.drop_first())
    }
}

/// Whether `nodes` are joined one after the other by edges that cost `steps`.
pub open spec fn is_walk<N>(edge: Edges<N>, nodes: Seq<N>, steps: Seq<nat>) -> bool {
    &&& nodes.len() == steps.len() + 1
    &&& forall|i: int|
        0 <= i < steps.len() ==> edge(nodes[i], nodes[i + 1], #[trigger] steps[i])
}

/// Whether an estimate never exceeds what a walk from its node to a target costs.
pub open spec fn admissible<N>(
    edge: Edges<N>,
    estimate: spec_fn(N) -> nat,
    target: spec_fn(N) -> bool,
) -> bool {
    forall|nodes: Seq<N>, steps: Seq<nat>| #[trigger]
        is_walk(edge, nodes, steps) && target(nodes.last()) ==> estimate(nodes[0]) <= total(steps)
}

/// An estimate that is zero at every target and that no edge lowers by more than its cost is
/// admissible.
pub proof fn lemma_consistent_is_admissible<N>(
    edge: Edges<N>,
    estimate: spec_fn(N) -> nat,
    target: spec_fn(N) -> bool,
)
    requires
        forall|n: N| #[trigger] target(n) ==> estimate(n) == 0,
        forall|a: N, b: N, c: nat| #[trigger] edge(a, b, c) ==> estimate(a) <= c + estimate(b),
    ensures
        admissible(edge, estimate, target),
{
    assert forall|nodes: Seq<N>, steps: Seq<nat>| #[trigger]
        is_walk(edge, nodes, steps) && target(nodes.last()) implies estimate(nodes[0]) <= total(
        steps,
    ) by {
        lemma_consistent_bounds_walk(edge, estimate, target, nodes, steps);
    }
}

/// An estimate that is admissible for a graph is so for every part of it.
pub proof fn lemma_admissible_for_part<N>(
    whole: Edges<N>,
    part: Edges<N>,
    estimate: spec_fn(N) -> nat,
    target: spec_fn(N) -> bool,
)
    requires
        admissible(whole, estimate, target),
        forall|a: N, b: N, c: nat| #[trigger] part(a, b, c) ==> whole(a, b, c),
    ensures
        admissible(part, estimate, target),
{
    assert forall|nodes: Seq<N>, steps: Seq<nat>| #[trigger]
        is_walk(part, nodes, steps) && target(nodes.last()) implies estimate(nodes[0]) <= total(
        steps,
    ) by {
        assert forall|i: int| 0 <= i < steps.len() implies whole(
            nodes[i],
            nodes[i + 1],
            #[trigger] steps[i],
        ) by {
            assert(part(nodes[i], nodes[i + 1], steps[i]));
        }
        assert(is_walk(whole, nodes, steps));
    }
}

proof fn lemma_consistent_bounds_walk<N>(
    edge: Edges<N>,
    estimate: spec_fn(N) -> nat,
    target: spec_fn(N) -> bool,
    nodes: Seq<N>,
    steps: Seq<nat>,
)
    requires
        forall|n: N| #[trigger] target(n) ==> estimate(n) == 0,
        forall|a: N, b: N, c: nat| #[trigger] edge(a, b, c) ==> estimate(a) <= c + estimate(b),
        is_walk(edge, nodes, steps),
        target(nodes.last()),
    ensures
        estimate(nodes[0]) <= total(steps),
    decreases steps.len(),
{
    if steps.len() > 0 {
        lemma_walk_tail(edge, nodes, steps);
        lemma_consistent_bounds_walk(
            edge,
            estimate,
            target,
            nodes.drop_first(),
            steps.drop_first(),
        );
        assert(edge(nodes[0], nodes[1], steps[0]));
    }
}

/// What is left of a walk after its first edge is a walk.
pub proof fn lemma_walk_tail<N>(edge: Edges<N>, nodes: Seq<N>, steps: Seq<nat>)
    requires
        is_walk(edge, nodes, steps),
        steps.len() > 0,
    ensures
        is_walk(edge, nodes.drop_first(), steps.drop_first()),
        nodes.drop_first().last() == nodes.last(),
        total(steps) == steps[0] + total(steps.drop_first()),
{
    let rest = steps.drop_first();
    assert forall|i: int| 0 <= i < rest.len() implies edge(
        nodes.drop_first()[i],
        nodes.drop_first()[i + 1],
        #[trigger] rest[i],
    ) by {
        assert(edge(nodes[i + 1], nodes[i + 2], steps[i + 1]));
    }
}

/// One more edge in front of a walk.
pub proof fn lemma_walk_prepend<N>(edge: Edges<N>, from: N, cost: nat, nodes: Seq<N>, steps: Seq<nat>)
    requires
        is_walk(edge, nodes, steps),
        edge(from, nodes[0], cost),
    ensures
        is_walk(edge, seq![from] + nodes, seq![cost] + steps),
        (seq![from] + nodes)[0] == from,
        (seq![from] + nodes).last() == nodes.last(),
        total(seq![cost] + steps) == cost + total(steps),
{
    let longer = seq![from] + nodes;
    let costs = seq![cost] + steps;
    assert forall|i: int| 0 <= i < costs.len() implies edge(
        longer[i],
        longer[i + 1],
        #[trigger] costs[i],
    ) by {
        if i > 0 {
            assert(edge(nodes[i - 1], nodes[i], steps[i - 1]));
        }
    }
    assert(costs.drop_first() =~= steps);
}

/// The cost of one more edge adds to the sum.
pub proof fn lemma_total_push(steps: Seq<nat>, cost: nat)
    ensures
        total(steps.push(cost)) == total(steps) + cost,
    decreases steps.len(),
{
    if steps.len() > 0 {
        lemma_total_push(steps.drop_first(), cost);
        assert(steps.push(cost).drop_first() =~= steps.drop_first().push(cost));
    } else {
        assert(steps.push(cost).drop_first() =~= Seq::<nat>::empty());
        assert(total(Seq::<nat>::empty()) == 0);
    }
}

/// Whether the edges out of a node have been followed: where they lead is known at no more than
/// the node's cost and theirs, unless that exceeds the limit.
pub open spec fn followed<N>(
    edge: Edges<N>,
    costs: Map<N, nat>,
    limit: Option<nat>,
    n: N,
) -> bool {
    forall|m: N, c: nat| #[trigger]
        edge(n, m, c) ==> {
            ||| costs.contains_key(m) && costs[m] <= costs[n] + c
            ||| limit matches Some(l) && l < costs[n] + c
        }
}

/// The heart of the search: take any walk from the start to a target that stays within the limit.
/// If every known node is either open or has been followed and is no target, then some open node
/// on the walk promises, by its cost and its estimate, no more than the walk costs.
pub proof fn lemma_some_open_node_promises<N>(
    edge: Edges<N>,
    estimate: spec_fn(N) -> nat,
    target: spec_fn(N) -> bool,
    costs: Map<N, nat>,
    limit: Option<nat>,
    open: spec_fn(N) -> bool,
    nodes: Seq<N>,
    steps: Seq<nat>,
)
    requires
        admissible(edge, estimate, target),
        is_walk(edge, nodes, steps),
        target(nodes.last()),
        limit matches Some(l) ==> total(steps) <= l,
        costs.contains_key(nodes[0]),
        costs[nodes[0]] == 0,
        forall|n: N| #[trigger]
            costs.contains_key(n) ==> open(n) || (!target(n) && followed(edge, costs, limit, n)),
    ensures
        exists|n: N| #[trigger]
            costs.contains_key(n) && open(n) && nodes.contains(n) && costs[n] + estimate(n) <= total(
                steps,
            ),
{
    lemma_open_node_from(
        edge,
        estimate,
        target,
        costs,
        limit,
        open,
        nodes,
        steps,
        0,
        total(steps),
    );
}

proof fn lemma_open_node_from<N>(
    edge: Edges<N>,
    estimate: spec_fn(N) -> nat,
    target: spec_fn(N) -> bool,
    costs: Map<N, nat>,
    limit: Option<nat>,
    open: spec_fn(N) -> bool,
    nodes: Seq<N>,
    steps: Seq<nat>,
    spent: nat,
    whole: nat,
)
    requires
        admissible(edge, estimate, target),
        is_walk(edge, nodes, steps),
        target(nodes.last()),
        spent + total(steps) == whole,
        limit matches Some(l) ==> whole <= l,
        costs.contains_key(nodes[0]),
        costs[nodes[0]] <= spent,
        forall|n: N| #[trigger]
            costs.contains_key(n) ==> open(n) || (!target(n) && followed(edge, costs, limit, n)),
    ensures
        exists|n: N| #[trigger]
            costs.contains_key(n) && open(n) && nodes.contains(n) && costs[n] + estimate(n)
                <= whole,
    decreases steps.len(),
{
    let here = nodes[0];
    assert(nodes.contains(here));
    if open(here) {
        assert(estimate(here) <= total(steps));
        assert(costs.contains_key(here) && open(here) && nodes.contains(here) && costs[here]
            + estimate(here) <= whole);
    } else {
        assert(steps.len() > 0);
        lemma_walk_tail(edge, nodes, steps);
        assert(edge(nodes[0], nodes[1], steps[0]));
        assert(followed(edge, costs, limit, here));
        let rest = nodes.drop_first();
        lemma_open_node_from(
            edge,
            estimate,
            target,
            costs,
            limit,
            open,
            rest,
            steps.drop_first(),
            spent + steps[0],
            whole,
        );
        let n = choose|n: N| #[trigger]
            costs.contains_key(n) && open(n) && rest.contains(n) && costs[n] + estimate(n) <= whole;
        let i = choose|i: int| 0 <= i < rest.len() && rest[i] == n;
        assert(nodes[i + 1] == n);
        assert(costs.contains_key(n) && open(n) && nodes.contains(n) && costs[n] + estimate(n)
            <= whole);
    }
}

} // verus!
