//! How far something that only ever gets better can still go.

use vstd::prelude::*;

verus! {

/// How far the cost written down for a node can still fall.
pub open spec fn height<N>(costs: Map<N, u32>, node: N) -> nat {
    if costs.contains_key(node) {
        costs[node] as nat
    } else {
        0x1_0000_0000
    }
}

/// How far the costs written down for some nodes can still fall.
pub open spec fn potential<N>(nodes: Seq<N>, costs: Map<N, u32>) -> nat
    decreases nodes.len(),
{
    if nodes.len() == 0 {
        0
    } else {
        potential(nodes.drop_last(), costs) + height(costs, nodes.last())
    }
}

/// Before any cost is written down the potential is at its greatest.
pub proof fn lemma_potential_at_first<N>(nodes: Seq<N>)
    ensures
        potential(nodes, Map::empty()) == nodes.len() * 0x1_0000_0000,
    decreases nodes.len(),
{
    if nodes.len() > 0 {
        lemma_potential_at_first(nodes.drop_last());
    }
}

/// A better cost lowers the potential.
pub proof fn lemma_potential_falls<N>(nodes: Seq<N>, costs: Map<N, u32>, node: N, cost: u32)
    requires
        !costs.contains_key(node) || cost < costs[node],
    ensures
        potential(nodes, costs.insert(node, cost)) <= potential(nodes, costs),
        nodes.contains(node) ==> potential(nodes, costs.insert(node, cost)) < potential(
            nodes,
            costs,
        ),
    decreases nodes.len(),
{
    if nodes.len() > 0 {
        let rest = nodes.drop_last();
        lemma_potential_falls(rest, costs, node, cost);
        if nodes.contains(node) && nodes.last() != node {
            let i = choose|i: int| 0 <= i < nodes.len() && nodes[i] == node;
            assert(rest[i] == node);
        }
    }
}

/// How many of some nodes have not been looked up.
pub open spec fn unknown<N, V>(nodes: Seq<N>, known: Map<N, V>) -> nat
    decreases nodes.len(),
{
    if nodes.len() == 0 {
        0
    } else {
        unknown(nodes.drop_last(), known) + if known.contains_key(nodes.last()) {
            0nat
        } else {
            1nat
        }
    }
}

/// Looking up a node leaves fewer unknown.
pub proof fn lemma_unknown_falls<N, V>(nodes: Seq<N>, known: Map<N, V>, node: N, value: V)
    requires
        !known.contains_key(node),
    ensures
        unknown(nodes, known.insert(node, value)) <= unknown(nodes, known),
        nodes.contains(node) ==> unknown(nodes, known.insert(node, value)) < unknown(nodes, known),
    decreases nodes.len(),
{
    if nodes.len() > 0 {
        let rest = nodes.drop_last();
        lemma_unknown_falls(rest, known, node, value);
        if nodes.contains(node) && nodes.last() != node {
            let i = choose|i: int| 0 <= i < nodes.len() && nodes[i] == node;
            assert(rest[i] == node);
        }
    }
}

/// Lexicographic order on what is left to do.
pub open spec fn less_left(a: (nat, nat, nat, nat), b: (nat, nat, nat, nat)) -> bool {
    ||| a.0 < b.0
    ||| a.0 == b.0 && a.1 < b.1
    ||| a.0 == b.0 && a.1 == b.1 && a.2 < b.2
    ||| a.0 == b.0 && a.1 == b.1 && a.2 == b.2 && a.3 < b.3
}

} // verus!
