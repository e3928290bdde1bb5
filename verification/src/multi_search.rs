//! The resumable multi-level A* search.

use crate::diagonals::{
    diagonal_verdict, verdict, DiagonalHandling, DiagonalRoutes, DiagonalVerdict,
};
use crate::directions::{step, STEP_COUNT};
use crate::frontier::{rank_below, Frontier, Ranked};
use crate::geometry::{
    chebyshev, chebyshev_distance, comparable, lemma_step_moves, smaller, LayeredNode, TurfCoords,
};
use crate::grid::{no_routes, on_grid};
use crate::layered_grid::{
    beside, indexed_at, indexes, is_link_among, is_link_of, is_step,
    law_more_turfs_keep_layered_successors, law_successors_are_moves,
    lemma_equivalent_layered_successors, lemma_layered_successors_bounds,
    lemma_layered_successors_fit, lemma_leaving_links, links_leaving, step_node, LayeredAction,
    LayeredGrid, LayeredTurfs, Request, Successor,
};
use crate::measure::{lemma_potential_falls, lemma_unknown_falls, less_left, potential, unknown};
use crate::nav_pass::{NavPassCache, TurfInfo};
use crate::packed_map::PackedMap;
use crate::portal::{
    law_estimate_is_admissible, lemma_estimate_fits, lemma_same_estimate, portal_model,
    PortalHeuristic,
};
use crate::queue::LayeredQueueEntry;
use crate::search::{reversed, SLICE_BUDGET};
use crate::topology::{topology_generation, NavLink, Topology};
use crate::walks::{
    admissible, followed, is_walk, lemma_admissible_for_part, lemma_some_open_node_promises,
    lemma_total_push, total, Edges,
};
use vstd::multiset::Multiset;
use vstd::prelude::*;

verus! {

broadcast use vstd::multiset::group_multiset_axioms;

/// What the search has written down so far.
#[verifier::ext_equal]
pub struct LayeredBook {
    /// Best known cost for each visited node.
    pub costs: Map<LayeredNode, u32>,
    /// Previous node and action for reconstruction.
    pub previous: Map<LayeredNode, (LayeredNode, LayeredAction)>,
    /// Queued entries, stale ones included.
    pub frontier: Multiset<LayeredQueueEntry>,
    /// Number of entries ever queued.
    pub sequence: nat,
    /// Sequence number with which each node was last queued.
    pub stamps: Map<LayeredNode, nat>,
    /// Successors of each node when they were last offered.
    pub lists: Map<LayeredNode, Seq<Successor>>,
}

/// What a move onto a node costs in all, as far as 32 bits can tell.
pub open spec fn saturated(cost: int) -> u32 {
    smaller(cost, u32::MAX as int) as u32
}

/// The book after queueing a node at a cost.
pub open spec fn pushed(
    book: LayeredBook,
    heuristic: PortalHeuristic,
    node: LayeredNode,
    cost: u32,
) -> LayeredBook {
    LayeredBook {
        costs: book.costs.insert(node, cost),
        frontier: book.frontier.insert(
            LayeredQueueEntry {
                node,
                cost,
                estimate: saturated(cost + heuristic.estimate_of(node)),
                sequence: (book.sequence + 1) as u64,
            },
        ),
        sequence: book.sequence + 1,
        stamps: book.stamps.insert(node, book.sequence + 1),
        ..book
    }
}

/// Whether a successor of an entry is within the cost limit, and new or reached more cheaply than
/// before.
pub open spec fn better(
    book: LayeredBook,
    max_cost: u32,
    from: LayeredQueueEntry,
    item: Successor,
) -> bool {
    let next = saturated(from.cost + item.1);
    &&& max_cost == 0 || next <= max_cost
    &&& !book.costs.contains_key(item.0) || next < book.costs[item.0]
}

/// Whether the numbers computed for a successor of an entry stay within their machine range. There
/// is no estimate of what is left from a successor that is not queued.
pub open spec fn offer_fits(
    book: LayeredBook,
    heuristic: PortalHeuristic,
    max_cost: u32,
    from: LayeredQueueEntry,
    item: Successor,
) -> bool {
    better(book, max_cost, from, item) ==> heuristic.measures(item.0)
}

/// The book after offering the first `count` successors of an entry: each that is within the
/// cost limit, and new or reached more cheaply than before, is queued with the entry's node as
/// its predecessor.
pub open spec fn offered(
    book: LayeredBook,
    heuristic: PortalHeuristic,
    max_cost: u32,
    from: LayeredQueueEntry,
    out: Seq<Successor>,
    count: nat,
) -> LayeredBook
    decreases count,
{
    if count == 0 {
        book
    } else {
        let before = offered(book, heuristic, max_cost, from, out, (count - 1) as nat);
        let (to, cost, action) = out[count - 1];
        if better(before, max_cost, from, out[count - 1]) {
            pushed(
                LayeredBook {
                    previous: before.previous.insert(to, (from.node, action)),
                    ..before
                },
                heuristic,
                to,
                saturated(from.cost + cost),
            )
        } else {
            before
        }
    }
}

/// Result of one move of a multi-level search.
#[derive(Clone, Copy, Debug, PartialEq, Eq, Structural)]
pub enum MultiJobProgress {
    /// The slice is used up; the search goes on in another one.
    InProgress,
    /// There is more to do in this slice.
    Working,
    /// The search cannot go on before the turf at this node has been looked up.
    NeedsTurf(LayeredNode),
    /// The search cannot go on before it is known whether the mover may plan to take this link.
    NeedsLink(u64),
    /// A cheapest path to this node was found.
    Found(LayeredNode),
    /// There is no path.
    NoPath,
    /// The topology has changed since the search began.
    Stale,
}

/// Ghost record of a search.
pub struct History {
    /// Sequence number with which each node was last queued.
    pub stamps: Map<LayeredNode, nat>,
    /// Successors of each node when they were last offered.
    pub lists: Map<LayeredNode, Seq<Successor>>,
}

/// Resumable multi-level A* search state.
pub struct MultiSearchJob {
    /// Layered grid and topology snapshot.
    pub grid: LayeredGrid,
    /// Search target node.
    pub goal: LayeredNode,
    /// Admissible lower-bound estimate including portals between levels.
    pub heuristic: PortalHeuristic,
    /// Acceptable distance from the target.
    pub min_target_distance: i32,
    /// Requested diagonal output mode.
    pub diagonal_handling: DiagonalHandling,
    /// Whether the first returned turf is omitted.
    pub skip_first: bool,
    /// Frontier ordered by estimated total cost.
    pub frontier: Frontier<LayeredQueueEntry>,
    /// Best known cost for each visited node.
    pub costs: PackedMap<LayeredNode, u32>,
    /// Previous node and action for reconstruction.
    pub previous: PackedMap<LayeredNode, (LayeredNode, LayeredAction)>,
    /// Entry taken out of the frontier whose successors are being looked at.
    pub current: Option<LayeredQueueEntry>,
    /// Answers to the questions about links that the successors of this entry raised so far.
    pub replies: Vec<bool>,
    /// Whether the start node has been looked at.
    pub initialized: bool,
    /// Sequence used to break queue ties.
    pub sequence: u64,
    /// Last time this job was resumed, in nanoseconds.
    pub last_touched: u128,
    /// What the proofs keep in mind.
    pub history: Ghost<History>,
}

/// Whether a path leads backwards along the recorded predecessors, as far as they go, with each
/// action beside its destination.
pub open spec fn retraces(
    previous: Map<LayeredNode, (LayeredNode, LayeredAction)>,
    nodes: Seq<LayeredNode>,
    actions: Seq<LayeredAction>,
    end: LayeredNode,
) -> bool {
    &&& nodes.len() > 0
    &&& actions.len() == nodes.len()
    &&& nodes.last() == end
    &&& actions[0] == LayeredAction::Plain
    &&& !previous.contains_key(nodes[0])
    &&& forall|i: int|
        0 < i < nodes.len() ==> previous.contains_key(#[trigger] nodes[i]) && previous[nodes[i]]
            == (nodes[i - 1], actions[i])
}

/// Whether the recorded predecessors of a node come to an end.
pub open spec fn leads_back(
    previous: Map<LayeredNode, (LayeredNode, LayeredAction)>,
    end: LayeredNode,
) -> bool {
    exists|nodes: Seq<LayeredNode>, actions: Seq<LayeredAction>|
        retraces(previous, nodes, actions, end)
}

/// Whether every recorded predecessor was reached at a lower cost than its successor, or at the
/// same cost and queued before it.
pub open spec fn descending(
    costs: Map<LayeredNode, u32>,
    stamps: Map<LayeredNode, nat>,
    previous: Map<LayeredNode, (LayeredNode, LayeredAction)>,
) -> bool {
    forall|n: LayeredNode| #[trigger]
        previous.contains_key(n) ==> {
            let p = previous[n].0;
            &&& costs.contains_key(n)
            &&& costs.contains_key(p)
            &&& costs[p] < costs[n] || (costs[p] == costs[n] && stamps[p] < stamps[n])
        }
}

impl MultiSearchJob {
    /// What the search has written down so far.
    pub open spec fn book(self) -> LayeredBook {
        LayeredBook {
            costs: self.costs@,
            previous: self.previous@,
            frontier: self.frontier@,
            sequence: self.sequence as nat,
            stamps: self.history@.stamps,
            lists: self.history@.lists,
        }
    }

    /// The acceptable distance as an integer.
    pub open spec fn radius(self) -> int {
        self.min_target_distance as int
    }

    /// Whether the settings of two jobs agree.
    pub open spec fn same_settings(self, other: MultiSearchJob) -> bool {
        &&& self.goal == other.goal
        &&& self.heuristic == other.heuristic
        &&& self.min_target_distance == other.min_target_distance
        &&& self.diagonal_handling == other.diagonal_handling
        &&& self.skip_first == other.skip_first
        &&& self.grid.same_rules(other.grid)
    }

    /// Whether the settings of two jobs say the same, however they are kept.
    pub open spec fn alike(self, other: MultiSearchJob) -> bool {
        &&& self.goal == other.goal
        &&& self.heuristic.same(other.heuristic)
        &&& self.min_target_distance == other.min_target_distance
        &&& self.diagonal_handling == other.diagonal_handling
        &&& self.skip_first == other.skip_first
        &&& self.grid.equivalent(other.grid)
    }

    /// Creates an empty resumable search.
    pub fn new(
        grid: LayeredGrid,
        goal: LayeredNode,
        heuristic: PortalHeuristic,
        min_target_distance: i32,
        diagonal_handling: DiagonalHandling,
        skip_first: bool,
        now: u128,
    ) -> (job: Self)
        ensures
            job.grid == grid,
            job.goal == goal,
            job.heuristic == heuristic,
            job.min_target_distance == min_target_distance,
            job.diagonal_handling == diagonal_handling,
            job.skip_first == skip_first,
            job.book() == (LayeredBook {
                costs: Map::empty(),
                previous: Map::empty(),
                frontier: Multiset::empty(),
                sequence: 0,
                stamps: Map::empty(),
                lists: Map::empty(),
            }),
            job.frontier.wf(),
            job.current is None,
            job.replies@.len() == 0,
            !job.initialized,
            job.last_touched == now,
    {
        MultiSearchJob {
            grid,
            goal,
            heuristic,
            min_target_distance,
            diagonal_handling,
            skip_first,
            frontier: Frontier::new(),
            costs: PackedMap::new(),
            previous: PackedMap::new(),
            current: None,
            replies: Vec::new(),
            initialized: false,
            sequence: 0,
            last_touched: now,
            history: Ghost(History { stamps: Map::empty(), lists: Map::empty() }),
        }
    }

    /// Queues a node with its current best cost.
    pub fn push(&mut self, node: LayeredNode, cost: u32)
        requires
            old(self).frontier.wf(),
            old(self).sequence < u64::MAX,
            old(self).heuristic.measures(node),
        ensures
            final(self).frontier.wf(),
            final(self).book() == pushed(old(self).book(), old(self).heuristic, node, cost),
            final(self).same_settings(*old(self)),
            final(self).grid == old(self).grid,
            final(self).current == old(self).current,
            final(self).replies == old(self).replies,
            final(self).initialized == old(self).initialized,
            final(self).last_touched == old(self).last_touched,
    {
        self.costs.insert(node, cost);
        self.sequence = self.sequence + 1;
        let remaining: u32 = self.heuristic.estimate(node);
        self.frontier.push(
            LayeredQueueEntry {
                node,
                cost,
                estimate: cost.saturating_add(remaining),
                sequence: self.sequence,
            },
        );
        proof {
            self.history@ = History {
                stamps: self.history@.stamps.insert(node, self.sequence as nat),
                ..self.history@
            };
        }
    }

    /// Reconstructs nodes and actions from the goal.
    pub fn reconstruct(&self, goal: LayeredNode) -> (path: (Vec<LayeredNode>, Vec<LayeredAction>))
        requires
            leads_back(self.previous@, goal),
        ensures
            retraces(self.previous@, path.0@, path.1@, goal),
    {
        let ghost previous = self.previous@;
        let ghost (way, moves) = choose|nodes: Seq<LayeredNode>, actions: Seq<LayeredAction>|
            retraces(previous, nodes, actions, goal);
        let mut nodes: Vec<LayeredNode> = Vec::new();
        nodes.push(goal);
        let mut actions: Vec<LayeredAction> = Vec::new();
        let mut at: LayeredNode = goal;
        loop
            invariant
                previous == self.previous@,
                retraces(previous, way, moves, goal),
                nodes@.len() == actions@.len() + 1,
                nodes@.len() <= way.len(),
                nodes@[0] == goal,
                nodes@.last() == at,
                at == way[way.len() - nodes@.len()],
                forall|i: int|
                    0 <= i < actions@.len() ==> previous.contains_key(#[trigger] nodes@[i])
                        && previous[nodes@[i]] == (nodes@[i + 1], actions@[i]),
            ensures
                !previous.contains_key(at),
            decreases way.len() - nodes@.len(),
        {
            let ghost walked = nodes@;
            let ghost taken = actions@;
            let (before, action) = match self.previous.get(at) {
                Some(found) => *found,
                None => {
                    break;
                },
            };
            nodes.push(before);
            actions.push(action);
            proof {
                assert(way.len() - walked.len() > 0);
                assert forall|i: int| 0 <= i < actions@.len() implies previous.contains_key(
                    #[trigger] nodes@[i],
                ) && previous[nodes@[i]] == (nodes@[i + 1], actions@[i]) by {
                    assert(nodes@[i] == walked[i]);
                    if i < taken.len() {
                        assert(previous[walked[i]] == (walked[i + 1], taken[i]));
                    }
                }
            }
            at = before;
        }
        // The start gets an action of its own, so that both lists are of one length.
        actions.push(LayeredAction::Plain);
        let path = (reversed(&nodes), reversed(&actions));
        assert forall|i: int| 0 < i < path.0@.len() implies previous.contains_key(
            #[trigger] path.0@[i],
        ) && previous[path.0@[i]] == (path.0@[i - 1], path.1@[i]) by {
            let j = nodes@.len() - 1 - i;
            assert(path.0@[i] == nodes@[j]);
            assert(path.1@[i] == actions@[j]);
        }
        path
    }
}

/// Whether a node is close enough to the goal, on the goal's own level.
pub open spec fn near(goal: LayeredNode, radius: int, node: LayeredNode) -> bool {
    &&& node.group == goal.group
    &&& node.layer == goal.layer
    &&& chebyshev(node.coord(), goal.coord()) <= radius
}

/// Whether a queue entry agrees with the book: it costs no less than the best known way to its
/// node, and its estimate adds that of the heuristic.
pub open spec fn entry_ok(
    book: LayeredBook,
    heuristic: PortalHeuristic,
    e: LayeredQueueEntry,
) -> bool {
    &&& book.costs.contains_key(e.node)
    &&& book.costs[e.node] <= e.cost
    &&& e.estimate == saturated(e.cost + heuristic.estimate_of(e.node))
}

/// Whether an entry with the best known cost of a node is waiting.
pub open spec fn queued(book: LayeredBook, n: LayeredNode) -> bool {
    exists|e: LayeredQueueEntry| #[trigger]
        book.frontier.contains(e) && e.node == n && e.cost == book.costs[n]
}

/// Whether the successors of a node are just being looked at.
pub open spec fn in_hand(
    book: LayeredBook,
    current: Option<LayeredQueueEntry>,
    n: LayeredNode,
) -> bool {
    current matches Some(e) && e.node == n && e.cost == book.costs[n]
}

/// Whether a successor of a node is known at no more than the node's cost and that of the move,
/// unless that exceeds the cost limit.
pub open spec fn accounted(
    book: LayeredBook,
    max_cost: u32,
    n: LayeredNode,
    item: Successor,
) -> bool {
    ||| book.costs.contains_key(item.0) && book.costs[item.0] <= book.costs[n] + item.1
    ||| max_cost > 0 && max_cost < book.costs[n] + item.1
}

/// Whether the search is through with a node: it is no target, and each successor listed for it
/// is accounted for.
pub open spec fn done(
    goal: LayeredNode,
    radius: int,
    max_cost: u32,
    book: LayeredBook,
    n: LayeredNode,
) -> bool {
    &&& !near(goal, radius, n)
    &&& book.lists.contains_key(n)
    &&& forall|i: int|
        0 <= i < book.lists[n].len() ==> accounted(book, max_cost, n, #[trigger] book.lists[n][i])
}

/// Whether a node's successors are the given ones, with some answers to the questions about
/// links.
pub open spec fn listed(
    grid: LayeredGrid,
    turfs: LayeredTurfs,
    n: LayeredNode,
    out: Seq<Successor>,
) -> bool {
    exists|replies: Seq<bool>| #[trigger]
        grid.successors_of(turfs, replies, n) == Ok::<Seq<Successor>, Request>(out)
}

/// Whether a move can be made, with some answers to the questions about links.
pub open spec fn leads_to(
    grid: LayeredGrid,
    turfs: LayeredTurfs,
    from: LayeredNode,
    item: Successor,
) -> bool {
    exists|out: Seq<Successor>| #[trigger] listed(grid, turfs, from, out) && out.contains(item)
}

/// Whether a recorded predecessor explains the cost of a node.
pub open spec fn explained(
    grid: LayeredGrid,
    turfs: LayeredTurfs,
    book: LayeredBook,
    p: LayeredNode,
    n: LayeredNode,
    cost: u32,
    action: LayeredAction,
) -> bool {
    &&& leads_to(grid, turfs, p, (n, cost, action))
    &&& book.costs[n] == u32::MAX || book.costs[p] + cost <= book.costs[n]
}

/// Whether a node was reached from its recorded predecessor.
pub open spec fn reached(
    grid: LayeredGrid,
    turfs: LayeredTurfs,
    book: LayeredBook,
    n: LayeredNode,
) -> bool {
    let (p, action) = book.previous[n];
    &&& n != grid.start
    &&& book.costs.contains_key(n)
    &&& book.costs.contains_key(p)
    &&& book.costs[p] < book.costs[n] || (book.costs[p] == book.costs[n] && book.stamps[p]
        < book.stamps[n])
    &&& exists|c: u32| #[trigger] explained(grid, turfs, book, p, n, c, action)
}

/// Whether queued entries are told apart by their sequence numbers.
pub open spec fn distinct(book: LayeredBook) -> bool {
    &&& forall|e: LayeredQueueEntry| #[trigger]
        book.frontier.contains(e) ==> e.sequence <= book.sequence
    &&& forall|a: LayeredQueueEntry, b: LayeredQueueEntry| #[trigger]
        book.frontier.contains(a) && #[trigger] book.frontier.contains(b) && a.sequence
            == b.sequence ==> a == b
}

/// What a node needs to have been written down.
pub open spec fn measured(
    grid: LayeredGrid,
    heuristic: PortalHeuristic,
    n: LayeredNode,
) -> bool {
    &&& heuristic.measures(n)
    &&& grid.max_range > 0 ==> comparable(n.coord(), grid.start.coord())
}

/// What a search is about: its target and the estimate it uses.
pub struct Aim {
    /// Search target node.
    pub goal: LayeredNode,
    /// Acceptable distance from the target.
    pub radius: int,
    /// The estimate of what is left.
    pub heuristic: PortalHeuristic,
}

/// What holds of the book at every moment of a search that has started.
pub open spec fn sound(
    grid: LayeredGrid,
    turfs: LayeredTurfs,
    aim: Aim,
    book: LayeredBook,
    current: Option<LayeredQueueEntry>,
) -> bool {
    &&& grid.occupiable(turfs, grid.start) matches Ok(Some(_))
    &&& book.costs.contains_key(grid.start)
    &&& book.costs[grid.start] == 0
    &&& forall|e: LayeredQueueEntry| #[trigger]
        book.frontier.contains(e) ==> entry_ok(book, aim.heuristic, e)
    &&& distinct(book)
    &&& current matches Some(e) ==> {
        &&& entry_ok(book, aim.heuristic, e)
        &&& e.cost == book.costs[e.node]
        &&& !near(aim.goal, aim.radius, e.node)
    }
    &&& forall|n: LayeredNode| #[trigger]
        book.costs.contains_key(n) ==> {
            &&& queued(book, n) || in_hand(book, current, n) || done(
                aim.goal,
                aim.radius,
                grid.max_cost,
                book,
                n,
            )
            &&& n == grid.start || book.previous.contains_key(n)
            &&& measured(grid, aim.heuristic, n)
            &&& book.stamps.contains_key(n)
            &&& book.stamps[n] <= book.sequence
            &&& grid.max_cost > 0 ==> book.costs[n] <= grid.max_cost
        }
    &&& forall|n: LayeredNode| #[trigger]
        book.previous.contains_key(n) ==> reached(grid, turfs, book, n)
    &&& forall|n: LayeredNode| #[trigger]
        book.lists.contains_key(n) ==> listed(grid, turfs, n, book.lists[n])
}

/// Whether a book is blank.
pub open spec fn blank(book: LayeredBook) -> bool {
    &&& book.costs == Map::<LayeredNode, u32>::empty()
    &&& book.previous == Map::<LayeredNode, (LayeredNode, LayeredAction)>::empty()
    &&& book.frontier == Multiset::<LayeredQueueEntry>::empty()
    &&& book.lists == Map::<LayeredNode, Seq<Successor>>::empty()
}

/// Offering one successor keeps the book sound and accounts for the successor.
#[verifier::spinoff_prover]
proof fn lemma_offer_one(
    grid: LayeredGrid,
    turfs: LayeredTurfs,
    aim: Aim,
    book: LayeredBook,
    e: LayeredQueueEntry,
    item: Successor,
)
    requires
        sound(grid, turfs, aim, book, Some(e)),
        leads_to(grid, turfs, e.node, item),
        better(book, grid.max_cost, e, item) ==> measured(grid, aim.heuristic, item.0),
        book.sequence < u64::MAX,
    ensures
        ({
            let after = offered(book, aim.heuristic, grid.max_cost, e, seq![item], 1);
            &&& sound(grid, turfs, aim, after, Some(e))
            &&& accounted(after, grid.max_cost, e.node, item)
            &&& forall|n: LayeredNode| #[trigger]
                book.costs.contains_key(n) ==> after.costs.contains_key(n) && after.costs[n]
                    <= book.costs[n]
            &&& after.lists == book.lists
            &&& book.sequence <= after.sequence <= book.sequence + 1
        }),
{
    reveal_with_fuel(offered, 2);
    let after = offered(book, aim.heuristic, grid.max_cost, e, seq![item], 1);
    assert(seq![item][0] == item);
    let (to, cost, action) = item;
    let next = saturated(e.cost + cost);
    if better(book, grid.max_cost, e, item) {
        let entry = LayeredQueueEntry {
            node: to,
            cost: next,
            estimate: saturated(next + aim.heuristic.estimate_of(to)),
            sequence: (book.sequence + 1) as u64,
        };
        assert(after.frontier == book.frontier.insert(entry));
        assert(after.costs == book.costs.insert(to, next));
        assert(after.previous == book.previous.insert(to, (e.node, action)));
        assert(after.stamps == book.stamps.insert(to, book.sequence + 1));
        assert(after.frontier.contains(entry));
        assert(queued(after, to));
        assert(to != e.node);
        assert(to != grid.start);
        assert forall|x: LayeredQueueEntry| #[trigger] after.frontier.contains(x) implies x == entry
            || book.frontier.contains(x) by {}
        assert(distinct(after));
        assert forall|x: LayeredQueueEntry| #[trigger] after.frontier.contains(x) implies entry_ok(
            after,
            aim.heuristic,
            x,
        ) by {
            if x != entry {
                assert(book.frontier.contains(x));
            }
        }
        assert forall|n: LayeredNode| #[trigger] after.costs.contains_key(n) implies {
            &&& queued(after, n) || in_hand(after, Some(e), n) || done(
                aim.goal,
                aim.radius,
                grid.max_cost,
                after,
                n,
            )
            &&& n == grid.start || after.previous.contains_key(n)
            &&& measured(grid, aim.heuristic, n)
            &&& after.stamps.contains_key(n)
            &&& after.stamps[n] <= after.sequence
            &&& grid.max_cost > 0 ==> after.costs[n] <= grid.max_cost
        } by {
            if n != to {
                assert(book.costs.contains_key(n));
                if queued(book, n) {
                    let x = choose|x: LayeredQueueEntry| #[trigger]
                        book.frontier.contains(x) && x.node == n && x.cost == book.costs[n];
                    assert(after.frontier.contains(x));
                } else if done(aim.goal, aim.radius, grid.max_cost, book, n) {
                    assert forall|i: int| 0 <= i < after.lists[n].len() implies accounted(
                        after,
                        grid.max_cost,
                        n,
                        #[trigger] after.lists[n][i],
                    ) by {
                        assert(accounted(book, grid.max_cost, n, book.lists[n][i]));
                    }
                    assert(done(aim.goal, aim.radius, grid.max_cost, after, n));
                }
            }
        }
        assert forall|n: LayeredNode| #[trigger] after.previous.contains_key(n) implies reached(
            grid,
            turfs,
            after,
            n,
        ) by {
            if n == to {
                assert(explained(grid, turfs, after, e.node, to, cost, action));
            } else {
                assert(book.previous.contains_key(n));
                assert(reached(grid, turfs, book, n));
                let (p, taken) = book.previous[n];
                let c = choose|c: u32| #[trigger] explained(grid, turfs, book, p, n, c, taken);
                assert(explained(grid, turfs, after, p, n, c, taken));
            }
        }
        assert(sound(grid, turfs, aim, after, Some(e)));
    }
}

/// Offering successors never makes a node unknown or dearer.
proof fn lemma_offers_only_lower(
    book: LayeredBook,
    heuristic: PortalHeuristic,
    max_cost: u32,
    e: LayeredQueueEntry,
    out: Seq<Successor>,
    count: nat,
)
    ensures
        ({
            let after = offered(book, heuristic, max_cost, e, out, count);
            forall|n: LayeredNode| #[trigger]
                book.costs.contains_key(n) ==> after.costs.contains_key(n) && after.costs[n]
                    <= book.costs[n]
        }),
    decreases count,
{
    if count > 0 {
        lemma_offers_only_lower(book, heuristic, max_cost, e, out, (count - 1) as nat);
    }
}

/// Offering successors one after the other keeps the book sound.
proof fn lemma_offered(
    grid: LayeredGrid,
    turfs: LayeredTurfs,
    aim: Aim,
    book: LayeredBook,
    e: LayeredQueueEntry,
    out: Seq<Successor>,
    count: nat,
)
    requires
        sound(grid, turfs, aim, book, Some(e)),
        count <= out.len(),
        book.sequence + count <= u64::MAX,
        forall|i: int|
            0 <= i < out.len() ==> {
                &&& leads_to(grid, turfs, e.node, #[trigger] out[i])
                &&& better(book, grid.max_cost, e, out[i]) ==> measured(
                    grid,
                    aim.heuristic,
                    out[i].0,
                )
            },
    ensures
        ({
            let after = offered(book, aim.heuristic, grid.max_cost, e, out, count);
            &&& sound(grid, turfs, aim, after, Some(e))
            &&& forall|i: int|
                0 <= i < count ==> accounted(after, grid.max_cost, e.node, #[trigger] out[i])
            &&& after.lists == book.lists
            &&& book.sequence <= after.sequence <= book.sequence + count
        }),
    decreases count,
{
    if count > 0 {
        lemma_offered(grid, turfs, aim, book, e, out, (count - 1) as nat);
        lemma_offers_only_lower(book, aim.heuristic, grid.max_cost, e, out, (count - 1) as nat);
        let before = offered(book, aim.heuristic, grid.max_cost, e, out, (count - 1) as nat);
        let after = offered(book, aim.heuristic, grid.max_cost, e, out, count);
        let item = out[count - 1];
        lemma_offer_one(grid, turfs, aim, before, e, item);
        reveal_with_fuel(offered, 2);
        assert(seq![item][0] == item);
        assert(offered(before, aim.heuristic, grid.max_cost, e, seq![item], 1) == after);
        assert forall|i: int| 0 <= i < count implies accounted(
            after,
            grid.max_cost,
            e.node,
            #[trigger] out[i],
        ) by {
            if i < count - 1 {
                assert(accounted(before, grid.max_cost, e.node, out[i]));
                assert(before.costs.contains_key(e.node));
                assert(after.costs[e.node] == e.cost);
            }
        }
    }
}

/// Once all successors have been offered and listed the search is through with the entry.
proof fn lemma_close(
    grid: LayeredGrid,
    turfs: LayeredTurfs,
    aim: Aim,
    book: LayeredBook,
    e: LayeredQueueEntry,
    out: Seq<Successor>,
)
    requires
        sound(grid, turfs, aim, book, Some(e)),
        listed(grid, turfs, e.node, out),
        forall|i: int|
            0 <= i < out.len() ==> accounted(book, grid.max_cost, e.node, #[trigger] out[i]),
    ensures
        sound(grid, turfs, aim, LayeredBook { lists: book.lists.insert(e.node, out), ..book }, None),
{
    let after = LayeredBook { lists: book.lists.insert(e.node, out), ..book };
    assert forall|i: int| 0 <= i < after.lists[e.node].len() implies accounted(
        after,
        grid.max_cost,
        e.node,
        #[trigger] after.lists[e.node][i],
    ) by {
        assert(accounted(book, grid.max_cost, e.node, out[i]));
    }
    assert(done(aim.goal, aim.radius, grid.max_cost, after, e.node));
    assert forall|n: LayeredNode| #[trigger] after.costs.contains_key(n) implies queued(after, n)
        || in_hand(after, None, n) || done(aim.goal, aim.radius, grid.max_cost, after, n) by {
        assert(book.costs.contains_key(n));
        if n != e.node {
            if queued(book, n) {
                let x = choose|x: LayeredQueueEntry| #[trigger]
                    book.frontier.contains(x) && x.node == n && x.cost == book.costs[n];
                assert(after.frontier.contains(x));
            } else {
                assert(done(aim.goal, aim.radius, grid.max_cost, book, n));
                assert forall|i: int| 0 <= i < after.lists[n].len() implies accounted(
                    after,
                    grid.max_cost,
                    n,
                    #[trigger] after.lists[n][i],
                ) by {
                    assert(accounted(book, grid.max_cost, n, book.lists[n][i]));
                }
            }
        }
    }
    assert forall|n: LayeredNode| #[trigger] after.previous.contains_key(n) implies reached(
        grid,
        turfs,
        after,
        n,
    ) by {
        assert(reached(grid, turfs, book, n));
        let (p, taken) = book.previous[n];
        let c = choose|c: u32| #[trigger] explained(grid, turfs, book, p, n, c, taken);
        assert(explained(grid, turfs, after, p, n, c, taken));
    }
    assert forall|x: LayeredQueueEntry| #[trigger] after.frontier.contains(x) implies entry_ok(
        after,
        aim.heuristic,
        x,
    ) by {
        assert(book.frontier.contains(x));
    }
    assert(distinct(after));
}

/// Taking an entry out of the frontier keeps the book sound, if the entry is stale or stays in
/// hand.
proof fn lemma_take(
    grid: LayeredGrid,
    turfs: LayeredTurfs,
    aim: Aim,
    book: LayeredBook,
    e: LayeredQueueEntry,
)
    requires
        sound(grid, turfs, aim, book, None),
        book.frontier.contains(e),
    ensures
        ({
            let after = LayeredBook { frontier: book.frontier.remove(e), ..book };
            &&& book.costs[e.node] != e.cost ==> sound(grid, turfs, aim, after, None)
            &&& book.costs[e.node] == e.cost && !near(aim.goal, aim.radius, e.node) ==> sound(
                grid,
                turfs,
                aim,
                after,
                Some(e),
            )
        }),
{
    let after = LayeredBook { frontier: book.frontier.remove(e), ..book };
    let current = if book.costs[e.node] == e.cost {
        Some(e)
    } else {
        None
    };
    assert forall|x: LayeredQueueEntry| #[trigger]
        after.frontier.contains(x) implies book.frontier.contains(x) by {}
    assert forall|x: LayeredQueueEntry| #[trigger] after.frontier.contains(x) implies entry_ok(
        after,
        aim.heuristic,
        x,
    ) by {
        assert(book.frontier.contains(x));
    }
    assert(distinct(after));
    assert forall|n: LayeredNode| #[trigger] after.costs.contains_key(n) implies queued(after, n)
        || in_hand(after, current, n) || done(aim.goal, aim.radius, grid.max_cost, after, n) by {
        assert(book.costs.contains_key(n));
        if queued(book, n) {
            let x = choose|x: LayeredQueueEntry| #[trigger]
                book.frontier.contains(x) && x.node == n && x.cost == book.costs[n];
            if x != e {
                assert(after.frontier.contains(x));
            }
        } else {
            assert(done(aim.goal, aim.radius, grid.max_cost, book, n));
            assert forall|i: int| 0 <= i < after.lists[n].len() implies accounted(
                after,
                grid.max_cost,
                n,
                #[trigger] after.lists[n][i],
            ) by {
                assert(accounted(book, grid.max_cost, n, book.lists[n][i]));
            }
        }
    }
    assert forall|n: LayeredNode| #[trigger] after.previous.contains_key(n) implies reached(
        grid,
        turfs,
        after,
        n,
    ) by {
        assert(reached(grid, turfs, book, n));
        let (p, taken) = book.previous[n];
        let c = choose|c: u32| #[trigger] explained(grid, turfs, book, p, n, c, taken);
        assert(explained(grid, turfs, after, p, n, c, taken));
    }
}

/// Looking up another turf keeps what can be listed.
proof fn lemma_learn_listed(
    a: LayeredGrid,
    b: LayeredGrid,
    known: LayeredTurfs,
    world: LayeredTurfs,
    n: LayeredNode,
    out: Seq<Successor>,
)
    requires
        a.same_rules(b),
        known.submap_of(world),
        listed(a, known, n, out),
    ensures
        listed(b, world, n, out),
{
    let replies = choose|replies: Seq<bool>| #[trigger]
        a.successors_of(known, replies, n) == Ok::<Seq<Successor>, Request>(out);
    law_more_turfs_keep_layered_successors(a, known, world, replies, n);
    lemma_equivalent_layered_successors(a, b, world, replies, n);
    assert(b.successors_of(world, replies, n) == Ok::<Seq<Successor>, Request>(out));
}

/// Looking up another turf keeps the book sound.
proof fn lemma_learn(
    a: LayeredGrid,
    b: LayeredGrid,
    known: LayeredTurfs,
    world: LayeredTurfs,
    aim: Aim,
    book: LayeredBook,
    current: Option<LayeredQueueEntry>,
)
    requires
        a.same_rules(b),
        sound(a, known, aim, book, current),
        known.submap_of(world),
    ensures
        sound(b, world, aim, book, current),
{
    assert(known.contains_key(a.start) ==> world.contains_key(a.start) && world[a.start]
        == known[a.start]);
    assert forall|n: LayeredNode| #[trigger] book.previous.contains_key(n) implies reached(
        b,
        world,
        book,
        n,
    ) by {
        assert(reached(a, known, book, n));
        let (p, taken) = book.previous[n];
        let c = choose|c: u32| #[trigger] explained(a, known, book, p, n, c, taken);
        let out = choose|out: Seq<Successor>| #[trigger]
            listed(a, known, p, out) && out.contains((n, c, taken));
        lemma_learn_listed(a, b, known, world, p, out);
        assert(leads_to(b, world, p, (n, c, taken)));
        assert(explained(b, world, book, p, n, c, taken));
    }
    assert forall|n: LayeredNode| #[trigger] book.lists.contains_key(n) implies listed(
        b,
        world,
        n,
        book.lists[n],
    ) by {
        lemma_learn_listed(a, b, known, world, n, book.lists[n]);
    }
    assert forall|n: LayeredNode| #[trigger] book.costs.contains_key(n) implies {
        &&& queued(book, n) || in_hand(book, current, n) || done(
            aim.goal,
            aim.radius,
            b.max_cost,
            book,
            n,
        )
        &&& measured(b, aim.heuristic, n)
    } by {
        assert(measured(a, aim.heuristic, n));
    }
}

impl MultiSearchJob {
    /// What the search is about.
    pub open spec fn aim(self) -> Aim {
        Aim { goal: self.goal, radius: self.radius(), heuristic: self.heuristic }
    }

    /// Whether the search state hangs together: the heuristic belongs to the target, nothing is
    /// written down before the start has been looked at or where it cannot be occupied, and the
    /// book is sound otherwise.
    pub open spec fn wf(self) -> bool {
        &&& self.frontier.wf()
        &&& self.heuristic.goal == self.goal
        &&& self.heuristic.min_target_distance == self.min_target_distance
        &&& self.heuristic.is_flying == self.grid.is_flying
        &&& if !self.initialized {
            blank(self.book()) && self.current is None
        } else {
            ||| sound(self.grid, self.grid.cache@, self.aim(), self.book(), self.current)
            ||| {
                &&& blank(self.book())
                &&& self.current is None
                &&& self.start_is_blocked()
            }
        }
    }

    /// Whether it is known that the start cannot be occupied.
    pub open spec fn start_is_blocked(self) -> bool {
        self.grid.occupiable(self.grid.cache@, self.grid.start) == Ok::<Option<TurfInfo>, Request>(
            None,
        )
    }

    /// Whether the numbers that the next move computes stay within their machine range.
    pub open spec fn has_room(self) -> bool {
        match self.current {
            Some(e) => {
                &&& self.grid.room_at(self.grid.cache@, e.node)
                &&& self.grid.successors_of(
                    self.grid.cache@,
                    self.replies@,
                    e.node,
                ) matches Ok(out) ==> {
                    &&& self.sequence + out.len() <= u64::MAX
                    &&& forall|i: int|
                        0 <= i < out.len() ==> offer_fits(
                            self.book(),
                            self.heuristic,
                            self.grid.max_cost,
                            e,
                            #[trigger] out[i],
                        )
                }
            },
            None => !self.initialized && (self.grid.occupiable(
                self.grid.cache@,
                self.grid.start,
            ) matches Ok(Some(_))) ==> {
                &&& self.heuristic.measures(self.grid.start)
                &&& self.sequence < u64::MAX
            },
        }
    }

    /// Whether a node is close enough to the goal.
    pub open spec fn in_target(self, n: LayeredNode) -> bool {
        near(self.goal, self.radius(), n)
    }

    /// Whether the estimate never exceeds what a way to the target region costs.
    pub open spec fn lower_bound(self) -> bool {
        admissible(
            self.grid.moves(),
            self.heuristic.estimator(),
            |n: LayeredNode| self.in_target(n),
        )
    }

    /// Whether a graph agrees with what the search was told: it has no moves but those that could
    /// be, and from a node whose successors were listed, no others than the ones listed last.
    pub open spec fn agrees(self, edge: Edges<LayeredNode>) -> bool {
        &&& forall|a: LayeredNode, b: LayeredNode, c: nat| #[trigger]
            edge(a, b, c) ==> self.grid.may_move(a, b, c)
        &&& forall|a: LayeredNode, b: LayeredNode, c: nat| #[trigger]
            edge(a, b, c) && self.history@.lists.contains_key(a) ==> on_list(
                self.history@.lists[a],
                b,
                c,
            )
    }

    /// Whether a walk through a graph leads from the start to the target region within the cost
    /// limit.
    pub open spec fn is_route(
        self,
        edge: Edges<LayeredNode>,
        nodes: Seq<LayeredNode>,
        steps: Seq<nat>,
    ) -> bool {
        &&& is_walk(edge, nodes, steps)
        &&& nodes[0] == self.grid.start
        &&& self.in_target(nodes.last())
        &&& self.grid.max_cost > 0 ==> total(steps) <= self.grid.max_cost
    }

    /// Whether no route costs less, in any graph that agrees with what the search was told.
    pub open spec fn unbeaten(self, cost: int) -> bool {
        forall|edge: Edges<LayeredNode>, nodes: Seq<LayeredNode>, steps: Seq<nat>| #[trigger]
            self.is_route(edge, nodes, steps) && self.agrees(edge) ==> cost <= total(steps)
    }

    /// Whether there is no route: the start cannot be occupied, or no graph that agrees with what
    /// the search was told has one.
    pub open spec fn hopeless(self) -> bool {
        ||| self.start_is_blocked()
        ||| forall|edge: Edges<LayeredNode>, nodes: Seq<LayeredNode>, steps: Seq<nat>|
            self.agrees(edge) ==> !(#[trigger] self.is_route(edge, nodes, steps))
    }

    /// Whether a path with its actions retraces the search from a node, leads there from the
    /// start by moves that can be made, and costs `steps`.
    pub open spec fn found_path(
        self,
        end: LayeredNode,
        nodes: Seq<LayeredNode>,
        actions: Seq<LayeredAction>,
        steps: Seq<nat>,
    ) -> bool {
        &&& retraces(self.previous@, nodes, actions, end)
        &&& nodes[0] == self.grid.start
        &&& steps.len() == nodes.len() - 1
        &&& forall|i: int|
            0 <= i < steps.len() ==> #[trigger] steps[i] <= u32::MAX && leads_to(
                self.grid,
                self.grid.cache@,
                nodes[i],
                (nodes[i + 1], steps[i] as u32, actions[i + 1]),
            )
        &&& self.in_target(end)
        &&& self.grid.max_cost > 0 ==> saturated(total(steps) as int) <= self.grid.max_cost
    }

    /// Whether a cheapest path leads to a node. That it is a cheapest one rests on the estimate
    /// being a lower bound.
    pub open spec fn cheapest(self, end: LayeredNode) -> bool {
        exists|nodes: Seq<LayeredNode>, actions: Seq<LayeredAction>, steps: Seq<nat>|
            {
                &&& #[trigger] self.found_path(end, nodes, actions, steps)
                &&& self.lower_bound() ==> self.unbeaten(saturated(total(steps) as int) as int)
            }
    }

    /// Whether the recorded predecessors of a node come to an end, and the way back can be
    /// rechecked.
    pub open spec fn retraceable(self, end: LayeredNode) -> bool {
        exists|nodes: Seq<LayeredNode>, actions: Seq<LayeredAction>| #[trigger]
            retraces(self.previous@, nodes, actions, end) && self.comparable_path(nodes)
    }

    /// Whether every node of a path can be compared with the start, where that matters.
    pub open spec fn comparable_path(self, nodes: Seq<LayeredNode>) -> bool {
        self.grid.max_range > 0 ==> forall|i: int|
            0 <= i < nodes.len() ==> comparable(
                (#[trigger] nodes[i]).coord(),
                self.grid.start.coord(),
            )
    }
}

/// Whether a list of successors has a move to a node at a cost.
pub open spec fn on_list(list: Seq<Successor>, to: LayeredNode, cost: nat) -> bool {
    exists|i: int| 0 <= i < list.len() && (#[trigger] list[i]).0 == to && list[i].1 == cost
}

/// Best known costs as natural numbers.
spec fn plain_costs(book: LayeredBook) -> Map<LayeredNode, nat> {
    book.costs.map_values(|c: u32| c as nat)
}

/// The cost limit, if there is one.
spec fn cost_limit(max_cost: u32) -> Option<nat> {
    if max_cost > 0 {
        Some(max_cost as nat)
    } else {
        None
    }
}

/// In a sound book with nothing in hand, some queued node on any route promises no more than the
/// route costs.
proof fn lemma_route_is_promised(
    job: MultiSearchJob,
    book: LayeredBook,
    estimate: spec_fn(LayeredNode) -> nat,
    edge: Edges<LayeredNode>,
    nodes: Seq<LayeredNode>,
    steps: Seq<nat>,
) -> (x: LayeredQueueEntry)
    requires
        sound(job.grid, job.grid.cache@, job.aim(), book, None),
        book.lists == job.history@.lists,
        job.agrees(edge),
        job.is_route(edge, nodes, steps),
        admissible(edge, estimate, |n: LayeredNode| job.in_target(n)),
    ensures
        book.frontier.contains(x),
        x.cost == book.costs[x.node],
        x.cost + estimate(x.node) <= total(steps),
{
    let target = |n: LayeredNode| job.in_target(n);
    let costs = plain_costs(book);
    let open = |n: LayeredNode| queued(book, n);
    let limit = cost_limit(job.grid.max_cost);
    assert forall|n: LayeredNode| #[trigger] costs.contains_key(n) implies open(n) || (!target(n)
        && followed(edge, costs, limit, n)) by {
        assert(book.costs.contains_key(n));
        if !queued(book, n) {
            assert(done(job.goal, job.radius(), job.grid.max_cost, book, n));
            assert forall|m: LayeredNode, c: nat| #[trigger] edge(n, m, c) implies {
                ||| costs.contains_key(m) && costs[m] <= costs[n] + c
                ||| limit matches Some(l) && l < costs[n] + c
            } by {
                let list = book.lists[n];
                assert(on_list(list, m, c));
                let i = choose|i: int|
                    0 <= i < list.len() && (#[trigger] list[i]).0 == m && list[i].1 == c;
                assert(accounted(book, job.grid.max_cost, n, book.lists[n][i]));
            }
        }
    }
    assert(costs.contains_key(nodes[0]) && costs[nodes[0]] == 0);
    lemma_some_open_node_promises(edge, estimate, target, costs, limit, open, nodes, steps);
    let n = choose|n: LayeredNode| #[trigger]
        costs.contains_key(n) && open(n) && nodes.contains(n) && costs[n] + estimate(n) <= total(
            steps,
        );
    choose|x: LayeredQueueEntry| #[trigger]
        book.frontier.contains(x) && x.node == n && x.cost == book.costs[n]
}

/// A sound book with nothing queued and nothing in hand leaves no route.
proof fn lemma_exhausted(job: MultiSearchJob, book: LayeredBook)
    requires
        sound(job.grid, job.grid.cache@, job.aim(), book, None),
        book.lists == job.history@.lists,
        book.frontier == Multiset::<LayeredQueueEntry>::empty(),
    ensures
        job.hopeless(),
{
    assert forall|edge: Edges<LayeredNode>, nodes: Seq<LayeredNode>, steps: Seq<nat>|
        job.agrees(edge) implies !(#[trigger] job.is_route(edge, nodes, steps)) by {
        if job.is_route(edge, nodes, steps) {
            let nothing = |n: LayeredNode| 0nat;
            let target = |n: LayeredNode| job.in_target(n);
            assert(admissible(edge, nothing, target));
            let x = lemma_route_is_promised(job, book, nothing, edge, nodes, steps);
            assert(false);
        }
    }
}

/// Costs rise along a path by no less than its moves cost, as far as 32 bits can tell.
proof fn lemma_costs_rise(
    costs: Map<LayeredNode, u32>,
    nodes: Seq<LayeredNode>,
    steps: Seq<nat>,
)
    requires
        nodes.len() == steps.len() + 1,
        forall|i: int|
            0 <= i < steps.len() ==> costs[nodes[i + 1]] == u32::MAX || costs[nodes[i]]
                + #[trigger] steps[i] <= costs[nodes[i + 1]],
    ensures
        costs[nodes.last()] == u32::MAX || costs[nodes[0]] + total(steps) <= costs[nodes.last()],
    decreases steps.len(),
{
    if steps.len() > 0 {
        let most = nodes.drop_last();
        let head = steps.drop_last();
        assert forall|i: int| 0 <= i < head.len() implies costs[most[i + 1]] == u32::MAX
            || costs[most[i]] + #[trigger] head[i] <= costs[most[i + 1]] by {
            assert(head[i] == steps[i]);
        }
        lemma_costs_rise(costs, most, head);
        let last = steps.len() - 1;
        assert(costs[nodes[last + 1]] == u32::MAX || costs[nodes[last]] + steps[last]
            <= costs[nodes[last + 1]]);
        lemma_total_push(head, steps.last());
        assert(head.push(steps.last()) =~= steps);
    } else {
        assert(nodes.last() == nodes[0]);
    }
}

/// Predecessors come first.
proof fn lemma_descending(
    grid: LayeredGrid,
    turfs: LayeredTurfs,
    aim: Aim,
    book: LayeredBook,
    current: Option<LayeredQueueEntry>,
)
    requires
        sound(grid, turfs, aim, book, current),
    ensures
        descending(book.costs, book.stamps, book.previous),
{
    assert forall|n: LayeredNode| #[trigger] book.previous.contains_key(n) implies {
        let p = book.previous[n].0;
        &&& book.costs.contains_key(n)
        &&& book.costs.contains_key(p)
        &&& book.costs[p] < book.costs[n] || (book.costs[p] == book.costs[n] && book.stamps[p]
            < book.stamps[n])
    } by {
        assert(reached(grid, turfs, book, n));
    }
}

/// The recorded predecessors of a node can be followed back to where they end.
proof fn lemma_retrace(book: LayeredBook, end: LayeredNode) -> (path: (
    Seq<LayeredNode>,
    Seq<LayeredAction>,
))
    requires
        descending(book.costs, book.stamps, book.previous),
    ensures
        retraces(book.previous, path.0, path.1, end),
    decreases book.costs[end], book.stamps[end],
{
    if book.previous.contains_key(end) {
        let (p, action) = book.previous[end];
        let (nodes, actions) = lemma_retrace(book, p);
        (nodes.push(end), actions.push(action))
    } else {
        (seq![end], seq![LayeredAction::Plain])
    }
}

/// The first fresh entry inside the target region ends a cheapest path.
proof fn lemma_found(
    job: MultiSearchJob,
    book: LayeredBook,
    e: LayeredQueueEntry,
    nodes: Seq<LayeredNode>,
    actions: Seq<LayeredAction>,
)
    requires
        sound(job.grid, job.grid.cache@, job.aim(), book, None),
        book.lists == job.history@.lists,
        book.previous == job.previous@,
        book.frontier.contains(e),
        forall|x: LayeredQueueEntry| #[trigger]
            book.frontier.contains(x) ==> !rank_below(x.rank(), e.rank()),
        e.cost == book.costs[e.node],
        job.in_target(e.node),
        retraces(book.previous, nodes, actions, e.node),
    ensures
        job.cheapest(e.node),
{
    let grid = job.grid;
    let turfs = job.grid.cache@;
    let steps = Seq::new(
        (nodes.len() - 1) as nat,
        |i: int|
            (choose|c: u32| #[trigger]
                explained(grid, turfs, book, nodes[i], nodes[i + 1], c, actions[i + 1])) as nat,
    );
    assert forall|i: int| 0 <= i < steps.len() implies {
        &&& #[trigger] steps[i] <= u32::MAX
        &&& explained(
            grid,
            turfs,
            book,
            nodes[i],
            nodes[i + 1],
            steps[i] as u32,
            actions[i + 1],
        )
    } by {
        assert(book.previous.contains_key(nodes[i + 1]) && book.previous[nodes[i + 1]] == (
            nodes[i + 1 - 1],
            actions[i + 1],
        ));
        assert(reached(grid, turfs, book, nodes[i + 1]));
        let c = choose|c: u32| #[trigger]
            explained(grid, turfs, book, nodes[i], nodes[i + 1], c, actions[i + 1]);
        assert(steps[i] == c as nat);
    }
    assert forall|i: int| 0 <= i < nodes.len() implies book.costs.contains_key(
        #[trigger] nodes[i],
    ) by {
        if i < nodes.len() - 1 {
            assert(book.previous.contains_key(nodes[i + 1]) && book.previous[nodes[i + 1]] == (
                nodes[i + 1 - 1],
                actions[i + 1],
            ));
            assert(reached(grid, turfs, book, nodes[i + 1]));
        } else {
            assert(entry_ok(book, job.heuristic, e));
        }
    }
    assert(nodes[0] == grid.start) by {
        assert(book.costs.contains_key(nodes[0]));
    }
    assert forall|i: int| 0 <= i < steps.len() implies book.costs[nodes[i + 1]] == u32::MAX
        || book.costs[nodes[i]] + #[trigger] steps[i] <= book.costs[nodes[i + 1]] by {
        assert(explained(
            grid,
            turfs,
            book,
            nodes[i],
            nodes[i + 1],
            steps[i] as u32,
            actions[i + 1],
        ));
    }
    lemma_costs_rise(book.costs, nodes, steps);
    let cost = saturated(total(steps) as int);
    assert(cost <= e.cost);
    assert(book.costs.contains_key(e.node));
    assert forall|i: int| 0 <= i < steps.len() implies #[trigger] steps[i] <= u32::MAX && leads_to(
        grid,
        turfs,
        nodes[i],
        (nodes[i + 1], steps[i] as u32, actions[i + 1]),
    ) by {
        assert(explained(
            grid,
            turfs,
            book,
            nodes[i],
            nodes[i + 1],
            steps[i] as u32,
            actions[i + 1],
        ));
    }
    assert(job.found_path(e.node, nodes, actions, steps));
    if job.lower_bound() {
        let target = |n: LayeredNode| job.in_target(n);
        let estimate = job.heuristic.estimator();
        assert forall|edge: Edges<LayeredNode>, others: Seq<LayeredNode>, spent: Seq<nat>| #[trigger]
            job.is_route(edge, others, spent) && job.agrees(edge) implies cost <= total(spent) by {
            assert forall|a: LayeredNode, b: LayeredNode, c: nat| #[trigger]
                edge(a, b, c) implies (job.grid.moves())(a, b, c) by {}
            lemma_admissible_for_part(job.grid.moves(), edge, estimate, target);
            let x = lemma_route_is_promised(job, book, estimate, edge, others, spent);
            assert(entry_ok(book, job.heuristic, x));
            assert(entry_ok(book, job.heuristic, e));
            lemma_estimate_fits(job.heuristic, x.node);
            lemma_estimate_fits(job.heuristic, e.node);
            assert(e.estimate <= x.estimate);
        }
        assert(job.unbeaten(cost as int));
    }
}

impl MultiSearchJob {
    /// Whether another state of this job differs in nothing that a move changes.
    pub open spec fn untouched(self, after: MultiSearchJob) -> bool {
        &&& after.book() == self.book()
        &&& after.current == self.current
        &&& after.replies@ == self.replies@
        &&& after.initialized == self.initialized
        &&& after.grid.cache@ == self.grid.cache@
    }

    /// Whether another state of this job only adds the data of a turf, where none was known.
    pub open spec fn told(
        self,
        node: LayeredNode,
        info: Option<TurfInfo>,
        after: MultiSearchJob,
    ) -> bool {
        &&& after.same_settings(self)
        &&& after.book() == self.book()
        &&& after.current == self.current
        &&& after.replies@ == self.replies@
        &&& after.initialized == self.initialized
        &&& after.grid.cache@ == if self.grid.cache@.contains_key(node) {
            self.grid.cache@
        } else {
            self.grid.cache@.insert(node, info)
        }
    }

    /// Whether another state of this job only adds the answer to a question about a link.
    pub open spec fn answered(self, may_plan: bool, after: MultiSearchJob) -> bool {
        &&& after.same_settings(self)
        &&& after.book() == self.book()
        &&& after.current == self.current
        &&& after.replies@ == self.replies@.push(may_plan)
        &&& after.initialized == self.initialized
        &&& after.grid.cache@ == self.grid.cache@
    }

    /// A move that met something unknown: what is settled about a turf without locating it is
    /// kept, any other turf is asked for; a link is asked about.
    pub open spec fn learned(
        self,
        published: NavPassCache,
        missing: Request,
        after: MultiSearchJob,
        progress: MultiJobProgress,
    ) -> bool {
        match missing {
            Request::Link(id) => progress == MultiJobProgress::NeedsLink(id) && self.untouched(
                after,
            ),
            Request::Turf(node) => match self.grid.settled(published, node) {
                Some(info) => {
                    &&& progress == MultiJobProgress::Working
                    &&& after.book() == self.book()
                    &&& after.current == self.current
                    &&& after.replies@ == self.replies@
                    &&& after.initialized == self.initialized
                    &&& after.grid.cache@ == self.grid.cache@.insert(node, info)
                },
                None => progress == MultiJobProgress::NeedsTurf(node) && self.untouched(after),
            },
        }
    }

    /// The first move: the start is queued at no cost, unless it cannot be occupied.
    pub open spec fn opened(
        self,
        published: NavPassCache,
        after: MultiSearchJob,
        progress: MultiJobProgress,
    ) -> bool {
        match self.grid.occupiable(self.grid.cache@, self.grid.start) {
            Err(missing) => self.learned(published, missing, after, progress),
            Ok(None) => {
                &&& progress == MultiJobProgress::NoPath
                &&& after.book() == self.book()
                &&& after.current is None
                &&& after.replies@ == self.replies@
                &&& after.initialized
                &&& after.grid.cache@ == self.grid.cache@
            },
            Ok(Some(_)) => {
                &&& progress == MultiJobProgress::Working
                &&& after.book() == pushed(self.book(), self.heuristic, self.grid.start, 0)
                &&& after.current is None
                &&& after.replies@ == self.replies@
                &&& after.initialized
                &&& after.grid.cache@ == self.grid.cache@
            },
        }
    }

    /// Whether an entry is the one to take out of the frontier.
    pub open spec fn is_next(self, e: LayeredQueueEntry) -> bool {
        &&& self.frontier@.contains(e)
        &&& forall|x: LayeredQueueEntry| #[trigger]
            self.frontier@.contains(x) ==> !rank_below(x.rank(), e.rank())
    }

    /// A move that takes out the entry with the lowest rank: a stale one is dropped, one inside
    /// the target region ends the search, any other is kept in hand.
    pub open spec fn took(
        self,
        e: LayeredQueueEntry,
        after: MultiSearchJob,
        progress: MultiJobProgress,
    ) -> bool {
        &&& after.book() == (LayeredBook { frontier: self.frontier@.remove(e), ..self.book() })
        &&& after.initialized
        &&& after.grid.cache@ == self.grid.cache@
        &&& if self.costs@[e.node] != e.cost {
            &&& progress == MultiJobProgress::Working
            &&& after.current is None
            &&& after.replies@ == self.replies@
        } else if self.in_target(e.node) {
            &&& progress == MultiJobProgress::Found(e.node)
            &&& after.current is None
            &&& after.replies@ == self.replies@
        } else {
            &&& progress == MultiJobProgress::Working
            &&& after.current == Some(e)
            &&& after.replies@.len() == 0
        }
    }

    /// A move that offers the successors of the entry in hand.
    pub open spec fn expanded(
        self,
        published: NavPassCache,
        e: LayeredQueueEntry,
        after: MultiSearchJob,
        progress: MultiJobProgress,
    ) -> bool {
        match self.grid.successors_of(self.grid.cache@, self.replies@, e.node) {
            Err(missing) => self.learned(published, missing, after, progress),
            Ok(out) => {
                let all = offered(
                    self.book(),
                    self.heuristic,
                    self.grid.max_cost,
                    e,
                    out,
                    out.len(),
                );
                &&& progress == MultiJobProgress::Working
                &&& after.book() == (LayeredBook { lists: all.lists.insert(e.node, out), ..all })
                &&& after.current is None
                &&& after.replies@ == self.replies@
                &&& after.initialized
                &&& after.grid.cache@ == self.grid.cache@
            },
        }
    }

    /// What one move does.
    pub open spec fn moved(
        self,
        published: NavPassCache,
        elapsed: u128,
        after: MultiSearchJob,
        progress: MultiJobProgress,
    ) -> bool {
        if !self.initialized {
            self.opened(published, after, progress)
        } else {
            match self.current {
                Some(e) => self.expanded(published, e, after, progress),
                None => if elapsed >= SLICE_BUDGET {
                    progress == MultiJobProgress::InProgress && self.untouched(after)
                } else if self.frontier@ == Multiset::<LayeredQueueEntry>::empty() {
                    progress == MultiJobProgress::NoPath && self.untouched(after)
                } else {
                    exists|e: LayeredQueueEntry| #[trigger]
                        self.is_next(e) && self.took(e, after, progress)
                },
            }
        }
    }

    /// Begins a slice: takes note of the time, and tells whether the topology has changed since
    /// the search began.
    pub fn begin_slice(&mut self, topology: &Topology, now: u128) -> (progress: MultiJobProgress)
        ensures
            final(self).same_settings(*old(self)),
            old(self).untouched(*final(self)),
            old(self).frontier == final(self).frontier,
            old(self).wf() ==> final(self).wf(),
            final(self).last_touched == now,
            progress == if topology.generation != old(self).grid.topology.generation {
                MultiJobProgress::Stale
            } else {
                MultiJobProgress::Working
            },
    {
        self.last_touched = now;
        if topology_generation(topology) != self.grid.topology.generation {
            MultiJobProgress::Stale
        } else {
            MultiJobProgress::Working
        }
    }

    /// Takes the data of a turf that was asked for.
    pub fn supply(&mut self, node: LayeredNode, info: Option<TurfInfo>)
        ensures
            old(self).wf() ==> final(self).wf(),
            forall|end: LayeredNode| #[trigger]
                old(self).retraceable(end) ==> final(self).retraceable(end),
            old(self).told(node, info, *final(self)),
            final(self).last_touched == old(self).last_touched,
    {
        self.grid.remember(node, info);
        proof {
            if old(self).wf() {
                lemma_learning_keeps_wf(*old(self), *self);
            }
            lemma_stays_retraceable(*old(self), *self);
        }
    }

    /// Takes the answer to a question about a link.
    pub fn answer(&mut self, may_plan: bool)
        ensures
            old(self).wf() ==> final(self).wf(),
            forall|end: LayeredNode| #[trigger]
                old(self).retraceable(end) ==> final(self).retraceable(end),
            old(self).answered(may_plan, *final(self)),
            final(self).last_touched == old(self).last_touched,
    {
        self.replies.push(may_plan);
        proof {
            lemma_stays_retraceable(*old(self), *self);
        }
    }

    /// Meets something unknown.
    fn meet(&mut self, published: &NavPassCache, missing: Request) -> (progress: MultiJobProgress)
        requires
            old(self).wf(),
            missing matches Request::Turf(node) ==> !old(self).grid.cache@.contains_key(node),
        ensures
            final(self).wf(),
            final(self).same_settings(*old(self)),
            final(self).last_touched == old(self).last_touched,
            old(self).grid.cache@.submap_of(final(self).grid.cache@),
            old(self).learned(*published, missing, *final(self), progress),
            progress !is Found && progress !is NoPath,
    {
        match missing {
            Request::Link(id) => MultiJobProgress::NeedsLink(id),
            Request::Turf(node) => match self.grid.cached_info(published, node) {
                Some(info) => {
                    self.supply(node, info);
                    MultiJobProgress::Working
                },
                None => MultiJobProgress::NeedsTurf(node),
            },
        }
    }

    /// Makes the first move.
    fn open(&mut self, published: &NavPassCache) -> (progress: MultiJobProgress)
        requires
            old(self).wf(),
            old(self).has_room(),
            !old(self).initialized,
        ensures
            final(self).wf(),
            final(self).same_settings(*old(self)),
            final(self).last_touched == old(self).last_touched,
            old(self).grid.cache@.submap_of(final(self).grid.cache@),
            old(self).opened(*published, *final(self), progress),
            progress is NoPath ==> final(self).hopeless(),
            progress !is Found,
    {
        match self.grid.can_occupy(self.grid.start) {
            Err(missing) => self.meet(published, missing),
            Ok(false) => {
                self.initialized = true;
                MultiJobProgress::NoPath
            },
            Ok(true) => {
                self.initialized = true;
                let start = self.grid.start;
                self.push(start, 0);
                proof {
                    lemma_opened(*self, old(self).book());
                }
                MultiJobProgress::Working
            },
        }
    }

    /// Takes the next entry out of the frontier.
    fn take(&mut self) -> (progress: MultiJobProgress)
        requires
            old(self).wf(),
            old(self).initialized,
            old(self).current is None,
        ensures
            progress !is Found ==> final(self).wf(),
            final(self).same_settings(*old(self)),
            final(self).last_touched == old(self).last_touched,
            old(self).grid.cache@.submap_of(final(self).grid.cache@),
            if old(self).frontier@ == Multiset::<LayeredQueueEntry>::empty() {
                progress is NoPath && old(self).untouched(*final(self))
            } else {
                exists|e: LayeredQueueEntry| #[trigger]
                    old(self).is_next(e) && old(self).took(e, *final(self), progress)
            },
            progress is NoPath ==> final(self).hopeless(),
            progress matches MultiJobProgress::Found(end) ==> {
                &&& final(self).cheapest(end)
                &&& final(self).costs@.contains_key(end)
                &&& final(self).retraceable(end)
            },
    {
        let ghost before = *self;
        let entry = match self.frontier.pop() {
            None => {
                proof {
                    if !before.start_is_blocked() {
                        lemma_exhausted(*self, before.book());
                    }
                }
                return MultiJobProgress::NoPath;
            },
            Some(entry) => entry,
        };
        proof {
            assert(before.is_next(entry));
            assert(sound(self.grid, self.grid.cache@, self.aim(), before.book(), None));
            assert(entry_ok(before.book(), self.heuristic, entry));
            assert(before.book().costs.contains_key(entry.node));
            lemma_take(self.grid, self.grid.cache@, self.aim(), before.book(), entry);
        }
        let fresh: bool = match self.costs.get(entry.node) {
            Some(best) => *best == entry.cost,
            None => false,
        };
        if !fresh {
            // A cheaper route was queued after this entry.
            assert(before.took(entry, *self, MultiJobProgress::Working));
            return MultiJobProgress::Working;
        }
        let goal = self.goal;
        assert(measured(self.grid, self.heuristic, entry.node));
        if entry.node.group == goal.group && entry.node.layer == goal.layer && chebyshev_distance(
            (entry.node.x, entry.node.y),
            (goal.x, goal.y),
        ) <= self.min_target_distance {
            proof {
                lemma_descending(self.grid, self.grid.cache@, self.aim(), before.book(), None);
                let (nodes, actions) = lemma_retrace(before.book(), entry.node);
                lemma_retraced_nodes_are_known(before.book(), nodes, actions, entry.node);
                assert forall|i: int|
                    0 <= i < nodes.len() && self.grid.max_range > 0 implies comparable(
                    (#[trigger] nodes[i]).coord(),
                    self.grid.start.coord(),
                ) by {
                    assert(before.book().costs.contains_key(nodes[i]));
                    assert(measured(self.grid, self.heuristic, nodes[i]));
                }
                assert(self.comparable_path(nodes));
                assert(self.retraceable(entry.node));
                lemma_found(*self, before.book(), entry, nodes, actions);
                assert(before.took(entry, *self, MultiJobProgress::Found(entry.node)));
            }
            return MultiJobProgress::Found(entry.node);
        }
        self.current = Some(entry);
        self.replies = Vec::new();
        assert(before.took(entry, *self, MultiJobProgress::Working));
        MultiJobProgress::Working
    }

    /// Offers the successors of the entry in hand.
    fn expand(&mut self, published: &NavPassCache, entry: LayeredQueueEntry) -> (progress:
        MultiJobProgress)
        requires
            old(self).wf(),
            old(self).has_room(),
            old(self).initialized,
            old(self).current == Some(entry),
        ensures
            final(self).wf(),
            final(self).same_settings(*old(self)),
            final(self).last_touched == old(self).last_touched,
            old(self).grid.cache@.submap_of(final(self).grid.cache@),
            old(self).expanded(*published, entry, *final(self), progress),
            progress !is Found && progress !is NoPath,
    {
        let out = match self.grid.successors(entry.node, &self.replies) {
            Err(missing) => {
                proof {
                    lemma_layered_successors_bounds(
                        self.grid,
                        self.grid.cache@,
                        self.replies@,
                        entry.node,
                    );
                }
                return self.meet(published, missing);
            },
            Ok(out) => out,
        };
        let ghost before = self.book();
        let ghost turfs = self.grid.cache@;
        let ghost aim = self.aim();
        proof {
            lemma_offers_fit(*self, entry, out@);
        }
        let mut at: usize = 0;
        while at < out.len()
            invariant
                at <= out@.len(),
                self.frontier.wf(),
                self.same_settings(*old(self)),
                self.last_touched == old(self).last_touched,
                self.grid == old(self).grid,
                self.initialized,
                self.current == Some(entry),
                self.replies == old(self).replies,
                self.aim() == aim,
                before.sequence + out@.len() <= u64::MAX,
                before.sequence == old(self).sequence,
                self.sequence <= before.sequence + at,
                self.book() == offered(
                    before,
                    aim.heuristic,
                    self.grid.max_cost,
                    entry,
                    out@,
                    at as nat,
                ),
                forall|i: int|
                    0 <= i < out@.len() ==> offer_fits(
                        before,
                        aim.heuristic,
                        self.grid.max_cost,
                        entry,
                        #[trigger] out@[i],
                    ),
            decreases out@.len() - at,
        {
            let (next, movement_cost, action) = out[at];
            assert(out@[at as int] == (next, movement_cost, action));
            proof {
                let limit = self.grid.max_cost;
                lemma_offers_only_lower(before, aim.heuristic, limit, entry, out@, at as nat);
                assert(offer_fits(before, aim.heuristic, limit, entry, out@[at as int]));
                assert(better(self.book(), limit, entry, out@[at as int]) ==> better(
                    before,
                    limit,
                    entry,
                    out@[at as int],
                ));
            }
            let next_cost: u32 = entry.cost.saturating_add(movement_cost);
            let too_far: bool = self.grid.max_cost > 0 && next_cost > self.grid.max_cost;
            let cheaper: bool = match self.costs.get(next) {
                Some(known) => next_cost < *known,
                None => true,
            };
            if !too_far && cheaper {
                self.previous.insert(next, (entry.node, action));
                self.push(next, next_cost);
            }
            at = at + 1;
        }
        self.current = None;
        proof {
            let all = self.book();
            lemma_offered(self.grid, turfs, aim, before, entry, out@, out@.len());
            self.history@ = History {
                lists: self.history@.lists.insert(entry.node, out@),
                ..self.history@
            };
            lemma_close(self.grid, turfs, aim, all, entry, out@);
            assert(self.book() == LayeredBook { lists: all.lists.insert(entry.node, out@), ..all });
        }
        MultiJobProgress::Working
    }

    /// Makes one move of the search.
    ///
    /// `elapsed` is the time spent in this slice, in nanoseconds. It is looked at only between
    /// two entries of the frontier. What was known of a turf stays as it was.
    pub fn step(&mut self, published: &NavPassCache, elapsed: u128) -> (progress: MultiJobProgress)
        requires
            old(self).wf(),
            old(self).has_room(),
        ensures
            progress !is Found ==> final(self).wf(),
            final(self).same_settings(*old(self)),
            final(self).last_touched == old(self).last_touched,
            old(self).grid.cache@.submap_of(final(self).grid.cache@),
            old(self).moved(*published, elapsed, *final(self), progress),
            progress is NoPath ==> final(self).hopeless(),
            progress matches MultiJobProgress::Found(end) ==> {
                &&& final(self).cheapest(end)
                &&& final(self).costs@.contains_key(end)
                &&& final(self).retraceable(end)
            },
    {
        if !self.initialized {
            return self.open(published);
        }
        match self.current {
            Some(entry) => self.expand(published, entry),
            None => if elapsed >= SLICE_BUDGET {
                MultiJobProgress::InProgress
            } else {
                self.take()
            },
        }
    }
}

/// Between slices nothing changes: a move that yields leaves the search as it was, and a move only
/// yields where the slice is used up.
pub proof fn law_yielding_changes_nothing(
    before: MultiSearchJob,
    published: NavPassCache,
    elapsed: u128,
    after: MultiSearchJob,
    progress: MultiJobProgress,
)
    requires
        before.moved(published, elapsed, after, progress),
        progress is InProgress,
    ensures
        before.untouched(after),
        elapsed >= SLICE_BUDGET,
{
}

/// A search says that there is no path only where no route is left.
pub proof fn law_no_path_leaves_no_route(
    before: MultiSearchJob,
    published: NavPassCache,
    elapsed: u128,
    after: MultiSearchJob,
    progress: MultiJobProgress,
)
    requires
        before.wf(),
        before.moved(published, elapsed, after, progress),
        progress is NoPath,
    ensures
        before.hopeless(),
{
    if before.initialized && !before.start_is_blocked() {
        lemma_exhausted(before, before.book());
    }
}

/// A path that a search finds is a cheapest one, as far as the estimate is a lower bound.
pub proof fn law_found_path_is_cheapest(
    before: MultiSearchJob,
    published: NavPassCache,
    elapsed: u128,
    after: MultiSearchJob,
    end: LayeredNode,
)
    requires
        before.wf(),
        before.moved(published, elapsed, after, MultiJobProgress::Found(end)),
    ensures
        before.cheapest(end),
{
    let e = choose|e: LayeredQueueEntry| #[trigger]
        before.is_next(e) && before.took(e, after, MultiJobProgress::Found(end));
    lemma_descending(before.grid, before.grid.cache@, before.aim(), before.book(), None);
    let (nodes, actions) = lemma_retrace(before.book(), end);
    lemma_found(before, before.book(), e, nodes, actions);
}

/// Heuristics that say the same lead to the same book.
proof fn lemma_same_offers(
    a: PortalHeuristic,
    b: PortalHeuristic,
    book: LayeredBook,
    max_cost: u32,
    from: LayeredQueueEntry,
    out: Seq<Successor>,
    count: nat,
)
    requires
        a.same(b),
    ensures
        offered(book, a, max_cost, from, out, count) == offered(
            book,
            b,
            max_cost,
            from,
            out,
            count,
        ),
    decreases count,
{
    if count > 0 {
        lemma_same_offers(a, b, book, max_cost, from, out, (count - 1) as nat);
        lemma_same_estimate(a, b, out[count - 1].0, a.source_distances@.len());
    }
}

/// Settings that are the same say the same.
pub proof fn law_same_settings_are_alike(a: MultiSearchJob, b: MultiSearchJob)
    requires
        b.same_settings(a),
    ensures
        a.alike(b),
{
}

/// Two searches that agree in their settings and in all that a move changes make the same move,
/// as long as neither yields: when the slice began and how long it has lasted has no influence.
pub proof fn law_same_search_makes_the_same_move(
    a: MultiSearchJob,
    b: MultiSearchJob,
    published: NavPassCache,
    a_elapsed: u128,
    b_elapsed: u128,
    a_after: MultiSearchJob,
    b_after: MultiSearchJob,
    a_progress: MultiJobProgress,
    b_progress: MultiJobProgress,
)
    requires
        a.wf(),
        a.untouched(b),
        a.alike(b),
        a.moved(published, a_elapsed, a_after, a_progress),
        b.moved(published, b_elapsed, b_after, b_progress),
        a_elapsed < SLICE_BUDGET || a_progress !is InProgress,
        b_elapsed < SLICE_BUDGET || b_progress !is InProgress,
    ensures
        a_progress == b_progress,
        a_after.untouched(b_after),
{
    let known = a.grid.cache@;
    let replies = a.replies@;
    assert(b.costs@ == b.book().costs && b.frontier@ == b.book().frontier);
    if !a.initialized {
        lemma_equivalent_layered_successors(a.grid, b.grid, known, replies, a.grid.start);
        lemma_same_estimate(
            a.heuristic,
            b.heuristic,
            a.grid.start,
            a.heuristic.source_distances@.len(),
        );
    } else if let Some(e) = a.current {
        lemma_equivalent_layered_successors(a.grid, b.grid, known, replies, e.node);
        if let Ok(out) = a.grid.successors_of(known, replies, e.node) {
            lemma_same_offers(
                a.heuristic,
                b.heuristic,
                a.book(),
                a.grid.max_cost,
                e,
                out,
                out.len(),
            );
        }
    } else if a.frontier@ != Multiset::<LayeredQueueEntry>::empty() {
        let x = choose|e: LayeredQueueEntry| #[trigger]
            a.is_next(e) && a.took(e, a_after, a_progress);
        let y = choose|e: LayeredQueueEntry| #[trigger]
            b.is_next(e) && b.took(e, b_after, b_progress);
        assert(a.frontier@.contains(x) && a.frontier@.contains(y));
        assert(!rank_below(x.rank(), y.rank()) && !rank_below(y.rank(), x.rank()));
        assert(x == y);
        assert(a_after.replies@ =~= b_after.replies@);
    }
}

/// Whether a node is retraceable rests on its predecessors and on the start.
proof fn lemma_stays_retraceable(before: MultiSearchJob, after: MultiSearchJob)
    requires
        after.previous@ == before.previous@,
        after.same_settings(before),
    ensures
        forall|end: LayeredNode| #[trigger] before.retraceable(end) ==> after.retraceable(end),
{
    assert forall|end: LayeredNode| #[trigger] before.retraceable(end) implies after.retraceable(
        end,
    ) by {
        let (nodes, actions) = choose|nodes: Seq<LayeredNode>, actions: Seq<LayeredAction>| #[trigger]
            retraces(before.previous@, nodes, actions, end) && before.comparable_path(nodes);
        assert(retraces(after.previous@, nodes, actions, end) && after.comparable_path(nodes));
    }
}

/// What a search knows stays sound when it learns of another turf.
proof fn lemma_learning_keeps_wf(before: MultiSearchJob, after: MultiSearchJob)
    requires
        before.wf(),
        after.frontier == before.frontier,
        after.book() == before.book(),
        after.current == before.current,
        after.initialized == before.initialized,
        after.same_settings(before),
        before.grid.cache@.submap_of(after.grid.cache@),
    ensures
        after.wf(),
{
    let known = before.grid.cache@;
    let world = after.grid.cache@;
    let start = before.grid.start;
    if before.initialized {
        if sound(before.grid, known, before.aim(), before.book(), before.current) {
            lemma_learn(
                before.grid,
                after.grid,
                known,
                world,
                before.aim(),
                before.book(),
                before.current,
            );
            assert(after.aim() == before.aim());
        } else {
            assert(before.start_is_blocked());
            assert(known.submap_of(world));
            if known.contains_key(start) {
                assert(known.dom().contains(start));
                assert(world.contains_key(start) && world[start] == known[start]);
            }
            assert(after.start_is_blocked());
        }
    }
}

/// The book is sound once the start has been queued.
proof fn lemma_opened(job: MultiSearchJob, before: LayeredBook)
    requires
        blank(before),
        before.sequence < u64::MAX,
        job.book() == pushed(before, job.heuristic, job.grid.start, 0),
        job.current is None,
        job.grid.occupiable(job.grid.cache@, job.grid.start) matches Ok(Some(_)),
        job.heuristic.measures(job.grid.start),
    ensures
        sound(job.grid, job.grid.cache@, job.aim(), job.book(), job.current),
{
    let book = job.book();
    let start = job.grid.start;
    lemma_estimate_fits(job.heuristic, start);
    let entry = LayeredQueueEntry {
        node: start,
        cost: 0,
        estimate: saturated(job.heuristic.estimate_of(start)),
        sequence: (before.sequence + 1) as u64,
    };
    assert(book.frontier.contains(entry));
    assert(queued(book, start));
    assert forall|x: LayeredQueueEntry| #[trigger] book.frontier.contains(x) implies x == entry by {}
}

/// The successors of an entry with room can be offered without leaving the machine range.
proof fn lemma_offers_fit(job: MultiSearchJob, e: LayeredQueueEntry, out: Seq<Successor>)
    requires
        job.wf(),
        job.has_room(),
        job.current == Some(e),
        job.grid.successors_of(job.grid.cache@, job.replies@, e.node) == Ok::<
            Seq<Successor>,
            Request,
        >(out),
    ensures
        job.sequence + out.len() <= u64::MAX,
        listed(job.grid, job.grid.cache@, e.node, out),
        forall|i: int|
            0 <= i < out.len() ==> {
                &&& leads_to(job.grid, job.grid.cache@, e.node, #[trigger] out[i])
                &&& offer_fits(job.book(), job.heuristic, job.grid.max_cost, e, out[i])
                &&& better(job.book(), job.grid.max_cost, e, out[i]) ==> measured(
                    job.grid,
                    job.heuristic,
                    out[i].0,
                )
            },
{
    let grid = job.grid;
    let turfs = grid.cache@;
    assert(listed(grid, turfs, e.node, out));
    assert forall|i: int| 0 <= i < out.len() implies {
        &&& leads_to(grid, turfs, e.node, #[trigger] out[i])
        &&& offer_fits(job.book(), job.heuristic, grid.max_cost, e, out[i])
        &&& better(job.book(), grid.max_cost, e, out[i]) ==> measured(
            grid,
            job.heuristic,
            out[i].0,
        )
    } by {
        assert(out.contains(out[i]));
        assert(offer_fits(job.book(), job.heuristic, grid.max_cost, e, out[i]));
        if grid.max_range > 0 {
            lemma_layered_successors_fit(grid, turfs, job.replies@, e.node, i);
        }
    }
}

impl MultiSearchJob {
    /// Tests whether the numbers that the next move computes stay within their machine range.
    pub fn room_left(&self) -> (ok: bool)
        ensures
            ok == self.has_room(),
    {
        match self.current {
            Some(e) => self.grid.has_room_at(e.node) && match self.grid.successors(
                e.node,
                &self.replies,
            ) {
                Ok(out) => self.can_offer(e, &out),
                Err(_) => true,
            },
            None => self.initialized || match self.grid.can_occupy(self.grid.start) {
                Ok(true) => self.heuristic.can_measure(self.grid.start) && self.sequence
                    < u64::MAX,
                _ => true,
            },
        }
    }

    /// Tests whether the numbers computed for the successors of an entry stay within their machine
    /// range.
    fn can_offer(&self, e: LayeredQueueEntry, out: &Vec<Successor>) -> (ok: bool)
        ensures
            ok == {
                &&& self.sequence + out@.len() <= u64::MAX
                &&& forall|i: int|
                    0 <= i < out@.len() ==> offer_fits(
                        self.book(),
                        self.heuristic,
                        self.grid.max_cost,
                        e,
                        #[trigger] out@[i],
                    )
            },
    {
        if out.len() as u64 > u64::MAX - self.sequence {
            return false;
        }
        let mut at: usize = 0;
        while at < out.len()
            invariant
                at <= out@.len(),
                self.sequence + out@.len() <= u64::MAX,
                forall|i: int|
                    0 <= i < at ==> offer_fits(
                        self.book(),
                        self.heuristic,
                        self.grid.max_cost,
                        e,
                        #[trigger] out@[i],
                    ),
            decreases out@.len() - at,
        {
            let (next, movement_cost, _) = out[at];
            let next_cost: u32 = e.cost.saturating_add(movement_cost);
            let too_far: bool = self.grid.max_cost > 0 && next_cost > self.grid.max_cost;
            let cheaper: bool = match self.costs.get(next) {
                Some(known) => next_cost < *known,
                None => true,
            };
            assert(better(self.book(), self.grid.max_cost, e, out@[at as int]) == (!too_far
                && cheaper));
            if !too_far && cheaper && !self.heuristic.can_measure(next) {
                assert(!offer_fits(
                    self.book(),
                    self.heuristic,
                    self.grid.max_cost,
                    e,
                    out@[at as int],
                ));
                return false;
            }
            at = at + 1;
        }
        true
    }
}

/// Whether a move of a path is a diagonal step.
pub open spec fn turning(from: LayeredNode, to: LayeredNode, action: LayeredAction) -> bool {
    &&& from.group == to.group && from.layer == to.layer
    &&& from.x != to.x && from.y != to.y
    &&& action == LayeredAction::Plain
}

/// The first `steps` moves of a path with their diagonals handled, or nothing if one of them is
/// impossible. `routes[i]` belongs to the move from `nodes[i]` to `nodes[i + 1]`.
pub open spec fn layered_expansion(
    nodes: Seq<LayeredNode>,
    actions: Seq<LayeredAction>,
    handling: DiagonalHandling,
    routes: Seq<DiagonalRoutes>,
    steps: nat,
) -> Option<(Seq<LayeredNode>, Seq<LayeredAction>)>
    decreases steps,
{
    if steps == 0 {
        Some((seq![nodes[0]], seq![LayeredAction::Plain]))
    } else {
        let from = nodes[steps - 1];
        let to = nodes[steps as int];
        let action = actions[steps as int];
        match layered_expansion(nodes, actions, handling, routes, (steps - 1) as nat) {
            None => None,
            Some((path, taken)) => {
                let corner = if !turning(from, to, action) {
                    Some(None)
                } else {
                    match verdict(handling, routes[steps - 1]) {
                        DiagonalVerdict::Keep => Some(None),
                        DiagonalVerdict::NorthSouthCorner => Some(
                            Some(beside(from, from.x, to.y)),
                        ),
                        DiagonalVerdict::EastWestCorner => Some(Some(beside(from, to.x, from.y))),
                        DiagonalVerdict::Impossible => None,
                    }
                };
                match corner {
                    None => None,
                    Some(None) => Some((path.push(to), taken.push(action))),
                    Some(Some(corner)) => Some(
                        (
                            path.push(corner).push(to),
                            taken.push(LayeredAction::Plain).push(action),
                        ),
                    ),
                }
            },
        }
    }
}

/// Whether the given routes are those that the grid finds around the diagonals of a path.
pub open spec fn layered_rechecked(
    grid: LayeredGrid,
    nodes: Seq<LayeredNode>,
    actions: Seq<LayeredAction>,
    routes: Seq<DiagonalRoutes>,
) -> bool {
    forall|i: int|
        0 <= i < routes.len() && turning(nodes[i], nodes[i + 1], actions[i + 1]) ==> grid.routes(
            grid.cache@,
            nodes[i],
            nodes[i + 1],
        ) == Ok::<DiagonalRoutes, Request>(#[trigger] routes[i])
}

/// Only the routes of the moves made matter.
proof fn lemma_expansion_ignores_later_routes(
    nodes: Seq<LayeredNode>,
    actions: Seq<LayeredAction>,
    handling: DiagonalHandling,
    a: Seq<DiagonalRoutes>,
    b: Seq<DiagonalRoutes>,
    steps: nat,
)
    requires
        forall|i: int| 0 <= i < steps ==> a[i] == b[i],
    ensures
        layered_expansion(nodes, actions, handling, a, steps) == layered_expansion(
            nodes,
            actions,
            handling,
            b,
            steps,
        ),
    decreases steps,
{
    if steps > 0 {
        lemma_expansion_ignores_later_routes(nodes, actions, handling, a, b, (steps - 1) as nat);
    }
}

/// A path through the world with the action that leads to each of its turfs.
pub struct LayeredPath {
    /// The turfs, the starting one included.
    pub turfs: Vec<TurfCoords>,
    /// The action that leads to each turf.
    pub actions: Vec<LayeredAction>,
}

impl MultiSearchJob {
    /// Whether a path is rechecked as far as the given routes go, with nothing impossible found.
    pub open spec fn handled(
        self,
        nodes: Seq<LayeredNode>,
        actions: Seq<LayeredAction>,
        routes: Seq<DiagonalRoutes>,
        expansion: Option<(Seq<LayeredNode>, Seq<LayeredAction>)>,
    ) -> bool {
        &&& routes.len() < nodes.len()
        &&& layered_rechecked(self.grid, nodes, actions, routes)
        &&& layered_expansion(nodes, actions, self.diagonal_handling, routes, routes.len())
            == expansion
    }

    /// Whether all of a path is rechecked and comes out as given.
    pub open spec fn comes_out(
        self,
        nodes: Seq<LayeredNode>,
        actions: Seq<LayeredAction>,
        path: Seq<LayeredNode>,
        taken: Seq<LayeredAction>,
    ) -> bool {
        exists|routes: Seq<DiagonalRoutes>| #[trigger]
            self.handled(nodes, actions, routes, Some((path, taken))) && routes.len() + 1
                == nodes.len()
    }

    /// Whether a diagonal of a path has to be replaced and cannot be.
    pub open spec fn is_stuck(self, nodes: Seq<LayeredNode>, actions: Seq<LayeredAction>) -> bool {
        exists|routes: Seq<DiagonalRoutes>| #[trigger]
            self.handled(nodes, actions, routes, None)
    }

    /// Whether the recheck of a path meets something unknown.
    pub open spec fn asks_for(
        self,
        nodes: Seq<LayeredNode>,
        actions: Seq<LayeredAction>,
        missing: Request,
    ) -> bool {
        exists|routes: Seq<DiagonalRoutes>, path: (Seq<LayeredNode>, Seq<LayeredAction>)|
            {
                let k = routes.len() as int;
                &&& #[trigger] self.handled(nodes, actions, routes, Some(path))
                &&& k < nodes.len() - 1
                &&& turning(nodes[k], nodes[k + 1], actions[k + 1])
                &&& self.grid.routes(self.grid.cache@, nodes[k], nodes[k + 1]) == Err::<
                    DiagonalRoutes,
                    Request,
                >(missing)
            }
    }

    /// Rechecks the diagonals of a path and replaces them where that is requested.
    fn expand_path(&self, nodes: &Vec<LayeredNode>, actions: &Vec<LayeredAction>) -> (path: Result<
        Option<(Vec<LayeredNode>, Vec<LayeredAction>)>,
        Request,
    >)
        requires
            nodes@.len() > 0,
            actions@.len() == nodes@.len(),
            self.grid.max_range > 0 ==> forall|i: int|
                0 <= i < nodes@.len() ==> comparable(
                    (#[trigger] nodes@[i]).coord(),
                    self.grid.start.coord(),
                ),
        ensures
            match path {
                Ok(Some((path, taken))) => self.comes_out(nodes@, actions@, path@, taken@),
                Ok(None) => self.is_stuck(nodes@, actions@),
                Err(missing) => self.asks_for(nodes@, actions@, missing),
            },
    {
        let handling = self.diagonal_handling;
        let mut path: Vec<LayeredNode> = Vec::new();
        let mut taken: Vec<LayeredAction> = Vec::new();
        path.push(nodes[0]);
        taken.push(LayeredAction::Plain);
        let ghost mut routes = Seq::<DiagonalRoutes>::empty();
        assert(path@ =~= seq![nodes@[0]]);
        assert(taken@ =~= seq![LayeredAction::Plain]);
        let mut at: usize = 1;
        while at < nodes.len()
            invariant
                1 <= at <= nodes@.len(),
                actions@.len() == nodes@.len(),
                handling == self.diagonal_handling,
                routes.len() == at - 1,
                self.handled(nodes@, actions@, routes, Some((path@, taken@))),
                self.grid.max_range > 0 ==> forall|i: int|
                    0 <= i < nodes@.len() ==> comparable(
                        (#[trigger] nodes@[i]).coord(),
                        self.grid.start.coord(),
                    ),
            decreases nodes@.len() - at,
        {
            let from = nodes[at - 1];
            let to = nodes[at];
            let action = actions[at];
            let ghost before = routes;
            if from.group == to.group && from.layer == to.layer && from.x != to.x && from.y != to.y
                && matches!(action, LayeredAction::Plain) {
                let found = match self.grid.diagonal_routes(from, to) {
                    Ok(found) => found,
                    Err(missing) => {
                        assert(self.handled(nodes@, actions@, routes, Some((path@, taken@))));
                        return Err(missing);
                    },
                };
                proof {
                    routes = routes.push(found);
                    lemma_expansion_ignores_later_routes(
                        nodes@,
                        actions@,
                        handling,
                        before,
                        routes,
                        before.len(),
                    );
                }
                match diagonal_verdict(handling, found) {
                    DiagonalVerdict::Keep => {},
                    DiagonalVerdict::NorthSouthCorner => {
                        path.push(LayeredNode { x: from.x, y: to.y, ..from });
                        taken.push(LayeredAction::Plain);
                    },
                    DiagonalVerdict::EastWestCorner => {
                        path.push(LayeredNode { x: to.x, y: from.y, ..from });
                        taken.push(LayeredAction::Plain);
                    },
                    DiagonalVerdict::Impossible => {
                        assert(self.handled(nodes@, actions@, routes, None));
                        return Ok(None);
                    },
                }
            } else {
                proof {
                    routes = routes.push(no_routes());
                    lemma_expansion_ignores_later_routes(
                        nodes@,
                        actions@,
                        handling,
                        before,
                        routes,
                        before.len(),
                    );
                }
            }
            path.push(to);
            taken.push(action);
            at = at + 1;
        }
        Ok(Some((path, taken)))
    }

    /// Whether a node's world position is the given one.
    pub open spec fn placed(self, node: LayeredNode, turf: TurfCoords) -> bool {
        self.grid.topology.z_of(node) == Some(turf.2) && turf.0 == node.x && turf.1 == node.y
    }

    /// Whether a path comes out with the given turfs and actions.
    pub open spec fn hands_out(
        self,
        nodes: Seq<LayeredNode>,
        actions: Seq<LayeredAction>,
        turfs: Seq<TurfCoords>,
        taken: Seq<LayeredAction>,
    ) -> bool {
        exists|whole: Seq<LayeredNode>|
            {
                &&& #[trigger] self.comes_out(nodes, actions, whole, taken)
                &&& turfs.len() == whole.len()
                &&& forall|i: int| 0 <= i < whole.len() ==> self.placed(whole[i], #[trigger] turfs[i])
            }
    }

    /// Whether a path comes out with a node that has no z-level.
    pub open spec fn leaves_the_map(
        self,
        nodes: Seq<LayeredNode>,
        actions: Seq<LayeredAction>,
    ) -> bool {
        exists|whole: Seq<LayeredNode>, taken: Seq<LayeredAction>| #[trigger]
            self.comes_out(nodes, actions, whole, taken) && exists|i: int|
                0 <= i < whole.len() && self.grid.topology.z_of(#[trigger] whole[i]) is None
    }

    /// What the recheck of the path to a node comes to.
    pub open spec fn rechecks_to(
        self,
        goal: LayeredNode,
        path: Result<Option<(Seq<TurfCoords>, Seq<LayeredAction>)>, Request>,
    ) -> bool {
        exists|nodes: Seq<LayeredNode>, actions: Seq<LayeredAction>|
            {
                &&& #[trigger] retraces(self.previous@, nodes, actions, goal)
                &&& self.recheck_is(nodes, actions, path)
            }
    }

    /// What the recheck of a path comes to.
    pub open spec fn recheck_is(
        self,
        nodes: Seq<LayeredNode>,
        actions: Seq<LayeredAction>,
        path: Result<Option<(Seq<TurfCoords>, Seq<LayeredAction>)>, Request>,
    ) -> bool {
        match path {
            Ok(Some((turfs, taken))) => self.hands_out(nodes, actions, turfs, taken),
            Ok(None) => self.is_stuck(nodes, actions) || self.leaves_the_map(nodes, actions),
            Err(missing) => self.asks_for(nodes, actions, missing),
        }
    }

    /// Rechecks a path to a node and converts it to turfs and actions in the requested shape.
    ///
    /// There is no path where a diagonal has to be replaced and cannot be, nor where a layer has
    /// no z-level; something that is not known yet is asked for. The starting turf is part of the
    /// path here.
    pub fn final_path(&self, goal: LayeredNode) -> (path: Result<Option<LayeredPath>, Request>)
        requires
            self.retraceable(goal),
        ensures
            self.rechecks_to(
                goal,
                match path {
                    Ok(Some(found)) => Ok(Some((found.turfs@, found.actions@))),
                    Ok(None) => Ok(None),
                    Err(missing) => Err(missing),
                },
            ),
    {
        let (nodes, actions) = self.reconstruct(goal);
        proof {
            let (way, moves) = choose|nodes: Seq<LayeredNode>, actions: Seq<LayeredAction>| #[trigger]
                retraces(self.previous@, nodes, actions, goal) && self.comparable_path(nodes);
            lemma_one_way_back(self.previous@, (way, moves), (nodes@, actions@), goal);
        }
        let (whole, taken) = match self.expand_path(&nodes, &actions) {
            Err(missing) => {
                assert(self.recheck_is(nodes@, actions@, Err(missing)));
                return Err(missing);
            },
            Ok(None) => {
                assert(self.recheck_is(nodes@, actions@, Ok(None)));
                return Ok(None);
            },
            Ok(Some(expansion)) => expansion,
        };
        let mut turfs: Vec<TurfCoords> = Vec::new();
        let mut at: usize = 0;
        while at < whole.len()
            invariant
                at <= whole@.len(),
                turfs@.len() == at,
                retraces(self.previous@, nodes@, actions@, goal),
                self.comes_out(nodes@, actions@, whole@, taken@),
                forall|i: int| 0 <= i < at ==> self.placed(whole@[i], #[trigger] turfs@[i]),
            decreases whole@.len() - at,
        {
            let node = whole[at];
            match self.grid.z_for(node) {
                Some(z) => turfs.push((node.x, node.y, z)),
                None => {
                    assert(self.grid.topology.z_of(whole@[at as int]) is None);
                    assert(self.leaves_the_map(nodes@, actions@));
                    assert(self.recheck_is(nodes@, actions@, Ok(None)));
                    return Ok(None);
                },
            }
            at = at + 1;
        }
        let found = LayeredPath { turfs, actions: taken };
        assert(self.comes_out(nodes@, actions@, whole@, found.actions@));
        assert(found.turfs@.len() == whole@.len());
        assert(forall|i: int|
            0 <= i < whole@.len() ==> self.placed(whole@[i], #[trigger] found.turfs@[i]));
        assert(self.hands_out(nodes@, actions@, found.turfs@, found.actions@));
        assert(self.recheck_is(nodes@, actions@, Ok(Some((found.turfs@, found.actions@)))));
        Ok(Some(found))
    }
}

/// There is one way back along the recorded predecessors.
pub proof fn lemma_one_way_back(
    previous: Map<LayeredNode, (LayeredNode, LayeredAction)>,
    a: (Seq<LayeredNode>, Seq<LayeredAction>),
    b: (Seq<LayeredNode>, Seq<LayeredAction>),
    end: LayeredNode,
)
    requires
        retraces(previous, a.0, a.1, end),
        retraces(previous, b.0, b.1, end),
    ensures
        a == b,
    decreases a.0.len(),
{
    let m = a.0.len() - 1;
    let n = b.0.len() - 1;
    assert(a.0[m] == end && b.0[n] == end);
    if m > 0 && n > 0 {
        let (before, action) = previous[end];
        assert(previous[a.0[m]] == (a.0[m - 1], a.1[m]));
        assert(previous[b.0[n]] == (b.0[n - 1], b.1[n]));
        let x = (a.0.drop_last(), a.1.drop_last());
        let y = (b.0.drop_last(), b.1.drop_last());
        assert(retraces(previous, x.0, x.1, before));
        assert(retraces(previous, y.0, y.1, before));
        lemma_one_way_back(previous, x, y, before);
        assert(a.0 =~= x.0.push(end) && a.1 =~= x.1.push(action));
        assert(b.0 =~= y.0.push(end) && b.1 =~= y.1.push(action));
    } else {
        assert(m == 0 && n == 0);
        assert(a.0 =~= b.0);
        assert(a.1 =~= b.1);
    }
}

/// Every node of a retraced path was visited.
proof fn lemma_retraced_nodes_are_known(
    book: LayeredBook,
    nodes: Seq<LayeredNode>,
    actions: Seq<LayeredAction>,
    end: LayeredNode,
)
    requires
        descending(book.costs, book.stamps, book.previous),
        book.costs.contains_key(end),
        retraces(book.previous, nodes, actions, end),
    ensures
        forall|i: int| 0 <= i < nodes.len() ==> book.costs.contains_key(#[trigger] nodes[i]),
{
    assert forall|i: int| 0 <= i < nodes.len() implies book.costs.contains_key(
        #[trigger] nodes[i],
    ) by {
        if i < nodes.len() - 1 {
            assert(book.previous.contains_key(nodes[i + 1]) && book.previous[nodes[i + 1]] == (
                nodes[i + 1 - 1],
                actions[i + 1],
            ));
        }
    }
}

/// The graph that the given turfs span, if the questions about links are always answered alike.
pub open spec fn steady_edges(
    grid: LayeredGrid,
    world: LayeredTurfs,
    may_plan: spec_fn(u64) -> bool,
) -> Edges<LayeredNode> {
    |from: LayeredNode, to: LayeredNode, cost: nat|
        grid.steady_successors(world, may_plan, from) matches Ok(out) && on_list(out, to, cost)
}

/// Whatever the turfs not yet looked up are like: if the questions about links are always answered
/// alike, and were so during the search, the graph agrees with what the search was told. No route
/// in it costs less than the path found, and it has none where the search found none.
pub proof fn law_steady_world_agrees(
    job: MultiSearchJob,
    world: LayeredTurfs,
    may_plan: spec_fn(u64) -> bool,
)
    requires
        forall|n: LayeredNode| #[trigger]
            job.history@.lists.contains_key(n) ==> job.grid.steady_successors(world, may_plan, n)
                == Ok::<Seq<Successor>, Request>(job.history@.lists[n]),
    ensures
        job.agrees(steady_edges(job.grid, world, may_plan)),
{
    let grid = job.grid;
    let edge = steady_edges(grid, world, may_plan);
    assert forall|a: LayeredNode, b: LayeredNode, c: nat| #[trigger] edge(a, b, c) implies {
        &&& grid.may_move(a, b, c)
        &&& job.history@.lists.contains_key(a) ==> on_list(job.history@.lists[a], b, c)
    } by {
        let out = grid.steady_successors(world, may_plan, a)->Ok_0;
        let i = choose|i: int| 0 <= i < out.len() && (#[trigger] out[i]).0 == b && out[i].1 == c;
        let links = grid.links_at(a);
        let replies = grid.steady_replies(world, may_plan, links, links.len());
        law_successors_are_moves(grid, world, replies, a, i);
        assert(grid.is_move(a, out[i]));
    }
}

/// The estimate of a search whose heuristic was made for the same topology, target and links is a
/// lower bound, so that what the search finds is a cheapest path.
pub proof fn law_portal_estimate_is_a_lower_bound(
    job: MultiSearchJob,
    topology: Topology,
    links: Seq<NavLink>,
)
    requires
        job.grid.topology.same(topology),
        job.heuristic.made_for(
            portal_model(
                topology,
                job.goal,
                job.min_target_distance,
                job.grid.is_flying,
                links,
            ),
        ),
        indexes(job.grid.links_by_source@, links, links.len()),
        topology.consistent(),
    ensures
        job.lower_bound(),
{
    let model = portal_model(
        topology,
        job.goal,
        job.min_target_distance,
        job.grid.is_flying,
        links,
    );
    let grid = job.grid;
    let estimate = job.heuristic.estimator();
    let modelled = |node: LayeredNode| model.in_target(node);
    let target = |n: LayeredNode| job.in_target(n);
    law_estimate_is_admissible(model, job.heuristic);
    assert forall|a: LayeredNode, b: LayeredNode, c: nat| #[trigger] (grid.moves())(
        a,
        b,
        c,
    ) implies (model.moves())(a, b, c) by {
        assert(grid.may_move(a, b, c));
        let item = choose|item: Successor| #[trigger]
            grid.is_move(a, item) && item.0 == b && item.1 == c;
        if is_link_among(grid, grid.links_at(a), item) {
            let leaving = grid.links_at(a);
            let j = choose|j: int|
                0 <= j < leaving.len() && is_link_of(grid, #[trigger] leaving[j], item);
            let z = grid.topology.z_of(a).unwrap();
            let source = (a.x, a.y, z);
            assert(indexed_at(grid.links_by_source@, source) == links_leaving(
                links,
                source,
                links.len(),
            ));
            assert(leaving == links_leaving(links, source, links.len()));
            lemma_leaving_links(links, source, links.len(), j);
            let i = choose|i: int| 0 <= i < links.len() && #[trigger] links[i] == leaving[j];
            assert(model.links[i].cost == c);
            assert(model.link_move(a, b, c));
        }
        assert(model.may_move(a, b, c));
    }
    lemma_admissible_for_part(model.moves(), grid.moves(), estimate, modelled);
    assert forall|nodes: Seq<LayeredNode>, steps: Seq<nat>| #[trigger]
        is_walk(grid.moves(), nodes, steps) && target(nodes.last()) implies estimate(nodes[0])
        <= total(steps) by {
        assert(modelled(nodes.last()));
    }
}

/// Whatever the mode, an expanded path starts and ends where the path does and has an action for
/// each of its nodes.
pub proof fn law_layered_expansion_keeps_the_ends(
    nodes: Seq<LayeredNode>,
    actions: Seq<LayeredAction>,
    handling: DiagonalHandling,
    routes: Seq<DiagonalRoutes>,
    steps: nat,
)
    requires
        steps < nodes.len(),
    ensures
        layered_expansion(nodes, actions, handling, routes, steps) matches Some((path, taken))
            ==> path.len() > steps && path.len() == taken.len() && path[0] == nodes[0]
            && path.last() == nodes[steps as int] && taken[0] == LayeredAction::Plain,
    decreases steps,
{
    if steps > 0 {
        law_layered_expansion_keeps_the_ends(
            nodes,
            actions,
            handling,
            routes,
            (steps - 1) as nat,
        );
    }
}

/// Whether the move from a node of a path to the next is a plain diagonal step and neither route
/// around it is open.
pub open spec fn has_no_route(
    nodes: Seq<LayeredNode>,
    actions: Seq<LayeredAction>,
    routes: Seq<DiagonalRoutes>,
    i: int,
) -> bool {
    let from = nodes[i];
    let to = nodes[i + 1];
    &&& from.group == to.group && from.layer == to.layer
    &&& from.x != to.x && from.y != to.y
    &&& actions[i + 1] == LayeredAction::Plain
    &&& !routes[i].north_south_first && !routes[i].east_west_first
}

/// A path is given up exactly where every diagonal has to be replaced and one of them has no route.
pub proof fn law_only_a_layered_diagonal_without_a_route_is_impossible(
    nodes: Seq<LayeredNode>,
    actions: Seq<LayeredAction>,
    handling: DiagonalHandling,
    routes: Seq<DiagonalRoutes>,
    steps: nat,
)
    ensures
        layered_expansion(nodes, actions, handling, routes, steps) is None <==> {
            &&& handling == DiagonalHandling::RemoveAll
            &&& exists|i: int| 0 <= i < steps && #[trigger] has_no_route(nodes, actions, routes, i)
        },
    decreases steps,
{
    if steps > 0 {
        let last = steps - 1;
        law_only_a_layered_diagonal_without_a_route_is_impossible(
            nodes,
            actions,
            handling,
            routes,
            last as nat,
        );
        if layered_expansion(nodes, actions, handling, routes, last as nat) is None {
            let i = choose|i: int|
                0 <= i < last && #[trigger] has_no_route(nodes, actions, routes, i);
            assert(0 <= i < steps);
        } else if layered_expansion(nodes, actions, handling, routes, steps) is None {
            assert(has_no_route(nodes, actions, routes, last));
        }
    }
}

/// Each move of a path adds its end with its action, and before it the corner by which it goes with
/// no action: where every diagonal is replaced, the one to the north or south if that route is open
/// and the one to the east or west otherwise; where only clunky ones are, the one to the east or west
/// if that is the only route. Nothing but a plain step along both axes of a level has a corner.
pub proof fn law_layered_expansion_adds_corner_and_end(
    nodes: Seq<LayeredNode>,
    actions: Seq<LayeredAction>,
    handling: DiagonalHandling,
    routes: Seq<DiagonalRoutes>,
    steps: nat,
)
    ensures
        layered_expansion(nodes, actions, handling, routes, 0) == Some(
            (seq![nodes[0]], seq![LayeredAction::Plain]),
        ),
        layered_expansion(nodes, actions, handling, routes, steps + 1) matches Some((path, taken))
            ==> {
            let from = nodes[steps as int];
            let to = nodes[steps as int + 1];
            let action = actions[steps as int + 1];
            let turns = from.group == to.group && from.layer == to.layer && from.x != to.x
                && from.y != to.y && action == LayeredAction::Plain;
            let along_y = routes[steps as int].north_south_first;
            let along_x = routes[steps as int].east_west_first;
            layered_expansion(nodes, actions, handling, routes, steps) matches Some(
                (before, earlier),
            ) && if turns && handling == DiagonalHandling::RemoveAll && along_y {
                &&& path == before + seq![LayeredNode { x: from.x, y: to.y, ..from }, to]
                &&& taken == earlier + seq![LayeredAction::Plain, action]
            } else if turns && handling != DiagonalHandling::DoNothing && !along_y && along_x {
                &&& path == before + seq![LayeredNode { x: to.x, y: from.y, ..from }, to]
                &&& taken == earlier + seq![LayeredAction::Plain, action]
            } else {
                &&& path == before + seq![to]
                &&& taken == earlier + seq![action]
            }
        },
{
    if let Some((path, taken)) = layered_expansion(nodes, actions, handling, routes, steps + 1) {
        let (before, earlier) = layered_expansion(
            nodes,
            actions,
            handling,
            routes,
            steps,
        ).unwrap();
        let from = nodes[steps as int];
        let to = nodes[steps as int + 1];
        let action = actions[steps as int + 1];
        let plain = LayeredAction::Plain;
        let a = LayeredNode { x: from.x, y: to.y, ..from };
        let b = LayeredNode { x: to.x, y: from.y, ..from };
        assert(before.push(to) =~= before + seq![to]);
        assert(before.push(a).push(to) =~= before + seq![a, to]);
        assert(before.push(b).push(to) =~= before + seq![b, to]);
        assert(earlier.push(action) =~= earlier + seq![action]);
        assert(earlier.push(plain).push(action) =~= earlier + seq![plain, action]);
    }
}

/// Removing every diagonal leaves none.
pub proof fn law_layered_remove_all_leaves_no_diagonal(
    nodes: Seq<LayeredNode>,
    actions: Seq<LayeredAction>,
    routes: Seq<DiagonalRoutes>,
    steps: nat,
)
    requires
        steps < nodes.len(),
    ensures
        layered_expansion(nodes, actions, DiagonalHandling::RemoveAll, routes, steps) matches Some(
            (path, taken),
        ) ==> forall|i: int, j: int|
            #![trigger path[i], path[j]]
            0 <= i < j <= i + 1 && j < path.len() ==> !turning(path[i], path[j], taken[j]),
    decreases steps,
{
    let mode = DiagonalHandling::RemoveAll;
    if steps > 0 {
        let last = (steps - 1) as nat;
        law_layered_remove_all_leaves_no_diagonal(nodes, actions, routes, last);
        law_layered_expansion_keeps_the_ends(nodes, actions, mode, routes, last);
        if let Some((path, taken)) = layered_expansion(nodes, actions, mode, routes, steps) {
            let (most, before) = layered_expansion(nodes, actions, mode, routes, last).unwrap();
            assert forall|i: int, j: int|
                #![trigger path[i], path[j]]
                0 <= i < j <= i + 1 && j < path.len() implies !turning(
                path[i],
                path[j],
                taken[j],
            ) by {
                if j < most.len() {
                    assert(path[i] == most[i] && path[j] == most[j] && taken[j] == before[j]);
                }
            }
        }
    }
}

/// Whether the edge from a node to a cardinal neighbour is open and a mover may stand there.
pub open spec fn layered_cardinal_step(
    grid: LayeredGrid,
    turfs: LayeredTurfs,
    from: LayeredNode,
    to: LayeredNode,
    k: int,
) -> bool {
    &&& 0 <= k < 4
    &&& on_grid(from.coord(), k)
    &&& to == step_node(from, k)
    &&& grid.seen(turfs, from) matches Ok(Some(source)) && source.opens(step(k).dir)
    &&& grid.can_stand(turfs, to)
}

/// Whether a mover can get from one node to the next of a path by an action.
pub open spec fn legal_move(
    grid: LayeredGrid,
    turfs: LayeredTurfs,
    from: LayeredNode,
    to: LayeredNode,
    action: LayeredAction,
) -> bool {
    ||| exists|cost: u32| #[trigger] leads_to(grid, turfs, from, (to, cost, action))
    ||| action == LayeredAction::Plain && exists|k: int| #[trigger]
        layered_cardinal_step(grid, turfs, from, to, k)
}

/// Whether every move of a path is legal.
pub open spec fn legal_moves(
    grid: LayeredGrid,
    turfs: LayeredTurfs,
    path: Seq<LayeredNode>,
    taken: Seq<LayeredAction>,
) -> bool {
    forall|i: int, j: int|
        #![trigger path[i], path[j]]
        0 <= i < j <= i + 1 && j < path.len() ==> legal_move(
            grid,
            turfs,
            path[i],
            path[j],
            taken[j],
        )
}

/// The two legs around a diagonal are legal where its routes say so.
proof fn lemma_layered_corner_is_legal(
    grid: LayeredGrid,
    turfs: LayeredTurfs,
    from: LayeredNode,
    to: LayeredNode,
)
    requires
        from.group == to.group,
        from.layer == to.layer,
        -1 <= to.x - from.x <= 1,
        -1 <= to.y - from.y <= 1,
        from.x != to.x,
        from.y != to.y,
        grid.routes(turfs, from, to) is Ok,
    ensures
        grid.routes(turfs, from, to)->Ok_0.north_south_first ==> {
            let corner = beside(from, from.x, to.y);
            &&& legal_move(grid, turfs, from, corner, LayeredAction::Plain)
            &&& legal_move(grid, turfs, corner, to, LayeredAction::Plain)
        },
        grid.routes(turfs, from, to)->Ok_0.east_west_first ==> {
            let corner = beside(from, to.x, from.y);
            &&& legal_move(grid, turfs, from, corner, LayeredAction::Plain)
            &&& legal_move(grid, turfs, corner, to, LayeredAction::Plain)
        },
{
    let up: int = if to.y > from.y {
        0
    } else {
        1
    };
    let side: int = if to.x > from.x {
        2
    } else {
        3
    };
    let routes = grid.routes(turfs, from, to)->Ok_0;
    if routes.north_south_first {
        let corner = beside(from, from.x, to.y);
        assert(layered_cardinal_step(grid, turfs, from, corner, up));
        assert(layered_cardinal_step(grid, turfs, corner, to, side));
    }
    if routes.east_west_first {
        let corner = beside(from, to.x, from.y);
        assert(layered_cardinal_step(grid, turfs, from, corner, side));
        assert(layered_cardinal_step(grid, turfs, corner, to, up));
    }
}

/// A plain move is one of the eight steps.
proof fn lemma_plain_move_is_a_step(
    grid: LayeredGrid,
    turfs: LayeredTurfs,
    from: LayeredNode,
    to: LayeredNode,
    cost: u32,
)
    requires
        leads_to(grid, turfs, from, (to, cost, LayeredAction::Plain)),
    ensures
        is_step(from, (to, cost, LayeredAction::Plain)),
{
    let item = (to, cost, LayeredAction::Plain);
    let out = choose|out: Seq<Successor>| #[trigger]
        listed(grid, turfs, from, out) && out.contains(item);
    let replies = choose|replies: Seq<bool>| #[trigger]
        grid.successors_of(turfs, replies, from) == Ok::<Seq<Successor>, Request>(out);
    let i = choose|i: int| 0 <= i < out.len() && out[i] == item;
    law_successors_are_moves(grid, turfs, replies, from, i);
}

/// Whatever the mode, a path that can be walked is handed out as a path that can be walked: each
/// corner put in is legal, both to get to and to leave.
pub proof fn law_handed_out_moves_are_legal(
    job: MultiSearchJob,
    end: LayeredNode,
    nodes: Seq<LayeredNode>,
    actions: Seq<LayeredAction>,
    costs: Seq<nat>,
    routes: Seq<DiagonalRoutes>,
    steps: nat,
)
    requires
        job.found_path(end, nodes, actions, costs),
        steps <= routes.len() < nodes.len(),
        layered_rechecked(job.grid, nodes, actions, routes),
    ensures
        layered_expansion(nodes, actions, job.diagonal_handling, routes, steps) matches Some(
            (path, taken),
        ) ==> legal_moves(job.grid, job.grid.cache@, path, taken),
    decreases steps,
{
    let grid = job.grid;
    let turfs = grid.cache@;
    let mode = job.diagonal_handling;
    if steps > 0 {
        let last = (steps - 1) as nat;
        law_handed_out_moves_are_legal(job, end, nodes, actions, costs, routes, last);
        law_layered_expansion_keeps_the_ends(nodes, actions, mode, routes, last);
        let from = nodes[steps - 1];
        let to = nodes[steps as int];
        let action = actions[steps as int];
        let cost = costs[steps - 1] as u32;
        assert(costs[steps - 1] <= u32::MAX && leads_to(
            grid,
            turfs,
            nodes[steps - 1],
            (nodes[steps - 1 + 1], cost, actions[steps - 1 + 1]),
        ));
        assert(leads_to(grid, turfs, from, (to, cost, action)));
        assert(legal_move(grid, turfs, from, to, action));
        if turning(from, to, action) {
            lemma_plain_move_is_a_step(grid, turfs, from, to, cost);
            lemma_step_moves(from.coord(), to.coord(), cost as int);
            assert(grid.routes(turfs, from, to) == Ok::<DiagonalRoutes, Request>(
                routes[steps - 1],
            ));
            lemma_layered_corner_is_legal(grid, turfs, from, to);
        }
        if let Some((path, taken)) = layered_expansion(nodes, actions, mode, routes, steps) {
            let (most, before) = layered_expansion(nodes, actions, mode, routes, last).unwrap();
            assert forall|i: int, j: int|
                #![trigger path[i], path[j]]
                0 <= i < j <= i + 1 && j < path.len() implies legal_move(
                grid,
                turfs,
                path[i],
                path[j],
                taken[j],
            ) by {
                if j < most.len() {
                    assert(path[i] == most[i] && path[j] == most[j] && taken[j] == before[j]);
                }
            }
        }
    } else {
        if let Some((path, taken)) = layered_expansion(nodes, actions, mode, routes, steps) {
            assert(path.len() == 1);
        }
    }
}

/// All nodes.
pub open spec fn all_nodes() -> Seq<LayeredNode> {
    Seq::new(
        0x1_0000_0000_0000_0000_0000,
        |i: int|
            LayeredNode {
                x: (i % 0x1_0000 - 0x8000) as i16,
                y: (i / 0x1_0000 % 0x1_0000 - 0x8000) as i16,
                layer: (i / 0x1_0000 / 0x1_0000 % 0x1_0000 - 0x8000) as i16,
                group: (i / 0x1_0000 / 0x1_0000 / 0x1_0000 - 0x8000_0000) as i32,
            },
    )
}

proof fn lemma_all_nodes(node: LayeredNode)
    ensures
        all_nodes().contains(node),
{
    let above = node.group + 0x8000_0000;
    let upper = (node.layer + 0x8000) + 0x1_0000 * above;
    let lower = (node.y + 0x8000) + 0x1_0000 * upper;
    let i = (node.x + 0x8000) + 0x1_0000 * lower;
    assert(i / 0x1_0000 == lower && i % 0x1_0000 == node.x + 0x8000);
    assert(lower / 0x1_0000 == upper && lower % 0x1_0000 == node.y + 0x8000);
    assert(upper / 0x1_0000 == above && upper % 0x1_0000 == node.layer + 0x8000);
    assert(0 <= i < all_nodes().len());
    assert(all_nodes()[i] == node);
}

impl MultiSearchJob {
    /// What is left to do: to look at the start, to write down better costs, to look up turfs, and
    /// to go through the queue.
    pub open spec fn left_to_do(self) -> (nat, nat, nat, nat) {
        (
            if self.initialized {
                0
            } else {
                1
            },
            potential(all_nodes(), self.costs@),
            unknown(all_nodes(), self.grid.cache@),
            2 * self.frontier@.len() + if self.current is Some {
                1nat
            } else {
                0nat
            },
        )
    }
}

/// Offering successors changes nothing or lowers the potential.
proof fn lemma_offers_lower_potential(
    book: LayeredBook,
    heuristic: PortalHeuristic,
    max_cost: u32,
    e: LayeredQueueEntry,
    out: Seq<Successor>,
    count: nat,
)
    requires
        count <= out.len(),
    ensures
        ({
            let after = offered(book, heuristic, max_cost, e, out, count);
            ||| after == book
            ||| potential(all_nodes(), after.costs) < potential(all_nodes(), book.costs)
        }),
    decreases count,
{
    if count > 0 {
        lemma_offers_lower_potential(book, heuristic, max_cost, e, out, (count - 1) as nat);
        let before = offered(book, heuristic, max_cost, e, out, (count - 1) as nat);
        let (to, cost, action) = out[count - 1];
        let next = saturated(e.cost + cost);
        if !before.costs.contains_key(to) || next < before.costs[to] {
            lemma_all_nodes(to);
            lemma_potential_falls(all_nodes(), before.costs, to, next);
        }
    }
}

proof fn lemma_learning_leaves_less(
    before: MultiSearchJob,
    published: NavPassCache,
    missing: Request,
    after: MultiSearchJob,
    progress: MultiJobProgress,
)
    requires
        before.learned(published, missing, after, progress),
        progress is Working,
        missing matches Request::Turf(node) ==> !before.grid.cache@.contains_key(node),
    ensures
        less_left(after.left_to_do(), before.left_to_do()),
{
    if let Request::Turf(node) = missing {
        let info = before.grid.settled(published, node).unwrap();
        lemma_all_nodes(node);
        lemma_unknown_falls(all_nodes(), before.grid.cache@, node, info);
    }
}

/// A search cannot go on forever by itself: every move that neither asks for something, nor yields,
/// nor ends the search leaves less to do than there was before.
pub proof fn law_every_layered_move_leaves_less_to_do(
    before: MultiSearchJob,
    published: NavPassCache,
    elapsed: u128,
    after: MultiSearchJob,
    progress: MultiJobProgress,
)
    requires
        before.moved(published, elapsed, after, progress),
        progress is Working,
    ensures
        less_left(after.left_to_do(), before.left_to_do()),
{
    let known = before.grid.cache@;
    if !before.initialized {
        if let Err(missing) = before.grid.occupiable(known, before.grid.start) {
            lemma_learning_leaves_less(before, published, missing, after, progress);
        }
    } else if let Some(e) = before.current {
        lemma_layered_successors_bounds(before.grid, known, before.replies@, e.node);
        match before.grid.successors_of(known, before.replies@, e.node) {
            Err(missing) => {
                lemma_learning_leaves_less(before, published, missing, after, progress);
            },
            Ok(out) => {
                lemma_offers_lower_potential(
                    before.book(),
                    before.heuristic,
                    before.grid.max_cost,
                    e,
                    out,
                    out.len(),
                );
            },
        }
    }
}

/// A turf that is supplied leaves less to do, if it was not known.
pub proof fn law_supplied_node_leaves_less_to_do(
    before: MultiSearchJob,
    node: LayeredNode,
    info: Option<TurfInfo>,
    after: MultiSearchJob,
)
    requires
        !before.grid.cache@.contains_key(node),
        after.grid.cache@ == before.grid.cache@.insert(node, info),
        after.book() == before.book(),
        after.current == before.current,
        after.initialized == before.initialized,
    ensures
        less_left(after.left_to_do(), before.left_to_do()),
{
    lemma_all_nodes(node);
    lemma_unknown_falls(all_nodes(), before.grid.cache@, node, info);
}

/// No node raises more questions about links than links leave from it.
pub proof fn law_questions_about_links_run_out(
    grid: LayeredGrid,
    turfs: LayeredTurfs,
    replies: Seq<bool>,
    from: LayeredNode,
)
    requires
        replies.len() >= grid.links_at(from).len(),
    ensures
        grid.successors_of(turfs, replies, from) matches Err(missing) ==> missing is Turf,
{
    let links = grid.links_at(from);
    lemma_questions_run_out(grid, turfs, replies, links, links.len());
    if let Ok(Some(source)) = grid.seen(turfs, from) {
        lemma_steps_ask_for_turfs(grid, turfs, source, from, STEP_COUNT as nat);
    }
}

proof fn lemma_steps_ask_for_turfs(
    grid: LayeredGrid,
    turfs: LayeredTurfs,
    source: TurfInfo,
    from: LayeredNode,
    count: nat,
)
    ensures
        grid.steps_upto(turfs, source, from, count) matches Err(missing) ==> missing is Turf,
    decreases count,
{
    if count > 0 {
        lemma_steps_ask_for_turfs(grid, turfs, source, from, (count - 1) as nat);
    }
}

proof fn lemma_questions_run_out(
    grid: LayeredGrid,
    turfs: LayeredTurfs,
    replies: Seq<bool>,
    links: Seq<NavLink>,
    count: nat,
)
    requires
        count <= links.len() <= replies.len(),
    ensures
        match grid.links_upto(turfs, replies, links, count) {
            Ok((_, asked)) => asked <= count,
            Err(missing) => missing is Turf,
        },
    decreases count,
{
    if count > 0 {
        lemma_questions_run_out(grid, turfs, replies, links, (count - 1) as nat);
    }
}

/// A move gives control back only between two entries of the frontier, and there exactly once five
/// milliseconds have passed.
pub proof fn law_slices_last_five_milliseconds(
    before: MultiSearchJob,
    published: NavPassCache,
    elapsed: u128,
    after: MultiSearchJob,
    progress: MultiJobProgress,
)
    requires
        before.moved(published, elapsed, after, progress),
    ensures
        progress is InProgress <==> {
            &&& before.initialized
            &&& before.current is None
            &&& elapsed >= 5_000_000
        },
        progress !is Stale,
{
}

/// A move asks for a turf only where it is neither known nor settled without locating it, and learns of
/// no turf but one that was not known, as it is settled.
pub proof fn law_moves_ask_for_what_is_not_known(
    before: MultiSearchJob,
    published: NavPassCache,
    elapsed: u128,
    after: MultiSearchJob,
    progress: MultiJobProgress,
    node: LayeredNode,
)
    requires
        before.moved(published, elapsed, after, progress),
    ensures
        progress == MultiJobProgress::NeedsTurf(node) ==> {
            &&& !before.grid.cache@.contains_key(node)
            &&& before.grid.settled(published, node) is None
        },
        before.grid.cache@.contains_key(node) ==> after.grid.cache@.contains_key(node)
            && after.grid.cache@[node] == before.grid.cache@[node],
        after.grid.cache@.contains_key(node) && !before.grid.cache@.contains_key(node)
            ==> before.grid.settled(published, node) == Some(after.grid.cache@[node]),
{
    if let Some(e) = before.current {
        lemma_layered_successors_bounds(
            before.grid,
            before.grid.cache@,
            before.replies@,
            e.node,
        );
    }
}

/// A successor is taken up exactly where it is within the cost limit, if there is one, and new or
/// reached more cheaply than before: it then has the lower cost and the entry's node with the action
/// as its predecessor, and is queued, one number after the last, with the estimate of what is left. No
/// sum exceeds 32 bits. Otherwise nothing changes.
pub proof fn law_offers_take_up_what_is_cheaper(
    book: LayeredBook,
    heuristic: PortalHeuristic,
    max_cost: u32,
    from: LayeredQueueEntry,
    out: Seq<Successor>,
    count: nat,
)
    requires
        count < out.len(),
        offered(book, heuristic, max_cost, from, out, count).sequence < u64::MAX,
    ensures
        offered(book, heuristic, max_cost, from, out, 0) == book,
        ({
            let before = offered(book, heuristic, max_cost, from, out, count);
            let after = offered(book, heuristic, max_cost, from, out, count + 1);
            let (to, move_cost, action) = out[count as int];
            let cost = at_most_max(from.cost + move_cost);
            if (max_cost == 0 || cost <= max_cost) && (!before.costs.contains_key(to) || cost
                < before.costs[to]) {
                &&& after.costs.dom() == before.costs.dom().insert(to)
                &&& after.costs[to] == cost
                &&& forall|n: LayeredNode| n != to ==> #[trigger] after.costs[n] == before.costs[n]
                &&& after.previous == before.previous.insert(to, (from.node, action))
                &&& after.sequence == before.sequence + 1
                &&& exists|e: LayeredQueueEntry| #[trigger]
                    before.frontier.insert(e) == after.frontier && e.node == to && e.cost == cost
                        && e.estimate == at_most_max(cost + heuristic.estimate_of(to))
                        && e.sequence == before.sequence + 1
            } else {
                after == before
            }
        }),
{
    let before = offered(book, heuristic, max_cost, from, out, count);
    let after = offered(book, heuristic, max_cost, from, out, count + 1);
    let (to, move_cost, action) = out[count as int];
    lemma_estimate_fits(heuristic, to);
    if better(before, max_cost, from, out[count as int]) {
        let cost = saturated(from.cost + move_cost);
        let e = LayeredQueueEntry {
            node: to,
            cost,
            estimate: saturated(cost + heuristic.estimate_of(to)),
            sequence: (before.sequence + 1) as u64,
        };
        assert(before.frontier.insert(e) == after.frontier);
        assert(after.costs.dom() =~= before.costs.dom().insert(to));
    }
}

/// A number, or the greatest of 32 bits where it exceeds that.
pub open spec fn at_most_max(number: int) -> int {
    if number <= 0xffff_ffff {
        number
    } else {
        0xffff_ffff
    }
}

/// The start is queued first, at no cost and with the number one, unless a mover may not stand there.
pub proof fn law_search_begins_at_the_start(
    before: MultiSearchJob,
    published: NavPassCache,
    elapsed: u128,
    after: MultiSearchJob,
    progress: MultiJobProgress,
)
    requires
        before.wf(),
        !before.initialized,
        before.sequence == 0,
        before.moved(published, elapsed, after, progress),
        after.initialized,
    ensures
        progress is Working || progress is NoPath,
        progress is Working ==> {
            &&& after.costs@.dom() == Set::empty().insert(before.grid.start)
            &&& after.costs@[before.grid.start] == 0
            &&& after.previous@.dom() == Set::<LayeredNode>::empty()
            &&& after.sequence == 1
            &&& exists|e: LayeredQueueEntry| #[trigger]
                after.frontier@ == Multiset::singleton(e) && e.node == before.grid.start && e.cost
                    == 0 && e.sequence == 1
        },
        progress is NoPath ==> after.frontier@ == Multiset::<LayeredQueueEntry>::empty(),
{
    assert(after.costs@ == after.book().costs && after.previous@ == after.book().previous
        && after.frontier@ == after.book().frontier && after.sequence == after.book().sequence);
    if progress is Working {
        let e = LayeredQueueEntry {
            node: before.grid.start,
            cost: 0,
            estimate: saturated(0 + before.heuristic.estimate_of(before.grid.start)),
            sequence: 1,
        };
        assert(after.frontier@ == before.book().frontier.insert(e));
        assert(after.frontier@ =~= Multiset::singleton(e));
        assert(after.costs@.dom() =~= Set::empty().insert(before.grid.start));
        assert(after.previous@.dom() =~= Set::<LayeredNode>::empty());
    }
}

/// The settings of a job are its target, its estimate, its shape and the rules of its grid, pass flags
/// and topology among them; what it has written down is its costs, predecessors, frontier and answers.
pub proof fn law_same_settings_are_the_same(a: MultiSearchJob, b: MultiSearchJob)
    ensures
        a.same_settings(b) <==> {
            &&& a.goal == b.goal
            &&& a.heuristic == b.heuristic
            &&& a.min_target_distance == b.min_target_distance
            &&& a.diagonal_handling == b.diagonal_handling
            &&& a.skip_first == b.skip_first
            &&& a.grid.topology == b.grid.topology
            &&& a.grid.pass_flags == b.grid.pass_flags
            &&& a.grid.is_flying == b.grid.is_flying
            &&& a.grid.start == b.grid.start
            &&& a.grid.max_range == b.grid.max_range
            &&& a.grid.max_cost == b.grid.max_cost
            &&& a.grid.simulated_only == b.grid.simulated_only
            &&& a.grid.avoid == b.grid.avoid
            &&& a.grid.links_by_source == b.grid.links_by_source
        },
        a.untouched(b) ==> {
            &&& a.costs@ == b.costs@
            &&& a.previous@ == b.previous@
            &&& a.frontier@ == b.frontier@
            &&& a.sequence == b.sequence
            &&& a.current == b.current
            &&& a.replies@ == b.replies@
            &&& a.initialized == b.initialized
            &&& a.grid.cache@ == b.grid.cache@
        },
{
    assert(a.costs@ == a.book().costs && a.previous@ == a.book().previous && a.frontier@
        == a.book().frontier && a.sequence == a.book().sequence);
    assert(b.costs@ == b.book().costs && b.previous@ == b.book().previous && b.frontier@
        == b.book().frontier && b.sequence == b.book().sequence);
}

/// A turf that is supplied is known from then on as it was supplied, unless it was known before; an
/// answer about a link comes after those that there were. Nothing else is touched.
pub proof fn law_what_is_supplied_is_known(
    before: MultiSearchJob,
    node: LayeredNode,
    info: Option<TurfInfo>,
    may_plan: bool,
    after: MultiSearchJob,
    other: LayeredNode,
)
    ensures
        before.told(node, info, after) ==> {
            &&& after.grid.cache@.contains_key(node)
            &&& after.grid.cache@[node] == if before.grid.cache@.contains_key(node) {
                before.grid.cache@[node]
            } else {
                info
            }
            &&& other != node ==> after.grid.cache@.contains_key(other)
                == before.grid.cache@.contains_key(other) && after.grid.cache@[other]
                == before.grid.cache@[other]
            &&& after.replies@ == before.replies@
        },
        before.answered(may_plan, after) ==> {
            &&& after.replies@ == before.replies@ + seq![may_plan]
            &&& after.grid.cache@ == before.grid.cache@
        },
        before.told(node, info, after) || before.answered(may_plan, after) ==> {
            &&& after.same_settings(before)
            &&& after.costs@ == before.costs@
            &&& after.previous@ == before.previous@
            &&& after.frontier@ == before.frontier@
            &&& after.current == before.current
            &&& after.initialized == before.initialized
        },
{
    assert(after.costs@ == after.book().costs && after.previous@ == after.book().previous
        && after.frontier@ == after.book().frontier);
    assert(before.replies@.push(may_plan) =~= before.replies@ + seq![may_plan]);
}

} // verus!
