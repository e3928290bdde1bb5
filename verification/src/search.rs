//! The resumable single-level A* search.

use crate::diagonals::{
    apply_skip_first, diagonal, expand_diagonals_checked, expanded, law_expansion_keeps_the_ends,
    routes_checked, skipped, DiagonalHandling, DiagonalRoutes,
};
use crate::directions::step;
use crate::frontier::{rank_below, Frontier, Ranked};
use crate::geometry::{
    apart, are_comparable, chebyshev, chebyshev_distance, comparable, fewest_steps_cost,
    heuristic_to_target_range, law_distances_in_numbers, law_estimate_is_zero_in_range,
    law_step_lowers_estimate_by_at_most_its_cost, lemma_step_moves, octile_fits, octile_to_range,
    outside, Coord, LayeredNode, TurfCoords,
};
use crate::grid::{
    law_edges_are_steps, law_more_turfs_keep_successors, lemma_edges_fit,
    lemma_missing_is_unknown, lemma_same_rules_same_successors, neighbor, on_grid, Grid, Turfs,
};
use crate::measure::{lemma_potential_falls, lemma_unknown_falls, less_left, potential, unknown};
use crate::nav_pass::{published_info, NavPassCache, TurfInfo};
use crate::packed_map::PackedMap;
use crate::queue::QueueEntry;
use crate::walks::{
    admissible, followed, is_walk, lemma_consistent_is_admissible, lemma_some_open_node_promises,
    total,
};
use vstd::multiset::Multiset;
use vstd::prelude::*;

verus! {

broadcast use vstd::multiset::group_multiset_axioms;

/// Nanoseconds that one resumable search slice may take.
pub const SLICE_BUDGET: u128 = 5_000_000;

/// What the search has written down so far.
#[verifier::ext_equal]
pub struct Book {
    /// Best known cost for each visited turf.
    pub costs: Map<Coord, u32>,
    /// Previous turf for path reconstruction.
    pub previous: Map<Coord, Coord>,
    /// Queued entries, stale ones included.
    pub frontier: Multiset<QueueEntry>,
    /// Number of entries ever queued.
    pub sequence: nat,
}

/// The book after queueing a turf at a cost.
pub open spec fn pushed(book: Book, goal: Coord, radius: int, coord: Coord, cost: u32) -> Book {
    Book {
        costs: book.costs.insert(coord, cost),
        previous: book.previous,
        frontier: book.frontier.insert(
            QueueEntry {
                coord,
                cost,
                estimate: (cost + octile_to_range(coord, goal, radius)) as u32,
                sequence: (book.sequence + 1) as u64,
            },
        ),
        sequence: book.sequence + 1,
    }
}

/// Whether a successor of an entry is new or reached more cheaply than before.
pub open spec fn better(book: Book, from: QueueEntry, item: (Coord, u32)) -> bool {
    !book.costs.contains_key(item.0) || from.cost + item.1 < book.costs[item.0]
}

/// Whether the numbers computed for a successor of an entry stay within their machine range. There
/// is no estimate of what is left from a successor that is not queued.
pub open spec fn offer_fits(
    book: Book,
    goal: Coord,
    radius: int,
    from: QueueEntry,
    item: (Coord, u32),
) -> bool {
    &&& from.cost + item.1 <= u32::MAX
    &&& better(book, from, item) ==> {
        &&& comparable(item.0, goal)
        &&& from.cost + item.1 + octile_to_range(item.0, goal, radius) <= u32::MAX
    }
}

/// The book after offering the first `count` successors of an entry: each that is new or reached
/// more cheaply than before is queued, with the entry's turf as its predecessor.
pub open spec fn offered(
    book: Book,
    goal: Coord,
    radius: int,
    from: QueueEntry,
    out: Seq<(Coord, u32)>,
    count: nat,
) -> Book
    decreases count,
{
    if count == 0 {
        book
    } else {
        let before = offered(book, goal, radius, from, out, (count - 1) as nat);
        let (to, cost) = out[count - 1];
        if better(before, from, out[count - 1]) {
            pushed(
                Book { previous: before.previous.insert(to, from.coord), ..before },
                goal,
                radius,
                to,
                (from.cost + cost) as u32,
            )
        } else {
            before
        }
    }
}

/// Result of one move of a single-level search.
#[derive(Debug)]
pub enum JobProgress {
    /// The slice is used up; the search goes on in another one.
    InProgress,
    /// There is more to do in this slice.
    Working,
    /// The search cannot go on before this turf has been looked up.
    NeedsTurf(Coord),
    /// A cheapest path was found.
    Found(Vec<Coord>),
    /// There is no path.
    NoPath,
}

/// Resumable single-level A* search state.
pub struct SearchJob {
    /// Grid and cached passability data.
    pub grid: Grid,
    /// Search target.
    pub goal: Coord,
    /// Acceptable distance from the target.
    pub min_target_distance: i32,
    /// Requested diagonal output mode.
    pub diagonal_handling: DiagonalHandling,
    /// Whether the first returned turf is omitted.
    pub skip_first: bool,
    /// Frontier ordered by estimated total cost.
    pub frontier: Frontier<QueueEntry>,
    /// Best known cost for each visited turf.
    pub costs: PackedMap<Coord, u32>,
    /// Previous turf for path reconstruction.
    pub previous: PackedMap<Coord, Coord>,
    /// Entry taken out of the frontier whose successors are being looked at.
    pub current: Option<QueueEntry>,
    /// Whether the start node has been looked at.
    pub initialized: bool,
    /// Sequence used to break queue ties.
    pub sequence: u64,
    /// Last time this job was resumed, in nanoseconds.
    pub last_touched: u128,
}

/// Whether a path leads backwards along the recorded predecessors, as far as they go.
pub open spec fn follows_previous(
    previous: Map<Coord, Coord>,
    path: Seq<Coord>,
    end: Coord,
) -> bool {
    &&& path.len() > 0
    &&& path.last() == end
    &&& !previous.contains_key(path[0])
    &&& forall|i: int|
        0 < i < path.len() ==> previous.contains_key(#[trigger] path[i]) && previous[path[i]]
            == path[i - 1]
}

/// Whether the recorded predecessors of a turf come to an end.
pub open spec fn leads_back(previous: Map<Coord, Coord>, end: Coord) -> bool {
    exists|path: Seq<Coord>| follows_previous(previous, path, end)
}

/// Whether every recorded predecessor was reached at a lower cost than its successor.
pub open spec fn descending(costs: Map<Coord, u32>, previous: Map<Coord, Coord>) -> bool {
    forall|n: Coord| #[trigger]
        previous.contains_key(n) ==> costs.contains_key(n) && costs.contains_key(previous[n])
            && costs[previous[n]] < costs[n]
}

impl SearchJob {
    /// What the search has written down so far.
    pub open spec fn book(self) -> Book {
        Book {
            costs: self.costs@,
            previous: self.previous@,
            frontier: self.frontier@,
            sequence: self.sequence as nat,
        }
    }

    /// The acceptable distance as an integer.
    pub open spec fn radius(self) -> int {
        self.min_target_distance as int
    }

    /// Whether the settings of two jobs agree.
    pub open spec fn same_settings(self, other: SearchJob) -> bool {
        &&& self.goal == other.goal
        &&& self.min_target_distance == other.min_target_distance
        &&& self.diagonal_handling == other.diagonal_handling
        &&& self.skip_first == other.skip_first
        &&& self.grid.same_rules(other.grid)
    }

    /// Creates an empty resumable search.
    pub fn new(
        grid: Grid,
        goal: Coord,
        min_target_distance: i32,
        diagonal_handling: DiagonalHandling,
        skip_first: bool,
        now: u128,
    ) -> (job: Self)
        ensures
            job.grid == grid,
            job.goal == goal,
            job.min_target_distance == min_target_distance,
            job.diagonal_handling == diagonal_handling,
            job.skip_first == skip_first,
            job.book() == (Book {
                costs: Map::empty(),
                previous: Map::empty(),
                frontier: Multiset::empty(),
                sequence: 0,
            }),
            job.frontier.wf(),
            job.current is None,
            !job.initialized,
            job.last_touched == now,
    {
        SearchJob {
            grid,
            goal,
            min_target_distance,
            diagonal_handling,
            skip_first,
            frontier: Frontier::new(),
            costs: PackedMap::new(),
            previous: PackedMap::new(),
            current: None,
            initialized: false,
            sequence: 0,
            last_touched: now,
        }
    }

    /// Queues a node with its current best cost.
    pub fn push(&mut self, coord: Coord, cost: u32)
        requires
            old(self).frontier.wf(),
            old(self).sequence < u64::MAX,
            comparable(coord, old(self).goal),
            cost + octile_to_range(coord, old(self).goal, old(self).radius()) <= u32::MAX,
        ensures
            final(self).frontier.wf(),
            final(self).book() == pushed(
                old(self).book(),
                old(self).goal,
                old(self).radius(),
                coord,
                cost,
            ),
            final(self).same_settings(*old(self)),
            final(self).grid == old(self).grid,
            final(self).current == old(self).current,
            final(self).initialized == old(self).initialized,
            final(self).last_touched == old(self).last_touched,
    {
        proof {
            law_estimate_is_zero_in_range(coord, self.goal, self.radius());
        }
        self.costs.insert(coord, cost);
        self.sequence = self.sequence + 1;
        let remaining: u32 = heuristic_to_target_range(coord, self.goal, self.min_target_distance);
        self.frontier.push(
            QueueEntry { coord, cost, estimate: cost + remaining, sequence: self.sequence },
        );
    }

    /// Reconstructs a start-to-goal coordinate path.
    pub fn reconstruct(&self, goal: Coord) -> (path: Vec<Coord>)
        requires
            leads_back(self.previous@, goal),
        ensures
            follows_previous(self.previous@, path@, goal),
    {
        let mut backwards: Vec<Coord> = Vec::new();
        backwards.push(goal);
        let mut at: Coord = goal;
        let ghost way = choose|path: Seq<Coord>| follows_previous(self.previous@, path, goal);
        loop
            invariant
                follows_previous(self.previous@, way, goal),
                0 < backwards@.len() <= way.len(),
                backwards@[0] == goal,
                backwards@.last() == at,
                at == way[way.len() - backwards@.len()],
                forall|i: int|
                    0 <= i < backwards@.len() - 1 ==> self.previous@.contains_key(
                        #[trigger] backwards@[i],
                    ) && self.previous@[backwards@[i]] == backwards@[i + 1],
            ensures
                !self.previous@.contains_key(at),
            decreases way.len() - backwards@.len(),
        {
            let ghost before = backwards@;
            let before_at: Coord = match self.previous.get(at) {
                Some(previous) => *previous,
                None => {
                    break;
                },
            };
            backwards.push(before_at);
            proof {
                assert(way.len() - before.len() > 0);
                assert forall|i: int| 0 <= i < backwards@.len() - 1 implies self.previous@.contains_key(
                    #[trigger] backwards@[i],
                ) && self.previous@[backwards@[i]] == backwards@[i + 1] by {
                    assert(backwards@[i] == before[i]);
                }
            }
            at = before_at;
        }
        let path = reversed(&backwards);
        assert forall|i: int| 0 < i < path@.len() implies self.previous@.contains_key(
            #[trigger] path@[i],
        ) && self.previous@[path@[i]] == path@[i - 1] by {
            assert(path@[i] == backwards@[backwards@.len() - 1 - i]);
        }
        path
    }
}

/// Whether a queue entry agrees with the book: it costs no less than the best known way to its
/// turf, and its estimate adds the octile distance to the target.
pub open spec fn entry_ok(book: Book, goal: Coord, radius: int, e: QueueEntry) -> bool {
    &&& book.costs.contains_key(e.coord)
    &&& book.costs[e.coord] <= e.cost
    &&& e.estimate == e.cost + octile_to_range(e.coord, goal, radius)
}

/// Whether an entry with the best known cost of a turf is waiting.
pub open spec fn queued(book: Book, n: Coord) -> bool {
    exists|e: QueueEntry| #[trigger]
        book.frontier.contains(e) && e.coord == n && e.cost == book.costs[n]
}

/// Whether the successors of a turf are just being looked at.
pub open spec fn in_hand(book: Book, current: Option<QueueEntry>, n: Coord) -> bool {
    current matches Some(e) && e.coord == n && e.cost == book.costs[n]
}

/// Whether the search is through with a turf: it is no target, and each of its successors is
/// known at no more than the turf's cost and that of the step.
pub open spec fn done(
    grid: Grid,
    turfs: Turfs,
    goal: Coord,
    radius: int,
    book: Book,
    n: Coord,
) -> bool {
    &&& chebyshev(n, goal) > radius
    &&& grid.successors_of(turfs, n) matches Ok(out) && forall|i: int|
        0 <= i < out.len() ==> book.costs.contains_key((#[trigger] out[i]).0)
            && book.costs[out[i].0] <= book.costs[n] + out[i].1
}

/// Whether a turf was reached from its recorded predecessor.
pub open spec fn reached(grid: Grid, turfs: Turfs, book: Book, n: Coord) -> bool {
    let p = book.previous[n];
    &&& n != grid.start
    &&& book.costs.contains_key(n)
    &&& book.costs.contains_key(p)
    &&& exists|c: nat| #[trigger]
        grid.walks_to(turfs, p, n, c) && book.costs[p] + c <= book.costs[n]
}

/// Whether queued entries are told apart by their sequence numbers.
pub open spec fn distinct(book: Book) -> bool {
    &&& forall|e: QueueEntry| #[trigger]
        book.frontier.contains(e) ==> e.sequence <= book.sequence
    &&& forall|a: QueueEntry, b: QueueEntry| #[trigger]
        book.frontier.contains(a) && #[trigger] book.frontier.contains(b) && a.sequence
            == b.sequence ==> a == b
}

/// What holds of the book at every moment of a search that has started.
pub open spec fn sound(
    grid: Grid,
    turfs: Turfs,
    goal: Coord,
    radius: int,
    book: Book,
    current: Option<QueueEntry>,
) -> bool {
    &&& grid.occupiable(turfs, grid.start) matches Ok(Some(_))
    &&& book.costs.contains_key(grid.start)
    &&& book.costs[grid.start] == 0
    &&& forall|e: QueueEntry| #[trigger]
        book.frontier.contains(e) ==> entry_ok(book, goal, radius, e)
    &&& distinct(book)
    &&& current matches Some(e) ==> {
        &&& entry_ok(book, goal, radius, e)
        &&& e.cost == book.costs[e.coord]
        &&& chebyshev(e.coord, goal) > radius
    }
    &&& forall|n: Coord| #[trigger]
        book.costs.contains_key(n) ==> {
            &&& queued(book, n) || in_hand(book, current, n) || done(
                grid,
                turfs,
                goal,
                radius,
                book,
                n,
            )
            &&& n == grid.start || book.previous.contains_key(n)
            &&& comparable(n, goal)
            &&& grid.max_range > 0 ==> comparable(n, grid.start)
        }
    &&& forall|n: Coord| #[trigger]
        book.previous.contains_key(n) ==> reached(grid, turfs, book, n)
}

/// Whether a book is blank.
pub open spec fn blank(book: Book) -> bool {
    &&& book.costs == Map::<Coord, u32>::empty()
    &&& book.previous == Map::<Coord, Coord>::empty()
    &&& book.frontier == Multiset::<QueueEntry>::empty()
}

impl SearchJob {
    /// Whether the search state hangs together: nothing is written down before the start has been
    /// looked at or where it cannot be occupied, and the book is sound otherwise.
    pub open spec fn wf(self) -> bool {
        &&& self.frontier.wf()
        &&& if !self.initialized {
            blank(self.book()) && self.current is None
        } else {
            ||| sound(
                self.grid,
                self.grid.cache@,
                self.goal,
                self.radius(),
                self.book(),
                self.current,
            )
            ||| {
                &&& blank(self.book())
                &&& self.current is None
                &&& self.grid.occupiable(self.grid.cache@, self.grid.start) == Ok::<
                    Option<TurfInfo>,
                    Coord,
                >(None)
            }
        }
    }

    /// Whether the numbers that the next move computes stay within their machine range.
    pub open spec fn has_room(self) -> bool {
        match self.current {
            Some(e) => {
                &&& self.grid.room_at(self.grid.cache@, e.coord)
                &&& self.grid.successors_of(self.grid.cache@, e.coord) matches Ok(out) ==> {
                    &&& self.sequence + out.len() <= u64::MAX
                    &&& forall|i: int|
                        0 <= i < out.len() ==> offer_fits(
                            self.book(),
                            self.goal,
                            self.radius(),
                            e,
                            #[trigger] out[i],
                        )
                }
            },
            None => !self.initialized && (self.grid.occupiable(
                self.grid.cache@,
                self.grid.start,
            ) matches Ok(Some(_))) ==> {
                &&& comparable(self.grid.start, self.goal)
                &&& octile_to_range(self.grid.start, self.goal, self.radius()) <= u32::MAX
                &&& self.sequence < u64::MAX
            },
        }
    }

    /// Whether a turf is close enough to the goal.
    pub open spec fn in_target(self, n: Coord) -> bool {
        chebyshev(n, self.goal) <= self.radius()
    }

    /// Whether a walk leads from the start, which can be occupied, to the target region.
    pub open spec fn is_route(self, world: Turfs, nodes: Seq<Coord>, steps: Seq<nat>) -> bool {
        &&& is_walk(self.grid.edges(world), nodes, steps)
        &&& nodes[0] == self.grid.start
        &&& self.grid.occupiable(world, self.grid.start) matches Ok(Some(_))
        &&& self.in_target(nodes.last())
    }

    /// Whether a path is a cheapest route: it can be walked on the turfs looked up so far, and
    /// whatever the other turfs are like, no route costs less.
    pub open spec fn cheapest(self, path: Seq<Coord>) -> bool {
        exists|steps: Seq<nat>|
            {
                &&& #[trigger] self.is_route(self.grid.cache@, path, steps)
                &&& forall|world: Turfs, nodes: Seq<Coord>, others: Seq<nat>| #[trigger]
                    self.is_route(world, nodes, others) && self.grid.cache@.submap_of(world)
                        ==> total(steps) <= total(others)
            }
    }

    /// Whether there is no route, whatever the turfs not yet looked up are like.
    pub open spec fn hopeless(self) -> bool {
        forall|world: Turfs, nodes: Seq<Coord>, steps: Seq<nat>|
            self.grid.cache@.submap_of(world) ==> !(#[trigger] self.is_route(world, nodes, steps))
    }
}

/// Offering one successor keeps the book sound and makes the successor known at no more than the
/// offered cost.
#[verifier::spinoff_prover]
proof fn lemma_offer_one(
    grid: Grid,
    turfs: Turfs,
    goal: Coord,
    radius: int,
    book: Book,
    e: QueueEntry,
    to: Coord,
    cost: u32,
)
    requires
        sound(grid, turfs, goal, radius, book, Some(e)),
        grid.walks_to(turfs, e.coord, to, cost as nat),
        grid.max_range > 0 ==> comparable(to, grid.start),
        offer_fits(book, goal, radius, e, (to, cost)),
        book.sequence < u64::MAX,
    ensures
        ({
            let after = offered(book, goal, radius, e, seq![(to, cost)], 1);
            &&& sound(grid, turfs, goal, radius, after, Some(e))
            &&& after.costs.contains_key(to)
            &&& after.costs[to] <= e.cost + cost
            &&& forall|n: Coord| #[trigger]
                book.costs.contains_key(n) ==> after.costs.contains_key(n) && after.costs[n]
                    <= book.costs[n]
            &&& book.sequence <= after.sequence <= book.sequence + 1
        }),
{
    reveal_with_fuel(offered, 2);
    let after = offered(book, goal, radius, e, seq![(to, cost)], 1);
    law_edges_are_steps(grid, turfs, e.coord, to, cost as nat);
    lemma_step_moves(e.coord, to, cost as int);
    law_estimate_is_zero_in_range(to, goal, radius);
    if better(book, e, (to, cost)) {
        let next = (e.cost + cost) as u32;
        let entry = QueueEntry {
            coord: to,
            cost: next,
            estimate: (next + octile_to_range(to, goal, radius)) as u32,
            sequence: (book.sequence + 1) as u64,
        };
        assert(after.frontier == book.frontier.insert(entry));
        assert(after.costs == book.costs.insert(to, next));
        assert(after.previous == book.previous.insert(to, e.coord));
        assert(after.frontier.contains(entry));
        assert(queued(after, to));
        assert forall|x: QueueEntry| #[trigger] after.frontier.contains(x) implies x == entry
            || book.frontier.contains(x) by {}
        assert(distinct(after));
        assert forall|x: QueueEntry| #[trigger] after.frontier.contains(x) implies entry_ok(
            after,
            goal,
            radius,
            x,
        ) by {
            if x != entry {
                assert(book.frontier.contains(x));
            }
        }
        assert forall|n: Coord| #[trigger] after.costs.contains_key(n) implies {
            &&& queued(after, n) || in_hand(after, Some(e), n) || done(
                grid,
                turfs,
                goal,
                radius,
                after,
                n,
            )
            &&& n == grid.start || after.previous.contains_key(n)
            &&& comparable(n, goal)
            &&& grid.max_range > 0 ==> comparable(n, grid.start)
        } by {
            if n != to {
                assert(book.costs.contains_key(n));
                if queued(book, n) {
                    let x = choose|x: QueueEntry| #[trigger]
                        book.frontier.contains(x) && x.coord == n && x.cost == book.costs[n];
                    assert(after.frontier.contains(x));
                } else if done(grid, turfs, goal, radius, book, n) {
                    assert(done(grid, turfs, goal, radius, after, n));
                }
            }
        }
        assert forall|n: Coord| #[trigger] after.previous.contains_key(n) implies reached(
            grid,
            turfs,
            after,
            n,
        ) by {
            if n == to {
                assert(grid.walks_to(turfs, e.coord, to, cost as nat));
                assert(after.costs[e.coord] == book.costs[e.coord]);
                assert(after.previous[to] == e.coord);
                assert(after.costs[e.coord] + cost as nat <= after.costs[to]);
            } else {
                assert(book.previous.contains_key(n));
                assert(reached(grid, turfs, book, n));
                let p = book.previous[n];
                let c = choose|c: nat| #[trigger]
                    grid.walks_to(turfs, p, n, c) && book.costs[p] + c <= book.costs[n];
                assert(after.previous[n] == p);
                assert(after.costs[n] == book.costs[n]);
                assert(after.costs.contains_key(p) && after.costs[p] <= book.costs[p]);
                assert(grid.walks_to(turfs, p, n, c) && after.costs[p] + c <= after.costs[n]);
            }
        }
        assert(sound(grid, turfs, goal, radius, after, Some(e)));
    }
}

/// Offering successors never makes a turf unknown or dearer.
proof fn lemma_offers_only_lower(
    book: Book,
    goal: Coord,
    radius: int,
    e: QueueEntry,
    out: Seq<(Coord, u32)>,
    count: nat,
)
    requires
        count <= out.len(),
        forall|i: int| 0 <= i < out.len() ==> e.cost + (#[trigger] out[i]).1 <= u32::MAX,
    ensures
        ({
            let after = offered(book, goal, radius, e, out, count);
            forall|n: Coord| #[trigger]
                book.costs.contains_key(n) ==> after.costs.contains_key(n) && after.costs[n]
                    <= book.costs[n]
        }),
    decreases count,
{
    if count > 0 {
        lemma_offers_only_lower(book, goal, radius, e, out, (count - 1) as nat);
        assert(e.cost + out[count - 1].1 <= u32::MAX);
    }
}

/// Offering successors one after the other keeps the book sound.
proof fn lemma_offered(
    grid: Grid,
    turfs: Turfs,
    goal: Coord,
    radius: int,
    book: Book,
    e: QueueEntry,
    out: Seq<(Coord, u32)>,
    count: nat,
)
    requires
        sound(grid, turfs, goal, radius, book, Some(e)),
        count <= out.len(),
        book.sequence + count <= u64::MAX,
        forall|i: int|
            0 <= i < out.len() ==> {
                &&& grid.walks_to(turfs, e.coord, (#[trigger] out[i]).0, out[i].1 as nat)
                &&& grid.max_range > 0 ==> comparable(out[i].0, grid.start)
                &&& offer_fits(book, goal, radius, e, out[i])
            },
    ensures
        ({
            let after = offered(book, goal, radius, e, out, count);
            &&& sound(grid, turfs, goal, radius, after, Some(e))
            &&& forall|i: int|
                0 <= i < count ==> after.costs.contains_key((#[trigger] out[i]).0)
                    && after.costs[out[i].0] <= e.cost + out[i].1
            &&& book.sequence <= after.sequence <= book.sequence + count
        }),
    decreases count,
{
    if count > 0 {
        lemma_offers_only_lower(book, goal, radius, e, out, (count - 1) as nat);
        lemma_offered(grid, turfs, goal, radius, book, e, out, (count - 1) as nat);
        let before = offered(book, goal, radius, e, out, (count - 1) as nat);
        let (to, cost) = out[count - 1];
        assert(out[count - 1] == (to, cost));
        lemma_offer_one(grid, turfs, goal, radius, before, e, to, cost);
        reveal_with_fuel(offered, 2);
        assert(seq![(to, cost)][0] == (to, cost));
        assert(offered(before, goal, radius, e, seq![(to, cost)], 1) == offered(
            book,
            goal,
            radius,
            e,
            out,
            count,
        ));
    }
}

/// Once all successors have been offered the search is through with the entry.
proof fn lemma_close(
    grid: Grid,
    turfs: Turfs,
    goal: Coord,
    radius: int,
    book: Book,
    e: QueueEntry,
    out: Seq<(Coord, u32)>,
)
    requires
        sound(grid, turfs, goal, radius, book, Some(e)),
        grid.successors_of(turfs, e.coord) == Ok::<Seq<(Coord, u32)>, Coord>(out),
        forall|i: int|
            0 <= i < out.len() ==> book.costs.contains_key((#[trigger] out[i]).0)
                && book.costs[out[i].0] <= e.cost + out[i].1,
    ensures
        sound(grid, turfs, goal, radius, book, None),
{
    assert(done(grid, turfs, goal, radius, book, e.coord));
    assert forall|n: Coord| #[trigger] book.costs.contains_key(n) implies queued(book, n) || in_hand(
        book,
        None,
        n,
    ) || done(grid, turfs, goal, radius, book, n) by {
        if in_hand(book, Some(e), n) {
            assert(n == e.coord);
        }
    }
}

/// Taking an entry out of the frontier keeps the book sound, if the entry is stale or stays in
/// hand.
proof fn lemma_take(
    grid: Grid,
    turfs: Turfs,
    goal: Coord,
    radius: int,
    book: Book,
    e: QueueEntry,
)
    requires
        sound(grid, turfs, goal, radius, book, None),
        book.frontier.contains(e),
    ensures
        ({
            let after = Book { frontier: book.frontier.remove(e), ..book };
            &&& book.costs[e.coord] != e.cost ==> sound(grid, turfs, goal, radius, after, None)
            &&& book.costs[e.coord] == e.cost && chebyshev(e.coord, goal) > radius ==> sound(
                grid,
                turfs,
                goal,
                radius,
                after,
                Some(e),
            )
        }),
{
    let after = Book { frontier: book.frontier.remove(e), ..book };
    let current = if book.costs[e.coord] == e.cost {
        Some(e)
    } else {
        None
    };
    assert forall|x: QueueEntry| #[trigger] after.frontier.contains(x) implies entry_ok(
        after,
        goal,
        radius,
        x,
    ) by {
        assert(book.frontier.contains(x));
    }
    assert forall|x: QueueEntry| #[trigger]
        after.frontier.contains(x) implies book.frontier.contains(x) by {}
    assert(distinct(after));
    assert forall|n: Coord| #[trigger] after.costs.contains_key(n) implies queued(after, n)
        || in_hand(after, current, n) || done(grid, turfs, goal, radius, after, n) by {
        assert(book.costs.contains_key(n));
        if queued(book, n) {
            let x = choose|x: QueueEntry| #[trigger]
                book.frontier.contains(x) && x.coord == n && x.cost == book.costs[n];
            if x != e {
                assert(after.frontier.contains(x));
            }
        } else {
            assert(done(grid, turfs, goal, radius, book, n));
            assert(done(grid, turfs, goal, radius, after, n));
        }
    }
    assert forall|n: Coord| #[trigger] after.previous.contains_key(n) implies reached(
        grid,
        turfs,
        after,
        n,
    ) by {
        assert(reached(grid, turfs, book, n));
        let p = book.previous[n];
        let c = choose|c: nat| #[trigger]
            grid.walks_to(turfs, p, n, c) && book.costs[p] + c <= book.costs[n];
        assert(grid.walks_to(turfs, p, n, c) && after.costs[p] + c <= after.costs[n]);
    }
}

/// Looking up another turf keeps the book sound.
proof fn lemma_learn(
    grid: Grid,
    known: Turfs,
    world: Turfs,
    goal: Coord,
    radius: int,
    book: Book,
    current: Option<QueueEntry>,
)
    requires
        sound(grid, known, goal, radius, book, current),
        known.submap_of(world),
    ensures
        sound(grid, world, goal, radius, book, current),
{
    assert(known.contains_key(grid.start) ==> world.contains_key(grid.start) && world[grid.start]
        == known[grid.start]);
    assert forall|n: Coord| #[trigger] book.costs.contains_key(n) implies queued(book, n) || in_hand(
        book,
        current,
        n,
    ) || done(grid, world, goal, radius, book, n) by {
        if done(grid, known, goal, radius, book, n) {
            law_more_turfs_keep_successors(grid, known, world, n);
        }
    }
    assert forall|n: Coord| #[trigger] book.previous.contains_key(n) implies reached(
        grid,
        world,
        book,
        n,
    ) by {
        assert(reached(grid, known, book, n));
        let p = book.previous[n];
        let c = choose|c: nat| #[trigger]
            grid.walks_to(known, p, n, c) && book.costs[p] + c <= book.costs[n];
        law_more_turfs_keep_successors(grid, known, world, p);
        assert(grid.walks_to(world, p, n, c));
    }
}

/// Rules alone decide about soundness, not what a grid has looked up itself.
proof fn lemma_same_rules_sound(
    a: Grid,
    b: Grid,
    turfs: Turfs,
    goal: Coord,
    radius: int,
    book: Book,
    current: Option<QueueEntry>,
)
    requires
        a.same_rules(b),
        sound(a, turfs, goal, radius, book, current),
    ensures
        sound(b, turfs, goal, radius, book, current),
{
    assert forall|n: Coord|
        a.successors_of(turfs, n) == b.successors_of(turfs, n) && a.occupiable(turfs, n)
            == b.occupiable(turfs, n) by {
        lemma_same_rules_same_successors(a, b, turfs, n);
    }
    assert forall|n: Coord| #[trigger] book.costs.contains_key(n) implies queued(book, n) || in_hand(
        book,
        current,
        n,
    ) || done(b, turfs, goal, radius, book, n) by {
        lemma_same_rules_same_successors(a, b, turfs, n);
        if done(a, turfs, goal, radius, book, n) {
            assert(done(b, turfs, goal, radius, book, n));
        }
    }
    assert forall|n: Coord| #[trigger] book.previous.contains_key(n) implies reached(
        b,
        turfs,
        book,
        n,
    ) by {
        assert(reached(a, turfs, book, n));
        let p = book.previous[n];
        lemma_same_rules_same_successors(a, b, turfs, p);
        let c = choose|c: nat| #[trigger]
            a.walks_to(turfs, p, n, c) && book.costs[p] + c <= book.costs[n];
        assert(b.walks_to(turfs, p, n, c));
    }
}

/// Best known costs as natural numbers.
spec fn plain_costs(book: Book) -> Map<Coord, nat> {
    book.costs.map_values(|c: u32| c as nat)
}

/// The octile estimate as a natural number.
pub open spec fn octile_estimate(goal: Coord, radius: int) -> spec_fn(Coord) -> nat {
    |n: Coord| octile_to_range(n, goal, radius) as nat
}

/// The target region.
pub open spec fn target_region(goal: Coord, radius: int) -> spec_fn(Coord) -> bool {
    |n: Coord| chebyshev(n, goal) <= radius
}

/// The octile estimate never exceeds what a walk on the grid to the target region costs.
pub proof fn law_octile_estimate_is_admissible(
    grid: Grid,
    turfs: Turfs,
    goal: Coord,
    radius: int,
)
    ensures
        admissible(
            grid.edges(turfs),
            octile_estimate(goal, radius),
            target_region(goal, radius),
        ),
{
    let edge = grid.edges(turfs);
    let estimate = octile_estimate(goal, radius);
    let target = target_region(goal, radius);
    assert forall|n: Coord| #[trigger] target(n) implies estimate(n) == 0 by {
        law_estimate_is_zero_in_range(n, goal, radius);
    }
    assert forall|a: Coord, b: Coord, c: nat| #[trigger] edge(a, b, c) implies estimate(a) <= c
        + estimate(b) by {
        law_edges_are_steps(grid, turfs, a, b, c);
        law_step_lowers_estimate_by_at_most_its_cost(a, b, c as int, goal, radius);
        law_estimate_is_zero_in_range(a, goal, radius);
        law_estimate_is_zero_in_range(b, goal, radius);
    }
    lemma_consistent_is_admissible(edge, estimate, target);
}

/// In a sound book with nothing in hand, some queued turf on any route promises no more than the
/// route costs.
proof fn lemma_route_is_promised(
    job: SearchJob,
    book: Book,
    world: Turfs,
    nodes: Seq<Coord>,
    steps: Seq<nat>,
)
    requires
        sound(job.grid, job.grid.cache@, job.goal, job.radius(), book, None),
        job.grid.cache@.submap_of(world),
        job.is_route(world, nodes, steps),
    ensures
        exists|x: QueueEntry| #[trigger]
            book.frontier.contains(x) && x.estimate <= total(steps),
{
    let grid = job.grid;
    let known = job.grid.cache@;
    let goal = job.goal;
    let radius = job.radius();
    let edge = grid.edges(world);
    let estimate = octile_estimate(goal, radius);
    let target = target_region(goal, radius);
    let costs = plain_costs(book);
    let open = |n: Coord| queued(book, n);
    law_octile_estimate_is_admissible(grid, world, goal, radius);
    assert forall|n: Coord| #[trigger] costs.contains_key(n) implies open(n) || (!target(n)
        && followed(edge, costs, None, n)) by {
        assert(book.costs.contains_key(n));
        if !queued(book, n) {
            assert(done(grid, known, goal, radius, book, n));
            law_more_turfs_keep_successors(grid, known, world, n);
            let out = grid.successors_of(known, n)->Ok_0;
            assert forall|m: Coord, c: nat| #[trigger] edge(n, m, c) implies costs.contains_key(m)
                && costs[m] <= costs[n] + c by {
                let i = choose|i: int|
                    0 <= i < out.len() && (#[trigger] out[i]).0 == m && out[i].1 == c;
                assert(book.costs.contains_key(out[i].0));
            }
        }
    }
    lemma_some_open_node_promises(edge, estimate, target, costs, None, open, nodes, steps);
    let n = choose|n: Coord| #[trigger]
        costs.contains_key(n) && open(n) && nodes.contains(n) && costs[n] + estimate(n) <= total(
            steps,
        );
    let x = choose|x: QueueEntry| #[trigger]
        book.frontier.contains(x) && x.coord == n && x.cost == book.costs[n];
    assert(entry_ok(book, goal, radius, x));
    law_estimate_is_zero_in_range(n, goal, radius);
    assert(book.frontier.contains(x) && x.estimate <= total(steps));
}

/// A sound book with nothing queued and nothing in hand leaves no route.
proof fn lemma_exhausted(job: SearchJob, book: Book)
    requires
        sound(job.grid, job.grid.cache@, job.goal, job.radius(), book, None),
        book.frontier == Multiset::<QueueEntry>::empty(),
    ensures
        job.hopeless(),
{
    assert forall|world: Turfs, nodes: Seq<Coord>, steps: Seq<nat>|
        job.grid.cache@.submap_of(world) implies !(#[trigger] job.is_route(
        world,
        nodes,
        steps,
    )) by {
        if job.is_route(world, nodes, steps) {
            lemma_route_is_promised(job, book, world, nodes, steps);
            let x = choose|x: QueueEntry| #[trigger]
                book.frontier.contains(x) && x.estimate <= total(steps);
            assert(false);
        }
    }
}

/// A start that cannot be occupied leaves no route.
proof fn lemma_stillborn(job: SearchJob)
    requires
        job.grid.occupiable(job.grid.cache@, job.grid.start) == Ok::<Option<TurfInfo>, Coord>(None),
    ensures
        job.hopeless(),
{
    let known = job.grid.cache@;
    let start = job.grid.start;
    assert forall|world: Turfs, nodes: Seq<Coord>, steps: Seq<nat>|
        known.submap_of(world) implies !(#[trigger] job.is_route(world, nodes, steps)) by {
        assert(known.contains_key(start) ==> world.contains_key(start) && world[start]
            == known[start]);
    }
}

/// Costs rise along a walk by no less than its edges cost.
proof fn lemma_costs_rise(costs: Map<Coord, u32>, nodes: Seq<Coord>, steps: Seq<nat>)
    requires
        nodes.len() == steps.len() + 1,
        forall|i: int|
            0 <= i < steps.len() ==> costs[nodes[i]] + #[trigger] steps[i] <= costs[nodes[i + 1]],
    ensures
        costs[nodes[0]] + total(steps) <= costs[nodes.last()],
    decreases steps.len(),
{
    if steps.len() > 0 {
        let rest = nodes.drop_first();
        let tail = steps.drop_first();
        assert forall|i: int| 0 <= i < tail.len() implies costs[rest[i]] + #[trigger] tail[i]
            <= costs[rest[i + 1]] by {
            assert(costs[nodes[i + 1]] + steps[i + 1] <= costs[nodes[i + 2]]);
        }
        lemma_costs_rise(costs, rest, tail);
        assert(costs[nodes[0]] + steps[0] <= costs[nodes[1]]);
        assert(rest.last() == nodes.last());
    }
}

/// The recorded predecessors of a visited turf form a walk from the start that costs no more than
/// what is written down for the turf.
proof fn lemma_path_is_walk(
    grid: Grid,
    turfs: Turfs,
    goal: Coord,
    radius: int,
    book: Book,
    path: Seq<Coord>,
    end: Coord,
) -> (steps: Seq<nat>)
    requires
        sound(grid, turfs, goal, radius, book, None),
        book.costs.contains_key(end),
        follows_previous(book.previous, path, end),
    ensures
        is_walk(grid.edges(turfs), path, steps),
        path[0] == grid.start,
        total(steps) <= book.costs[end],
        forall|i: int| 0 <= i < path.len() ==> book.costs.contains_key(#[trigger] path[i]),
{
    let steps = Seq::new(
        (path.len() - 1) as nat,
        |i: int|
            choose|c: nat| #[trigger]
                grid.walks_to(turfs, path[i], path[i + 1], c) && book.costs[path[i]] + c
                    <= book.costs[path[i + 1]],
    );
    assert forall|i: int| 0 <= i < steps.len() implies {
        &&& grid.walks_to(turfs, path[i], path[i + 1], #[trigger] steps[i])
        &&& book.costs[path[i]] + steps[i] <= book.costs[path[i + 1]]
        &&& book.costs.contains_key(path[i])
    } by {
        assert(book.previous.contains_key(path[i + 1]) && book.previous[path[i + 1]] == path[i]);
        assert(reached(grid, turfs, book, path[i + 1]));
        let c = choose|c: nat| #[trigger]
            grid.walks_to(turfs, path[i], path[i + 1], c) && book.costs[path[i]] + c
                <= book.costs[path[i + 1]];
        assert(steps[i] == c);
    }
    assert forall|i: int| 0 <= i < path.len() implies book.costs.contains_key(
        #[trigger] path[i],
    ) by {
        if i < path.len() - 1 {
            assert(grid.walks_to(turfs, path[i], path[i + 1], steps[i]));
        }
    }
    assert(is_walk(grid.edges(turfs), path, steps));
    assert(book.costs.contains_key(path[0]));
    assert forall|i: int| 0 <= i < steps.len() implies book.costs[path[i]] + #[trigger] steps[i]
        <= book.costs[path[i + 1]] by {
        assert(grid.walks_to(turfs, path[i], path[i + 1], steps[i]));
    }
    lemma_costs_rise(book.costs, path, steps);
    steps
}

/// The first fresh entry inside the target region ends a cheapest route.
proof fn lemma_found(job: SearchJob, book: Book, e: QueueEntry, path: Seq<Coord>)
    requires
        sound(job.grid, job.grid.cache@, job.goal, job.radius(), book, None),
        book.frontier.contains(e),
        forall|x: QueueEntry| #[trigger]
            book.frontier.contains(x) ==> !rank_below(x.rank(), e.rank()),
        e.cost == book.costs[e.coord],
        job.in_target(e.coord),
        follows_previous(book.previous, path, e.coord),
    ensures
        job.cheapest(path),
        path[0] == job.grid.start,
        path.last() == e.coord,
        forall|i: int|
            0 <= i < path.len() && job.grid.max_range > 0 ==> comparable(
                #[trigger] path[i],
                job.grid.start,
            ),
{
    let known = job.grid.cache@;
    assert(entry_ok(book, job.goal, job.radius(), e));
    law_estimate_is_zero_in_range(e.coord, job.goal, job.radius());
    let steps = lemma_path_is_walk(
        job.grid,
        known,
        job.goal,
        job.radius(),
        book,
        path,
        e.coord,
    );
    assert(job.is_route(known, path, steps));
    assert forall|world: Turfs, nodes: Seq<Coord>, others: Seq<nat>| #[trigger]
        job.is_route(world, nodes, others) && known.submap_of(world) implies total(steps) <= total(
        others,
    ) by {
        lemma_route_is_promised(job, book, world, nodes, others);
        let x = choose|x: QueueEntry| #[trigger]
            book.frontier.contains(x) && x.estimate <= total(others);
        assert(e.estimate <= x.estimate);
    }
}

impl SearchJob {
    /// Whether another state of this job differs in nothing that a move changes.
    pub open spec fn untouched(self, after: SearchJob) -> bool {
        &&& after.book() == self.book()
        &&& after.current == self.current
        &&& after.initialized == self.initialized
        &&& after.grid.cache@ == self.grid.cache@
    }

    /// Whether another state of this job only adds the data of a turf, where none was known.
    pub open spec fn told(self, coord: Coord, info: Option<TurfInfo>, after: SearchJob) -> bool {
        &&& after.same_settings(self)
        &&& after.book() == self.book()
        &&& after.current == self.current
        &&& after.initialized == self.initialized
        &&& after.grid.cache@ == if self.grid.cache@.contains_key(coord) {
            self.grid.cache@
        } else {
            self.grid.cache@.insert(coord, info)
        }
    }

    /// A move that met an unknown turf: it is read from the published values where they settle
    /// it, and asked for otherwise.
    pub open spec fn learned(
        self,
        published: NavPassCache,
        missing: Coord,
        after: SearchJob,
        progress: JobProgress,
    ) -> bool {
        match published_info(
            published,
            (missing.0, missing.1, self.grid.z),
            self.grid.is_flying,
            false,
        ) {
            Some(info) => {
                &&& progress is Working
                &&& after.book() == self.book()
                &&& after.current == self.current
                &&& after.initialized == self.initialized
                &&& after.grid.cache@ == self.grid.cache@.insert(missing, Some(info))
            },
            None => progress == JobProgress::NeedsTurf(missing) && self.untouched(after),
        }
    }

    /// The first move: the start is queued at no cost, unless it cannot be occupied.
    pub open spec fn opened(
        self,
        published: NavPassCache,
        after: SearchJob,
        progress: JobProgress,
    ) -> bool {
        match self.grid.occupiable(self.grid.cache@, self.grid.start) {
            Err(missing) => self.learned(published, missing, after, progress),
            Ok(None) => {
                &&& progress is NoPath
                &&& after.book() == self.book()
                &&& after.current is None
                &&& after.initialized
                &&& after.grid.cache@ == self.grid.cache@
            },
            Ok(Some(_)) => {
                &&& progress is Working
                &&& after.book() == pushed(
                    self.book(),
                    self.goal,
                    self.radius(),
                    self.grid.start,
                    0,
                )
                &&& after.current is None
                &&& after.initialized
                &&& after.grid.cache@ == self.grid.cache@
            },
        }
    }

    /// Whether an entry is the one to take out of the frontier.
    pub open spec fn is_next(self, e: QueueEntry) -> bool {
        &&& self.frontier@.contains(e)
        &&& forall|x: QueueEntry| #[trigger]
            self.frontier@.contains(x) ==> !rank_below(x.rank(), e.rank())
    }

    /// A move that takes out the entry with the lowest rank: a stale one is dropped, one inside
    /// the target region ends the search, any other is kept in hand.
    pub open spec fn took(self, e: QueueEntry, after: SearchJob, progress: JobProgress) -> bool {
        &&& after.book() == (Book { frontier: self.frontier@.remove(e), ..self.book() })
        &&& after.initialized
        &&& after.grid.cache@ == self.grid.cache@
        &&& if self.costs@[e.coord] != e.cost {
            progress is Working && after.current is None
        } else if self.in_target(e.coord) {
            &&& progress matches JobProgress::Found(path) && follows_previous(
                self.previous@,
                path@,
                e.coord,
            )
            &&& after.current is None
        } else {
            progress is Working && after.current == Some(e)
        }
    }

    /// A move that offers the successors of the entry in hand.
    pub open spec fn expanded(
        self,
        published: NavPassCache,
        e: QueueEntry,
        after: SearchJob,
        progress: JobProgress,
    ) -> bool {
        match self.grid.successors_of(self.grid.cache@, e.coord) {
            Err(missing) => self.learned(published, missing, after, progress),
            Ok(out) => {
                &&& progress is Working
                &&& after.book() == offered(
                    self.book(),
                    self.goal,
                    self.radius(),
                    e,
                    out,
                    out.len(),
                )
                &&& after.current is None
                &&& after.initialized
                &&& after.grid.cache@ == self.grid.cache@
            },
        }
    }

    /// What one move does.
    pub open spec fn moved(
        self,
        published: NavPassCache,
        elapsed: u128,
        after: SearchJob,
        progress: JobProgress,
    ) -> bool {
        if !self.initialized {
            self.opened(published, after, progress)
        } else {
            match self.current {
                Some(e) => self.expanded(published, e, after, progress),
                None => if elapsed >= SLICE_BUDGET {
                    progress is InProgress && self.untouched(after)
                } else if self.frontier@ == Multiset::<QueueEntry>::empty() {
                    progress is NoPath && self.untouched(after)
                } else {
                    exists|e: QueueEntry| #[trigger]
                        self.is_next(e) && self.took(e, after, progress)
                },
            }
        }
    }

    /// Tests whether the numbers that the next move computes stay within their machine range.
    pub fn room_left(&self) -> (ok: bool)
        ensures
            ok == self.has_room(),
    {
        match self.current {
            Some(e) => self.grid.has_room_at(e.coord) && match self.grid.successors(e.coord) {
                Ok(out) => self.can_offer(e, &out),
                Err(_) => true,
            },
            None => self.initialized || match self.grid.can_occupy(self.grid.start) {
                Ok(true) => are_comparable(self.grid.start, self.goal) && octile_fits(
                    self.grid.start,
                    self.goal,
                    self.min_target_distance,
                ) && self.sequence < u64::MAX,
                _ => true,
            },
        }
    }

    /// Tests whether the numbers computed for the successors of an entry stay within their machine
    /// range.
    fn can_offer(&self, e: QueueEntry, out: &Vec<(Coord, u32)>) -> (ok: bool)
        ensures
            ok == {
                &&& self.sequence + out@.len() <= u64::MAX
                &&& forall|i: int|
                    0 <= i < out@.len() ==> offer_fits(
                        self.book(),
                        self.goal,
                        self.radius(),
                        e,
                        #[trigger] out@[i],
                    )
            },
    {
        if out.len() as u64 > u64::MAX - self.sequence {
            return false;
        }
        let mut at: usize = 0;
        while at < out.len()
            invariant
                at <= out@.len(),
                self.sequence + out@.len() <= u64::MAX,
                forall|i: int|
                    0 <= i < at ==> offer_fits(
                        self.book(),
                        self.goal,
                        self.radius(),
                        e,
                        #[trigger] out@[i],
                    ),
            decreases out@.len() - at,
        {
            let (next, movement_cost) = out[at];
            assert(out@[at as int] == (next, movement_cost));
            if movement_cost > u32::MAX - e.cost {
                return false;
            }
            let next_cost: u32 = e.cost + movement_cost;
            let queues: bool = match self.costs.get(next) {
                Some(known) => next_cost < *known,
                None => true,
            };
            assert(queues == better(self.book(), e, out@[at as int]));
            if queues {
                if !are_comparable(next, self.goal) || !octile_fits(
                    next,
                    self.goal,
                    self.min_target_distance,
                ) {
                    return false;
                }
                let remaining: u32 = heuristic_to_target_range(
                    next,
                    self.goal,
                    self.min_target_distance,
                );
                if remaining > u32::MAX - next_cost {
                    return false;
                }
            }
            at = at + 1;
        }
        true
    }

    /// Takes note of the time at which the job was started or resumed.
    pub fn touch(&mut self, now: u128)
        ensures
            final(self).same_settings(*old(self)),
            old(self).untouched(*final(self)),
            old(self).frontier == final(self).frontier,
            old(self).wf() ==> final(self).wf(),
            final(self).last_touched == now,
    {
        self.last_touched = now;
    }

    /// Takes the data of a turf that was asked for.
    pub fn supply(&mut self, coord: Coord, info: Option<TurfInfo>)
        ensures
            old(self).wf() ==> final(self).wf(),
            old(self).told(coord, info, *final(self)),
            final(self).last_touched == old(self).last_touched,
    {
        self.grid.remember(coord, info);
        proof {
            if old(self).wf() {
                lemma_learning_keeps_wf(*old(self), *self);
            }
        }
    }

    /// Meets an unknown turf.
    fn meet(&mut self, published: &NavPassCache, missing: Coord) -> (progress: JobProgress)
        requires
            old(self).wf(),
            !old(self).grid.cache@.contains_key(missing),
        ensures
            final(self).wf(),
            final(self).same_settings(*old(self)),
            final(self).last_touched == old(self).last_touched,
            old(self).grid.cache@.submap_of(final(self).grid.cache@),
            old(self).learned(*published, missing, *final(self), progress),
    {
        match self.grid.cached_info(published, missing) {
            Some(info) => {
                self.supply(missing, Some(info));
                JobProgress::Working
            },
            None => JobProgress::NeedsTurf(missing),
        }
    }

    /// Makes the first move.
    fn open(&mut self, published: &NavPassCache) -> (progress: JobProgress)
        requires
            old(self).wf(),
            old(self).has_room(),
            !old(self).initialized,
        ensures
            final(self).wf(),
            final(self).same_settings(*old(self)),
            final(self).last_touched == old(self).last_touched,
            old(self).grid.cache@.submap_of(final(self).grid.cache@),
            old(self).opened(*published, *final(self), progress),
            progress is NoPath ==> final(self).hopeless(),
            progress !is Found,
    {
        match self.grid.can_occupy(self.grid.start) {
            Err(missing) => self.meet(published, missing),
            Ok(false) => {
                self.initialized = true;
                proof {
                    lemma_stillborn(*self);
                }
                JobProgress::NoPath
            },
            Ok(true) => {
                self.initialized = true;
                let start = self.grid.start;
                self.push(start, 0);
                proof {
                    lemma_opened(*self, old(self).book());
                }
                JobProgress::Working
            },
        }
    }

    /// Takes the next entry out of the frontier.
    fn take(&mut self) -> (progress: JobProgress)
        requires
            old(self).wf(),
            old(self).initialized,
            old(self).current is None,
        ensures
            progress !is Found ==> final(self).wf(),
            final(self).same_settings(*old(self)),
            final(self).last_touched == old(self).last_touched,
            old(self).grid.cache@.submap_of(final(self).grid.cache@),
            if old(self).frontier@ == Multiset::<QueueEntry>::empty() {
                progress is NoPath && old(self).untouched(*final(self))
            } else {
                exists|e: QueueEntry| #[trigger]
                    old(self).is_next(e) && old(self).took(e, *final(self), progress)
            },
            progress is NoPath ==> final(self).hopeless(),
            progress matches JobProgress::Found(path) ==> {
                &&& final(self).cheapest(path@)
                &&& final(self).grid.comparable_path(path@)
            },
    {
        let ghost before = *self;
        let entry = match self.frontier.pop() {
            None => {
                proof {
                    if blank(before.book()) && self.grid.occupiable(
                        self.grid.cache@,
                        self.grid.start,
                    ) == Ok::<Option<TurfInfo>, Coord>(None) {
                        lemma_stillborn(*self);
                    } else {
                        lemma_exhausted(*self, before.book());
                    }
                }
                return JobProgress::NoPath;
            },
            Some(entry) => entry,
        };
        proof {
            assert(before.is_next(entry));
            assert(sound(
                self.grid,
                self.grid.cache@,
                self.goal,
                self.radius(),
                before.book(),
                None,
            ));
            assert(entry_ok(before.book(), self.goal, self.radius(), entry));
            lemma_take(
                self.grid,
                self.grid.cache@,
                self.goal,
                self.radius(),
                before.book(),
                entry,
            );
        }
        let fresh: bool = match self.costs.get(entry.coord) {
            Some(best) => *best == entry.cost,
            None => false,
        };
        if !fresh {
            // A cheaper route was queued after this entry.
            assert(before.took(entry, *self, JobProgress::Working));
            return JobProgress::Working;
        }
        if chebyshev_distance(entry.coord, self.goal) <= self.min_target_distance {
            // Reaching the requested radius is sufficient; the destination itself need not be
            // occupied.
            proof {
                lemma_descending(
                    self.grid,
                    self.grid.cache@,
                    self.goal,
                    self.radius(),
                    before.book(),
                );
            }
            proof {
                let way = lemma_way_back(before.book(), entry.coord);
            }
            let path = self.reconstruct(entry.coord);
            proof {
                lemma_found(*self, before.book(), entry, path@);
                assert(before.took(entry, *self, JobProgress::Found(path)));
            }
            return JobProgress::Found(path);
        }
        self.current = Some(entry);
        assert(before.took(entry, *self, JobProgress::Working));
        JobProgress::Working
    }

    /// Offers the successors of the entry in hand.
    fn expand(&mut self, published: &NavPassCache, entry: QueueEntry) -> (progress: JobProgress)
        requires
            old(self).wf(),
            old(self).has_room(),
            old(self).initialized,
            old(self).current == Some(entry),
        ensures
            final(self).wf(),
            final(self).same_settings(*old(self)),
            final(self).last_touched == old(self).last_touched,
            old(self).grid.cache@.submap_of(final(self).grid.cache@),
            old(self).expanded(*published, entry, *final(self), progress),
            progress !is Found && progress !is NoPath,
    {
        let out = match self.grid.successors(entry.coord) {
            Err(missing) => {
                proof {
                    lemma_missing_is_unknown(self.grid, self.grid.cache@, entry.coord);
                }
                return self.meet(published, missing);
            },
            Ok(out) => out,
        };
        let ghost before = self.book();
        let ghost turfs = self.grid.cache@;
        let ghost goal = self.goal;
        let ghost radius = self.radius();
        proof {
            lemma_offers_fit(*self, entry, out@);
        }
        let mut at: usize = 0;
        while at < out.len()
            invariant
                at <= out@.len(),
                self.frontier.wf(),
                self.same_settings(*old(self)),
                self.last_touched == old(self).last_touched,
                self.grid == old(self).grid,
                self.initialized,
                self.current == Some(entry),
                goal == self.goal,
                radius == self.radius(),
                before.sequence + out@.len() <= u64::MAX,
                before.sequence == old(self).sequence,
                self.sequence <= before.sequence + at,
                self.book() == offered(before, goal, radius, entry, out@, at as nat),
                forall|i: int|
                    0 <= i < out@.len() ==> offer_fits(
                        before,
                        goal,
                        radius,
                        entry,
                        #[trigger] out@[i],
                    ),
            decreases out@.len() - at,
        {
            let (next, movement_cost) = out[at];
            assert(out@[at as int] == (next, movement_cost));
            proof {
                assert(offer_fits(before, goal, radius, entry, out@[at as int]));
                lemma_offers_only_lower(before, goal, radius, entry, out@, at as nat);
                assert(better(self.book(), entry, out@[at as int]) ==> better(
                    before,
                    entry,
                    out@[at as int],
                ));
            }
            let next_cost: u32 = entry.cost + movement_cost;
            let better: bool = match self.costs.get(next) {
                Some(known) => next_cost < *known,
                None => true,
            };
            if better {
                self.previous.insert(next, entry.coord);
                self.push(next, next_cost);
            }
            at = at + 1;
        }
        self.current = None;
        proof {
            lemma_offered(self.grid, turfs, goal, radius, before, entry, out@, out@.len());
            lemma_close(self.grid, turfs, goal, radius, self.book(), entry, out@);
        }
        JobProgress::Working
    }

    /// Makes one move of the search.
    ///
    /// `elapsed` is the time spent in this slice, in nanoseconds. It is looked at only between
    /// two entries of the frontier; control goes back to the caller before a large search can
    /// monopolize the server tick. What was known of a turf stays as it was.
    pub fn step(&mut self, published: &NavPassCache, elapsed: u128) -> (progress: JobProgress)
        requires
            old(self).wf(),
            old(self).has_room(),
        ensures
            progress !is Found ==> final(self).wf(),
            final(self).same_settings(*old(self)),
            final(self).last_touched == old(self).last_touched,
            old(self).grid.cache@.submap_of(final(self).grid.cache@),
            old(self).moved(*published, elapsed, *final(self), progress),
            progress is NoPath ==> final(self).hopeless(),
            progress matches JobProgress::Found(path) ==> {
                &&& final(self).cheapest(path@)
                &&& final(self).grid.comparable_path(path@)
            },
    {
        if !self.initialized {
            return self.open(published);
        }
        match self.current {
            Some(entry) => self.expand(published, entry),
            None => if elapsed >= SLICE_BUDGET {
                JobProgress::InProgress
            } else {
                self.take()
            },
        }
    }
}

/// Whether two moves came to the same.
pub open spec fn same_progress(a: JobProgress, b: JobProgress) -> bool {
    match a {
        JobProgress::InProgress => b is InProgress,
        JobProgress::Working => b is Working,
        JobProgress::NeedsTurf(coord) => b == JobProgress::NeedsTurf(coord),
        JobProgress::Found(path) => b matches JobProgress::Found(other) && other@ == path@,
        JobProgress::NoPath => b is NoPath,
    }
}

/// There is one way back along the recorded predecessors.
proof fn lemma_one_way_back(
    previous: Map<Coord, Coord>,
    a: Seq<Coord>,
    b: Seq<Coord>,
    end: Coord,
)
    requires
        follows_previous(previous, a, end),
        follows_previous(previous, b, end),
    ensures
        a == b,
    decreases a.len(),
{
    assert(a[a.len() - 1] == end && b[b.len() - 1] == end);
    if a.len() > 1 && b.len() > 1 {
        let before = previous[end];
        assert(a[a.len() - 1 - 1] == before && b[b.len() - 1 - 1] == before);
        assert(follows_previous(previous, a.drop_last(), before));
        assert(follows_previous(previous, b.drop_last(), before));
        lemma_one_way_back(previous, a.drop_last(), b.drop_last(), before);
        assert(a == a.drop_last().push(end));
        assert(b == b.drop_last().push(end));
    } else {
        assert(a.len() == 1 && b.len() == 1);
        assert(a =~= b);
    }
}

/// Between slices nothing changes: a move that yields leaves the search as it was, and a move only
/// yields where the slice is used up.
pub proof fn law_yielding_changes_nothing(
    before: SearchJob,
    published: NavPassCache,
    elapsed: u128,
    after: SearchJob,
    progress: JobProgress,
)
    requires
        before.moved(published, elapsed, after, progress),
        progress is InProgress,
    ensures
        before.untouched(after),
        elapsed >= SLICE_BUDGET,
{
}

/// A search says that there is no path only where no route is left.
pub proof fn law_no_path_leaves_no_route(
    before: SearchJob,
    published: NavPassCache,
    elapsed: u128,
    after: SearchJob,
    progress: JobProgress,
)
    requires
        before.wf(),
        before.moved(published, elapsed, after, progress),
        progress is NoPath,
    ensures
        before.hopeless(),
{
    if before.initialized && sound(
        before.grid,
        before.grid.cache@,
        before.goal,
        before.radius(),
        before.book(),
        before.current,
    ) {
        lemma_exhausted(before, before.book());
    } else {
        lemma_stillborn(before);
    }
}

/// A path that a search finds is a cheapest route.
pub proof fn law_found_path_is_cheapest(
    before: SearchJob,
    published: NavPassCache,
    elapsed: u128,
    after: SearchJob,
    path: Vec<Coord>,
)
    requires
        before.wf(),
        before.moved(published, elapsed, after, JobProgress::Found(path)),
    ensures
        before.cheapest(path@),
{
    let e = choose|e: QueueEntry| #[trigger]
        before.is_next(e) && before.took(e, after, JobProgress::Found(path));
    lemma_found(before, before.book(), e, path@);
}

/// Two searches that agree in their settings and in all that a move changes make the same move,
/// as long as neither yields: when the slice began and how long it has lasted has no influence.
pub proof fn law_same_search_makes_the_same_move(
    a: SearchJob,
    b: SearchJob,
    published: NavPassCache,
    a_elapsed: u128,
    b_elapsed: u128,
    a_after: SearchJob,
    b_after: SearchJob,
    a_progress: JobProgress,
    b_progress: JobProgress,
)
    requires
        a.wf(),
        a.untouched(b),
        b.same_settings(a),
        a.moved(published, a_elapsed, a_after, a_progress),
        b.moved(published, b_elapsed, b_after, b_progress),
        a_elapsed < SLICE_BUDGET || a_progress !is InProgress,
        b_elapsed < SLICE_BUDGET || b_progress !is InProgress,
    ensures
        same_progress(a_progress, b_progress),
        a_after.untouched(b_after),
{
    let known = a.grid.cache@;
    assert(b.costs@ == b.book().costs && b.previous@ == b.book().previous && b.frontier@
        == b.book().frontier);
    if !a.initialized {
        lemma_same_rules_same_successors(a.grid, b.grid, known, a.grid.start);
    } else if let Some(e) = a.current {
        lemma_same_rules_same_successors(a.grid, b.grid, known, e.coord);
    } else if a.frontier@ != Multiset::<QueueEntry>::empty() {
        let x = choose|e: QueueEntry| #[trigger] a.is_next(e) && a.took(e, a_after, a_progress);
        let y = choose|e: QueueEntry| #[trigger] b.is_next(e) && b.took(e, b_after, b_progress);
        assert(a.frontier@.contains(x) && a.frontier@.contains(y));
        assert(!rank_below(x.rank(), y.rank()) && !rank_below(y.rank(), x.rank()));
        assert(x == y);
        if let JobProgress::Found(path) = a_progress {
            if let JobProgress::Found(other) = b_progress {
                lemma_one_way_back(a.previous@, path@, other@, x.coord);
            }
        }
    }
}

/// Whether the given routes are those that the grid finds around the diagonals of a path.
pub open spec fn rechecked(
    grid: Grid,
    nodes: Seq<Coord>,
    routes: Seq<DiagonalRoutes>,
) -> bool {
    forall|i: int|
        0 <= i < routes.len() && diagonal(nodes[i], nodes[i + 1]) ==> grid.routes(
            grid.cache@,
            nodes[i],
            nodes[i + 1],
        ) == Ok::<DiagonalRoutes, Coord>(#[trigger] routes[i])
}

impl SearchJob {
    /// Whether all of a path is rechecked and comes out with the given turfs.
    pub open spec fn hands_out(self, nodes: Seq<Coord>, turfs: Seq<TurfCoords>) -> bool {
        if nodes.len() == 0 {
            turfs.len() == 0
        } else {
            exists|routes: Seq<DiagonalRoutes>|
                {
                    &&& routes.len() == nodes.len() - 1
                    &&& #[trigger] rechecked(self.grid, nodes, routes)
                    &&& expanded(nodes, self.diagonal_handling, routes, routes.len()) matches Some(
                        path,
                    ) && turfs == skipped(path, self.skip_first).map_values(
                        |c: Coord| (c.0, c.1, self.grid.z),
                    )
                }
        }
    }

    /// Whether a diagonal of a path has to be replaced and cannot be.
    pub open spec fn is_stuck(self, nodes: Seq<Coord>) -> bool {
        exists|routes: Seq<DiagonalRoutes>|
            {
                &&& 0 < routes.len() < nodes.len()
                &&& #[trigger] rechecked(self.grid, nodes, routes)
                &&& expanded(nodes, self.diagonal_handling, routes, routes.len()) is None
            }
    }

    /// Whether the recheck of a path meets an unknown turf.
    pub open spec fn asks_for(self, nodes: Seq<Coord>, missing: Coord) -> bool {
        exists|routes: Seq<DiagonalRoutes>|
            {
                let k = routes.len() as int;
                &&& k < nodes.len() - 1
                &&& #[trigger] rechecked(self.grid, nodes, routes)
                &&& expanded(nodes, self.diagonal_handling, routes, routes.len()) is Some
                &&& diagonal(nodes[k], nodes[k + 1])
                &&& self.grid.routes(self.grid.cache@, nodes[k], nodes[k + 1]) == Err::<
                    DiagonalRoutes,
                    Coord,
                >(missing)
            }
    }

    /// What the recheck of a path comes to.
    pub open spec fn rechecks_to(
        self,
        nodes: Seq<Coord>,
        path: Result<Option<Seq<TurfCoords>>, Coord>,
    ) -> bool {
        match path {
            Ok(Some(turfs)) => self.hands_out(nodes, turfs),
            Ok(None) => self.is_stuck(nodes),
            Err(missing) => self.asks_for(nodes, missing),
        }
    }

    /// Rechecks a path and converts it to turfs in the requested shape.
    ///
    /// Each diagonal is rechecked before it is handed out, which also supplies the cardinal step
    /// used where diagonals are to be replaced. There is no path where a diagonal has to be
    /// replaced and cannot be; a turf that is not known yet is named.
    pub fn final_path(&self, nodes: &Vec<Coord>) -> (path: Result<Option<Vec<TurfCoords>>, Coord>)
        requires
            self.grid.comparable_path(nodes@),
        ensures
            self.rechecks_to(
                nodes@,
                match path {
                    Ok(Some(turfs)) => Ok(Some(turfs@)),
                    Ok(None) => Ok(None),
                    Err(missing) => Err(missing),
                },
            ),
    {
        let grid = &self.grid;
        let routes_for = |from: Coord, to: Coord| -> (r: Result<DiagonalRoutes, Coord>)
            requires
                grid.max_range > 0 ==> comparable(from, grid.start) && comparable(to, grid.start),
            ensures
                r == grid.routes(grid.cache@, from, to),
        { grid.diagonal_routes(from, to) };
        let expansion = match expand_diagonals_checked(
            nodes.as_slice(),
            self.diagonal_handling,
            routes_for,
        ) {
            Ok(Some(expansion)) => expansion,
            Ok(None) => {
                proof {
                    let routes = choose|routes: Seq<DiagonalRoutes>|
                        {
                            &&& 0 < routes.len() < nodes@.len()
                            &&& #[trigger] routes_checked(nodes@, routes_for, routes)
                            &&& expanded(
                                nodes@,
                                self.diagonal_handling,
                                routes,
                                routes.len(),
                            ) is None
                        };
                    assert(rechecked(self.grid, nodes@, routes));
                }
                return Ok(None);
            },
            Err(missing) => {
                proof {
                    let routes = choose|routes: Seq<DiagonalRoutes>|
                        {
                            let k = routes.len() as int;
                            &&& k < nodes@.len() - 1
                            &&& #[trigger] routes_checked(nodes@, routes_for, routes)
                            &&& expanded(
                                nodes@,
                                self.diagonal_handling,
                                routes,
                                routes.len(),
                            ) is Some
                            &&& diagonal(nodes@[k], nodes@[k + 1])
                            &&& call_ensures(
                                routes_for,
                                (nodes@[k], nodes@[k + 1]),
                                Err::<DiagonalRoutes, Coord>(missing),
                            )
                        };
                    assert(rechecked(self.grid, nodes@, routes));
                }
                return Err(missing);
            },
        };
        let ghost whole = expansion@;
        proof {
            if nodes@.len() > 0 {
                let routes = choose|routes: Seq<DiagonalRoutes>|
                    {
                        &&& routes.len() == nodes@.len() - 1
                        &&& #[trigger] routes_checked(nodes@, routes_for, routes)
                        &&& expanded(nodes@, self.diagonal_handling, routes, routes.len()) == Some(
                            whole,
                        )
                    };
                assert(rechecked(self.grid, nodes@, routes));
            }
        }
        let rest = apply_skip_first(expansion, self.skip_first);
        let mut turfs: Vec<TurfCoords> = Vec::new();
        let mut at: usize = 0;
        while at < rest.len()
            invariant
                at <= rest@.len(),
                turfs@.len() == at,
                forall|i: int|
                    0 <= i < at ==> #[trigger] turfs@[i] == (
                        rest@[i].0,
                        rest@[i].1,
                        self.grid.z,
                    ),
            decreases rest@.len() - at,
        {
            turfs.push(self.grid.turf_coords(rest[at]));
            at = at + 1;
        }
        assert(turfs@ =~= rest@.map_values(|c: Coord| (c.0, c.1, self.grid.z)));
        Ok(Some(turfs))
    }
}

/// What a search knows stays sound when it learns of another turf.
proof fn lemma_learning_keeps_wf(before: SearchJob, after: SearchJob)
    requires
        before.wf(),
        after.frontier == before.frontier,
        after.book() == before.book(),
        after.current == before.current,
        after.initialized == before.initialized,
        after.goal == before.goal,
        after.min_target_distance == before.min_target_distance,
        after.grid.same_rules(before.grid),
        before.grid.cache@.submap_of(after.grid.cache@),
    ensures
        after.wf(),
{
    let known = before.grid.cache@;
    let world = after.grid.cache@;
    let start = before.grid.start;
    if before.initialized {
        if sound(
            before.grid,
            known,
            before.goal,
            before.radius(),
            before.book(),
            before.current,
        ) {
            lemma_learn(
                before.grid,
                known,
                world,
                before.goal,
                before.radius(),
                before.book(),
                before.current,
            );
            lemma_same_rules_sound(
                before.grid,
                after.grid,
                world,
                before.goal,
                before.radius(),
                before.book(),
                before.current,
            );
        } else {
            assert(known.contains_key(start) ==> world.contains_key(start) && world[start]
                == known[start]);
        }
    }
}

/// The book is sound once the start has been queued.
proof fn lemma_opened(job: SearchJob, before: Book)
    requires
        blank(before),
        before.sequence < u64::MAX,
        job.book() == pushed(before, job.goal, job.radius(), job.grid.start, 0),
        job.current is None,
        job.grid.occupiable(job.grid.cache@, job.grid.start) matches Ok(Some(_)),
        comparable(job.grid.start, job.goal),
        octile_to_range(job.grid.start, job.goal, job.radius()) <= u32::MAX,
    ensures
        sound(
            job.grid,
            job.grid.cache@,
            job.goal,
            job.radius(),
            job.book(),
            job.current,
        ),
{
    let book = job.book();
    let start = job.grid.start;
    law_estimate_is_zero_in_range(start, job.goal, job.radius());
    let entry = QueueEntry {
        coord: start,
        cost: 0,
        estimate: octile_to_range(start, job.goal, job.radius()) as u32,
        sequence: (before.sequence + 1) as u64,
    };
    assert(book.frontier.contains(entry));
    assert(queued(book, start));
    assert forall|x: QueueEntry| #[trigger] book.frontier.contains(x) implies x == entry by {}
}

/// Predecessors cost less.
proof fn lemma_descending(grid: Grid, turfs: Turfs, goal: Coord, radius: int, book: Book)
    requires
        sound(grid, turfs, goal, radius, book, None),
    ensures
        descending(book.costs, book.previous),
{
    assert forall|n: Coord| #[trigger] book.previous.contains_key(n) implies {
        &&& book.costs.contains_key(n)
        &&& book.costs.contains_key(book.previous[n])
        &&& book.costs[book.previous[n]] < book.costs[n]
    } by {
        assert(reached(grid, turfs, book, n));
        let p = book.previous[n];
        let c = choose|c: nat| #[trigger]
            grid.walks_to(turfs, p, n, c) && book.costs[p] + c <= book.costs[n];
        law_edges_are_steps(grid, turfs, p, n, c);
    }
}

/// The recorded predecessors of a turf can be followed back to where they end.
proof fn lemma_way_back(book: Book, end: Coord) -> (path: Seq<Coord>)
    requires
        descending(book.costs, book.previous),
    ensures
        follows_previous(book.previous, path, end),
    decreases book.costs[end],
{
    if book.previous.contains_key(end) {
        let before = lemma_way_back(book, book.previous[end]);
        before.push(end)
    } else {
        seq![end]
    }
}

/// The successors of an entry with room can be offered without leaving the machine range.
proof fn lemma_offers_fit(job: SearchJob, e: QueueEntry, out: Seq<(Coord, u32)>)
    requires
        job.has_room(),
        job.current == Some(e),
        sound(
            job.grid,
            job.grid.cache@,
            job.goal,
            job.radius(),
            job.book(),
            job.current,
        ),
        job.grid.successors_of(job.grid.cache@, e.coord) == Ok::<Seq<(Coord, u32)>, Coord>(out),
    ensures
        job.sequence + out.len() <= u64::MAX,
        forall|i: int|
            0 <= i < out.len() ==> {
                &&& job.grid.walks_to(
                    job.grid.cache@,
                    e.coord,
                    (#[trigger] out[i]).0,
                    out[i].1 as nat,
                )
                &&& job.grid.max_range > 0 ==> comparable(out[i].0, job.grid.start)
                &&& offer_fits(job.book(), job.goal, job.radius(), e, out[i])
            },
{
    assert forall|i: int| 0 <= i < out.len() implies {
        &&& job.grid.walks_to(job.grid.cache@, e.coord, (#[trigger] out[i]).0, out[i].1 as nat)
        &&& job.grid.max_range > 0 ==> comparable(out[i].0, job.grid.start)
        &&& offer_fits(job.book(), job.goal, job.radius(), e, out[i])
    } by {
        let to = out[i].0;
        assert(job.grid.walks_to(job.grid.cache@, e.coord, to, out[i].1 as nat));
        lemma_edges_fit(job.grid, job.grid.cache@, e.coord, to, out[i].1 as nat);
    }
}

/// Returns a list in reverse order.
pub fn reversed<T: Copy>(list: &Vec<T>) -> (out: Vec<T>)
    ensures
        out@ == list@.reverse(),
{
    let mut out: Vec<T> = Vec::with_capacity(list.len());
    let mut left: usize = list.len();
    while left > 0
        invariant
            left <= list@.len(),
            out@.len() == list@.len() - left,
            forall|i: int| 0 <= i < out@.len() ==> #[trigger] out@[i] == list@[list@.len() - 1 - i],
        decreases left,
    {
        left = left - 1;
        out.push(list[left]);
    }
    assert(out@ =~= list@.reverse());
    out
}

/// Whether the edge from a turf to a cardinal neighbour is open and the neighbour can be occupied.
pub open spec fn cardinal_step(grid: Grid, turfs: Turfs, from: Coord, to: Coord, k: int) -> bool {
    &&& 0 <= k < 4
    &&& on_grid(from, k)
    &&& to == neighbor(from, k)
    &&& grid.seen(turfs, from) matches Ok(Some(source)) && source.opens(step(k).dir)
    &&& grid.occupiable(turfs, to) matches Ok(Some(_))
}

/// Whether a mover can get from one turf to the next of a path.
pub open spec fn legal_step(grid: Grid, turfs: Turfs, from: Coord, to: Coord) -> bool {
    ||| exists|cost: nat| #[trigger] grid.walks_to(turfs, from, to, cost)
    ||| exists|k: int| #[trigger] cardinal_step(grid, turfs, from, to, k)
}

/// Whether every step of a path is legal.
pub open spec fn legal_path(grid: Grid, turfs: Turfs, path: Seq<Coord>) -> bool {
    forall|i: int, j: int|
        #![trigger path[i], path[j]]
        0 <= i < j <= i + 1 && j < path.len() ==> legal_step(grid, turfs, path[i], path[j])
}

/// The two legs around a diagonal are legal where its routes say so.
proof fn lemma_corner_is_legal(grid: Grid, turfs: Turfs, from: Coord, to: Coord)
    requires
        -1 <= to.0 - from.0 <= 1,
        -1 <= to.1 - from.1 <= 1,
        diagonal(from, to),
        grid.routes(turfs, from, to) is Ok,
    ensures
        grid.routes(turfs, from, to)->Ok_0.north_south_first ==> legal_step(
            grid,
            turfs,
            from,
            (from.0, to.1),
        ) && legal_step(grid, turfs, (from.0, to.1), to),
        grid.routes(turfs, from, to)->Ok_0.east_west_first ==> legal_step(
            grid,
            turfs,
            from,
            (to.0, from.1),
        ) && legal_step(grid, turfs, (to.0, from.1), to),
{
    let up: int = if to.1 > from.1 {
        0
    } else {
        1
    };
    let side: int = if to.0 > from.0 {
        2
    } else {
        3
    };
    let routes = grid.routes(turfs, from, to)->Ok_0;
    if routes.north_south_first {
        let corner = (from.0, to.1);
        assert(cardinal_step(grid, turfs, from, corner, up));
        assert(cardinal_step(grid, turfs, corner, to, side));
    }
    if routes.east_west_first {
        let corner = (to.0, from.1);
        assert(cardinal_step(grid, turfs, from, corner, side));
        assert(cardinal_step(grid, turfs, corner, to, up));
    }
}

/// Whatever the mode, a path that can be walked is handed out as a path that can be walked: each
/// corner put in is legal, both to get to and to leave.
pub proof fn law_handed_out_path_is_legal(
    grid: Grid,
    nodes: Seq<Coord>,
    costs: Seq<nat>,
    handling: DiagonalHandling,
    routes: Seq<DiagonalRoutes>,
    steps: nat,
)
    requires
        is_walk(grid.edges(grid.cache@), nodes, costs),
        steps <= routes.len() < nodes.len(),
        rechecked(grid, nodes, routes),
    ensures
        expanded(nodes, handling, routes, steps) matches Some(path) ==> legal_path(
            grid,
            grid.cache@,
            path,
        ),
    decreases steps,
{
    let turfs = grid.cache@;
    if steps > 0 {
        let last = (steps - 1) as nat;
        law_handed_out_path_is_legal(grid, nodes, costs, handling, routes, last);
        law_expansion_keeps_the_ends(nodes, handling, routes, last);
        let from = nodes[steps - 1];
        let to = nodes[steps as int];
        assert((grid.edges(turfs))(nodes[steps - 1], nodes[steps - 1 + 1], costs[steps - 1]));
        let cost = costs[steps - 1];
        assert(grid.walks_to(turfs, from, to, cost));
        assert(legal_step(grid, turfs, from, to));
        law_edges_are_steps(grid, turfs, from, to, cost);
        lemma_step_moves(from, to, cost as int);
        if diagonal(from, to) {
            assert(grid.routes(turfs, from, to) == Ok::<DiagonalRoutes, Coord>(routes[steps - 1]));
            lemma_corner_is_legal(grid, turfs, from, to);
        }
        if let Some(path) = expanded(nodes, handling, routes, steps) {
            let before = expanded(nodes, handling, routes, last).unwrap();
            assert forall|i: int, j: int|
                #![trigger path[i], path[j]]
                0 <= i < j <= i + 1 && j < path.len() implies legal_step(
                grid,
                turfs,
                path[i],
                path[j],
            ) by {
                if j < before.len() {
                    assert(path[i] == before[i] && path[j] == before[j]);
                }
            }
        }
    } else {
        if let Some(path) = expanded(nodes, handling, routes, steps) {
            assert(path.len() == 1);
        }
    }
}

/// All positions.
pub open spec fn all_coords() -> Seq<Coord> {
    Seq::new(
        0x1_0000_0000,
        |i: int| ((i % 0x1_0000 - 0x8000) as i16, (i / 0x1_0000 - 0x8000) as i16),
    )
}

proof fn lemma_all_coords(coord: Coord)
    ensures
        all_coords().contains(coord),
{
    let i = (coord.0 + 0x8000) + 0x1_0000 * (coord.1 + 0x8000);
    assert(all_coords()[i] == coord);
}

impl SearchJob {
    /// What is left to do: to look at the start, to write down better costs, to look up turfs, and
    /// to go through the queue.
    pub open spec fn left_to_do(self) -> (nat, nat, nat, nat) {
        (
            if self.initialized {
                0
            } else {
                1
            },
            potential(all_coords(), self.costs@),
            unknown(all_coords(), self.grid.cache@),
            2 * self.frontier@.len() + if self.current is Some {
                1nat
            } else {
                0nat
            },
        )
    }
}

/// Offering successors changes nothing or lowers the potential.
proof fn lemma_offers_lower_potential(
    book: Book,
    goal: Coord,
    radius: int,
    e: QueueEntry,
    out: Seq<(Coord, u32)>,
    count: nat,
)
    requires
        forall|i: int| 0 <= i < out.len() ==> e.cost + (#[trigger] out[i]).1 <= u32::MAX,
        count <= out.len(),
    ensures
        ({
            let after = offered(book, goal, radius, e, out, count);
            ||| after == book
            ||| potential(all_coords(), after.costs) < potential(all_coords(), book.costs)
        }),
    decreases count,
{
    if count > 0 {
        lemma_offers_lower_potential(book, goal, radius, e, out, (count - 1) as nat);
        let before = offered(book, goal, radius, e, out, (count - 1) as nat);
        let (to, cost) = out[count - 1];
        assert(e.cost + out[count - 1].1 <= u32::MAX);
        if better(before, e, out[count - 1]) {
            lemma_all_coords(to);
            lemma_potential_falls(all_coords(), before.costs, to, (e.cost + cost) as u32);
        }
    }
}

/// A search cannot go on forever by itself: every move that neither asks for a turf, nor yields, nor
/// ends the search leaves less to do than there was before.
pub proof fn law_every_move_leaves_less_to_do(
    before: SearchJob,
    published: NavPassCache,
    elapsed: u128,
    after: SearchJob,
    progress: JobProgress,
)
    requires
        before.wf(),
        before.has_room(),
        before.moved(published, elapsed, after, progress),
        progress is Working,
    ensures
        less_left(after.left_to_do(), before.left_to_do()),
{
    let known = before.grid.cache@;
    if !before.initialized {
        if let Err(missing) = before.grid.occupiable(known, before.grid.start) {
            lemma_learning_leaves_less(before, published, missing, after, progress);
        }
    } else if let Some(e) = before.current {
        match before.grid.successors_of(known, e.coord) {
            Err(missing) => {
                lemma_missing_is_unknown(before.grid, known, e.coord);
                lemma_learning_leaves_less(before, published, missing, after, progress);
            },
            Ok(out) => {
                lemma_offers_fit(before, e, out);
                lemma_offers_lower_potential(
                    before.book(),
                    before.goal,
                    before.radius(),
                    e,
                    out,
                    out.len(),
                );
            },
        }
    }
}

proof fn lemma_learning_leaves_less(
    before: SearchJob,
    published: NavPassCache,
    missing: Coord,
    after: SearchJob,
    progress: JobProgress,
)
    requires
        before.learned(published, missing, after, progress),
        progress is Working,
        !before.grid.cache@.contains_key(missing),
    ensures
        less_left(after.left_to_do(), before.left_to_do()),
{
    let info = published_info(
        published,
        (missing.0, missing.1, before.grid.z),
        before.grid.is_flying,
        false,
    );
    lemma_all_coords(missing);
    lemma_unknown_falls(all_coords(), before.grid.cache@, missing, info);
}

/// A turf that is supplied leaves less to do, if it was not known.
pub proof fn law_supplied_turf_leaves_less_to_do(
    before: SearchJob,
    coord: Coord,
    info: Option<TurfInfo>,
    after: SearchJob,
)
    requires
        !before.grid.cache@.contains_key(coord),
        after.grid.cache@ == before.grid.cache@.insert(coord, info),
        after.book() == before.book(),
        after.current == before.current,
        after.initialized == before.initialized,
    ensures
        less_left(after.left_to_do(), before.left_to_do()),
{
    lemma_all_coords(coord);
    lemma_unknown_falls(all_coords(), before.grid.cache@, coord, info);
}

/// A move gives control back only between two entries of the frontier, and there exactly once five
/// milliseconds have passed.
pub proof fn law_slices_last_five_milliseconds(
    before: SearchJob,
    published: NavPassCache,
    elapsed: u128,
    after: SearchJob,
    progress: JobProgress,
)
    requires
        before.moved(published, elapsed, after, progress),
    ensures
        progress is InProgress <==> {
            &&& before.initialized
            &&& before.current is None
            &&& elapsed >= 5_000_000
        },
{
}

/// A move asks for a turf only where it is neither known nor settled by what is published, and learns
/// of no turf but one that was not known, as it is published.
pub proof fn law_moves_ask_for_what_is_not_known(
    before: SearchJob,
    published: NavPassCache,
    elapsed: u128,
    after: SearchJob,
    progress: JobProgress,
    coord: Coord,
)
    requires
        before.moved(published, elapsed, after, progress),
    ensures
        progress == JobProgress::NeedsTurf(coord) ==> {
            &&& !before.grid.cache@.contains_key(coord)
            &&& published_info(
                published,
                (coord.0, coord.1, before.grid.z),
                before.grid.is_flying,
                false,
            ) is None
        },
        before.grid.cache@.contains_key(coord) ==> after.grid.cache@.contains_key(coord)
            && after.grid.cache@[coord] == before.grid.cache@[coord],
        after.grid.cache@.contains_key(coord) && !before.grid.cache@.contains_key(coord)
            ==> after.grid.cache@[coord] is Some && after.grid.cache@[coord] == published_info(
            published,
            (coord.0, coord.1, before.grid.z),
            before.grid.is_flying,
            false,
        ),
{
    if let Some(e) = before.current {
        lemma_missing_is_unknown(before.grid, before.grid.cache@, e.coord);
    }
}

/// A successor is taken up exactly where it is new or reached more cheaply than before: it then has
/// the lower cost and the entry's turf as its predecessor, and is queued, one number after the last,
/// with what is left in octile steps as its estimate. Otherwise nothing changes.
pub proof fn law_offers_take_up_what_is_cheaper(
    book: Book,
    goal: Coord,
    radius: int,
    from: QueueEntry,
    out: Seq<(Coord, u32)>,
    count: nat,
)
    requires
        count < out.len(),
        from.cost + out[count as int].1 + octile_to_range(out[count as int].0, goal, radius)
            <= u32::MAX,
        octile_to_range(out[count as int].0, goal, radius) >= 0,
        offered(book, goal, radius, from, out, count).sequence < u64::MAX,
    ensures
        offered(book, goal, radius, from, out, 0) == book,
        ({
            let before = offered(book, goal, radius, from, out, count);
            let after = offered(book, goal, radius, from, out, count + 1);
            let (to, step_cost) = out[count as int];
            let cost = from.cost + step_cost;
            let left = fewest_steps_cost(
                outside(apart(to.0 as int, goal.0 as int), radius),
                outside(apart(to.1 as int, goal.1 as int), radius),
            );
            if !before.costs.contains_key(to) || cost < before.costs[to] {
                &&& after.costs.dom() == before.costs.dom().insert(to)
                &&& after.costs[to] == cost
                &&& forall|n: Coord| n != to ==> #[trigger] after.costs[n] == before.costs[n]
                &&& after.previous == before.previous.insert(to, from.coord)
                &&& after.sequence == before.sequence + 1
                &&& exists|e: QueueEntry| #[trigger]
                    before.frontier.insert(e) == after.frontier && e.coord == to && e.cost == cost
                        && e.estimate == cost + left && e.sequence == before.sequence + 1
            } else {
                after == before
            }
        }),
{
    let before = offered(book, goal, radius, from, out, count);
    let after = offered(book, goal, radius, from, out, count + 1);
    let (to, step_cost) = out[count as int];
    law_distances_in_numbers(
        to,
        goal,
        radius,
        LayeredNode { group: 0, layer: 0, x: 0, y: 0 },
        LayeredNode { group: 0, layer: 0, x: 0, y: 0 },
        false,
    );
    if better(before, from, out[count as int]) {
        let e = QueueEntry {
            coord: to,
            cost: (from.cost + step_cost) as u32,
            estimate: (from.cost + step_cost + octile_to_range(to, goal, radius)) as u32,
            sequence: (before.sequence + 1) as u64,
        };
        assert(before.frontier.insert(e) == after.frontier);
        assert(after.costs.dom() =~= before.costs.dom().insert(to));
    }
}

/// The start is queued first, at no cost and with the number one, unless a mover may not stand there.
pub proof fn law_search_begins_at_the_start(
    before: SearchJob,
    published: NavPassCache,
    elapsed: u128,
    after: SearchJob,
    progress: JobProgress,
)
    requires
        before.wf(),
        !before.initialized,
        before.sequence == 0,
        before.moved(published, elapsed, after, progress),
        after.initialized,
    ensures
        progress is Working || progress is NoPath,
        progress is Working ==> {
            &&& after.costs@.dom() == Set::empty().insert(before.grid.start)
            &&& after.costs@[before.grid.start] == 0
            &&& after.previous@.dom() == Set::<Coord>::empty()
            &&& after.sequence == 1
            &&& exists|e: QueueEntry| #[trigger]
                after.frontier@ == Multiset::singleton(e) && e.coord == before.grid.start && e.cost
                    == 0 && e.sequence == 1
        },
        progress is NoPath ==> after.frontier@ == Multiset::<QueueEntry>::empty(),
{
    assert(after.costs@ == after.book().costs && after.previous@ == after.book().previous
        && after.frontier@ == after.book().frontier && after.sequence == after.book().sequence);
    if progress is Working {
        let e = QueueEntry {
            coord: before.grid.start,
            cost: 0,
            estimate: (0 + octile_to_range(before.grid.start, before.goal, before.radius())) as u32,
            sequence: 1,
        };
        assert(after.frontier@ == before.book().frontier.insert(e));
        assert(after.frontier@ =~= Multiset::singleton(e));
        assert(after.costs@.dom() =~= Set::empty().insert(before.grid.start));
        assert(after.previous@.dom() =~= Set::<Coord>::empty());
    }
}

/// The settings of a job are its target, its shape and the rules of its grid, pass flags and level
/// among them; what it has written down is its costs, predecessors and frontier.
pub proof fn law_same_settings_are_the_same(a: SearchJob, b: SearchJob)
    ensures
        a.same_settings(b) <==> {
            &&& a.goal == b.goal
            &&& a.min_target_distance == b.min_target_distance
            &&& a.diagonal_handling == b.diagonal_handling
            &&& a.skip_first == b.skip_first
            &&& a.grid.z == b.grid.z
            &&& a.grid.pass_flags == b.grid.pass_flags
            &&& a.grid.is_flying == b.grid.is_flying
            &&& a.grid.start == b.grid.start
            &&& a.grid.max_range == b.grid.max_range
            &&& a.grid.simulated_only == b.grid.simulated_only
            &&& a.grid.avoid == b.grid.avoid
        },
        a.untouched(b) <==> {
            &&& a.costs@ == b.costs@
            &&& a.previous@ == b.previous@
            &&& a.frontier@ == b.frontier@
            &&& a.sequence == b.sequence
            &&& a.current == b.current
            &&& a.initialized == b.initialized
            &&& a.grid.cache@ == b.grid.cache@
        },
{
    assert(a.costs@ == a.book().costs && a.previous@ == a.book().previous && a.frontier@
        == a.book().frontier && a.sequence == a.book().sequence);
    assert(b.costs@ == b.book().costs && b.previous@ == b.book().previous && b.frontier@
        == b.book().frontier && b.sequence == b.book().sequence);
}

/// A turf that is supplied is known from then on as it was supplied, unless it was known before; no
/// other turf is touched, nor anything else.
pub proof fn law_supplied_turf_is_known(
    before: SearchJob,
    coord: Coord,
    info: Option<TurfInfo>,
    after: SearchJob,
    other: Coord,
)
    requires
        before.told(coord, info, after),
    ensures
        after.grid.cache@.contains_key(coord),
        after.grid.cache@[coord] == if before.grid.cache@.contains_key(coord) {
            before.grid.cache@[coord]
        } else {
            info
        },
        other != coord ==> after.grid.cache@.contains_key(other) == before.grid.cache@.contains_key(
            other,
        ) && after.grid.cache@[other] == before.grid.cache@[other],
        after.same_settings(before),
        after.costs@ == before.costs@,
        after.previous@ == before.previous@,
        after.frontier@ == before.frontier@,
        after.current == before.current,
        after.initialized == before.initialized,
{
    assert(after.costs@ == after.book().costs && after.previous@ == after.book().previous
        && after.frontier@ == after.book().frontier);
}

} // verus!
