//! What a mover can do on one level, told from the map alone: which turfs it may stand on, which
//! steps it can take and what ways lead to a target. The single-level search is held to this.

use crate::diagonals::{
    diagonal, expanded, has_no_route, law_expansion_adds_corner_and_end,
    law_expansion_keeps_the_ends, law_only_a_diagonal_without_a_route_is_impossible, skipped,
    DiagonalHandling, DiagonalRoutes,
};
use crate::directions::{step, STEP_COUNT};
use crate::geometry::{Coord, TurfCoords};
use crate::grid::{
    law_edges_are_the_walkable_steps, law_more_turfs_keep_successors, neighbor, on_grid, Grid,
    Turfs,
};
use crate::nav_pass::TurfInfo;
use crate::search::{rechecked, SearchJob};
use crate::walks::{is_walk, total};
use vstd::prelude::*;

verus! {

/// Whether two positions lie no further apart than a distance, along either axis.
pub open spec fn within(a: Coord, b: Coord, distance: int) -> bool {
    &&& -distance <= a.0 - b.0 <= distance
    &&& -distance <= a.1 - b.1 <= distance
}

/// Whether a mover may stand on a turf: it exists, is simulated where that is asked for, is not the
/// one to avoid, and lies in range of the start where there is a range.
pub open spec fn may_stand(grid: Grid, turfs: Turfs, at: Coord) -> bool {
    &&& turfs.contains_key(at)
    &&& turfs[at] matches Some(info) && (grid.simulated_only ==> info.simulated)
    &&& grid.avoid != Some(at)
    &&& grid.max_range > 0 ==> within(at, grid.start, grid.max_range as int)
}

/// Whether a turf exists and its edges include one with the given bit.
pub open spec fn has_edge(turfs: Turfs, at: Coord, bit: i32) -> bool {
    turfs.contains_key(at) && (turfs[at] matches Some(info) && info.open_edges & bit != 0)
}

/// The bit of the edge to the north or south: one and two.
pub open spec fn edge_along_y(from: Coord, to: Coord) -> i32 {
    if to.1 > from.1 {
        1
    } else {
        2
    }
}

/// The bit of the edge to the east or west: four and eight.
pub open spec fn edge_along_x(from: Coord, to: Coord) -> i32 {
    if to.0 > from.0 {
        4
    } else {
        8
    }
}

/// Whether a mover can go around a corner: out of the first turf, onto the corner, and out of it
/// again.
pub open spec fn rounds_corner(
    grid: Grid,
    turfs: Turfs,
    from: Coord,
    corner: Coord,
    first: i32,
    second: i32,
) -> bool {
    has_edge(turfs, from, first) && may_stand(grid, turfs, corner) && has_edge(
        turfs,
        corner,
        second,
    )
}

/// Whether a mover can go to a diagonal neighbour by way of the corner north or south of it.
pub open spec fn goes_along_y_first(grid: Grid, turfs: Turfs, from: Coord, to: Coord) -> bool {
    &&& rounds_corner(
        grid,
        turfs,
        from,
        (from.0, to.1),
        edge_along_y(from, to),
        edge_along_x(from, to),
    )
    &&& may_stand(grid, turfs, to)
}

/// Whether a mover can go to a diagonal neighbour by way of the corner east or west of it.
pub open spec fn goes_along_x_first(grid: Grid, turfs: Turfs, from: Coord, to: Coord) -> bool {
    &&& rounds_corner(
        grid,
        turfs,
        from,
        (to.0, from.1),
        edge_along_x(from, to),
        edge_along_y(from, to),
    )
    &&& may_stand(grid, turfs, to)
}

/// Whether a mover can step from one turf to another at a cost: along an axis for ten, diagonally
/// around a corner for fourteen.
pub open spec fn can_step(grid: Grid, turfs: Turfs, from: Coord, to: Coord, cost: nat) -> bool {
    let dx = to.0 - from.0;
    let dy = to.1 - from.1;
    ||| {
        &&& dx == 0 && (dy == 1 || dy == -1)
        &&& has_edge(turfs, from, edge_along_y(from, to))
        &&& may_stand(grid, turfs, to)
        &&& cost == 10
    }
    ||| {
        &&& dy == 0 && (dx == 1 || dx == -1)
        &&& has_edge(turfs, from, edge_along_x(from, to))
        &&& may_stand(grid, turfs, to)
        &&& cost == 10
    }
    ||| {
        &&& (dx == 1 || dx == -1) && (dy == 1 || dy == -1)
        &&& goes_along_y_first(grid, turfs, from, to) || goes_along_x_first(grid, turfs, from, to)
        &&& cost == 14
    }
}

/// A turf can be occupied exactly where a mover may stand on it; it is not known whether it can
/// exactly where it has not been looked up and nothing else speaks against it.
pub proof fn law_occupied_where_one_may_stand(grid: Grid, turfs: Turfs, at: Coord)
    ensures
        (grid.occupiable(turfs, at) matches Ok(Some(_))) <==> may_stand(grid, turfs, at),
        grid.occupiable(turfs, at) matches Ok(Some(info)) ==> turfs[at] == Some(info),
        grid.occupiable(turfs, at) matches Err(missing) ==> missing == at && !turfs.contains_key(
            at,
        ),
        grid.occupiable(turfs, at) is Err <==> {
            &&& !turfs.contains_key(at)
            &&& grid.avoid != Some(at)
            &&& grid.max_range > 0 ==> within(at, grid.start, grid.max_range as int)
        },
{
}

/// The routes around a diagonal are those that can be gone, corner by corner.
pub proof fn law_routes_are_those_around_the_corners(
    grid: Grid,
    turfs: Turfs,
    from: Coord,
    to: Coord,
)
    ensures
        grid.routes(turfs, from, to) matches Ok(routes) ==> {
            &&& routes.north_south_first == goes_along_y_first(grid, turfs, from, to)
            &&& routes.east_west_first == goes_along_x_first(grid, turfs, from, to)
        },
        grid.routes(turfs, from, to) matches Err(missing) ==> {
            &&& !turfs.contains_key(missing)
            &&& missing == from || missing == to || missing == (from.0, to.1) || missing == (
                to.0,
                from.1,
            )
        },
{
    law_occupied_where_one_may_stand(grid, turfs, to);
    law_occupied_where_one_may_stand(grid, turfs, (from.0, to.1));
    law_occupied_where_one_may_stand(grid, turfs, (to.0, from.1));
}

/// Which of the eight steps leads from one position to another, in the order in which they are
/// tried: north, south, east, west, north-east, south-east, north-west, south-west.
pub open spec fn place_of(from: Coord, to: Coord) -> int {
    let dx = to.0 - from.0;
    let dy = to.1 - from.1;
    if dx == 0 && dy == 1 {
        0
    } else if dx == 0 && dy == -1 {
        1
    } else if dx == 1 && dy == 0 {
        2
    } else if dx == -1 && dy == 0 {
        3
    } else if dx == 1 && dy == 1 {
        4
    } else if dx == 1 && dy == -1 {
        5
    } else if dx == -1 && dy == 1 {
        6
    } else if dx == -1 && dy == -1 {
        7
    } else {
        8
    }
}

/// One of the eight steps can be walked exactly where it can be taken.
proof fn lemma_walkable(grid: Grid, turfs: Turfs, source: TurfInfo, from: Coord, k: int, to: Coord)
    requires
        0 <= k < 8,
        place_of(from, to) == k,
        turfs.contains_key(from),
        turfs[from] == Some(source),
    ensures
        to == neighbor(from, k),
        grid.walkable(turfs, source, from, k) is Ok ==> (grid.walkable(turfs, source, from, k)
            == Ok::<bool, Coord>(true) <==> can_step(
            grid,
            turfs,
            from,
            to,
            if k < 4 {
                10
            } else {
                14
            },
        )),
{
    law_occupied_where_one_may_stand(grid, turfs, to);
    law_occupied_where_one_may_stand(grid, turfs, (from.0, to.1));
    law_occupied_where_one_may_stand(grid, turfs, (to.0, from.1));
}

/// Where it is settled what can be reached from a turf, the successors are exactly the turfs that
/// can be stepped to, at the cost of the step.
pub proof fn law_successors_are_the_possible_steps(
    grid: Grid,
    turfs: Turfs,
    from: Coord,
    to: Coord,
    cost: nat,
)
    requires
        grid.successors_of(turfs, from) is Ok,
    ensures
        grid.walks_to(turfs, from, to, cost) <==> can_step(grid, turfs, from, to, cost),
{
    if turfs.contains_key(from) && turfs[from] is Some {
        let source = turfs[from].unwrap();
        law_edges_are_the_walkable_steps(grid, turfs, from, source, to, cost);
        lemma_all_settled(grid, turfs, source, from, STEP_COUNT as nat);
        if can_step(grid, turfs, from, to, cost) {
            let k = place_of(from, to);
            lemma_walkable(grid, turfs, source, from, k, to);
            assert(grid.walkable(turfs, source, from, k) == Ok::<bool, Coord>(true));
        }
        if grid.walks_to(turfs, from, to, cost) {
            let k = choose|k: int|
                {
                    &&& 0 <= k < STEP_COUNT
                    &&& #[trigger] grid.walkable(turfs, source, from, k) == Ok::<bool, Coord>(true)
                    &&& to == neighbor(from, k)
                    &&& cost == step(k).cost
                };
            lemma_walkable(grid, turfs, source, from, k, to);
        }
    } else if grid.walks_to(turfs, from, to, cost) {
        assert(grid.successors_of(turfs, from)->Ok_0.len() == 0);
    }
}

/// Where the list of successors is settled, so is every step.
proof fn lemma_all_settled(grid: Grid, turfs: Turfs, source: TurfInfo, from: Coord, count: nat)
    requires
        grid.successors_upto(turfs, source, from, count) is Ok,
    ensures
        forall|k: int| 0 <= k < count ==> (#[trigger] grid.walkable(turfs, source, from, k)) is Ok,
    decreases count,
{
    if count > 0 {
        lemma_all_settled(grid, turfs, source, from, (count - 1) as nat);
    }
}

/// What can be reached from a turf is settled once the turf and all turfs around it are known.
pub proof fn law_known_surroundings_settle_successors(grid: Grid, turfs: Turfs, from: Coord)
    requires
        forall|c: Coord| within(c, from, 1) ==> #[trigger] turfs.contains_key(c),
    ensures
        grid.successors_of(turfs, from) is Ok,
{
    assert(within(from, from, 1));
    assert(turfs.contains_key(from));
    if let Some(source) = turfs[from] {
        lemma_settled_upto(grid, turfs, source, from, STEP_COUNT as nat);
    }
}

proof fn lemma_settled_upto(grid: Grid, turfs: Turfs, source: TurfInfo, from: Coord, count: nat)
    requires
        count <= STEP_COUNT,
        forall|c: Coord| within(c, from, 1) ==> #[trigger] turfs.contains_key(c),
    ensures
        grid.successors_upto(turfs, source, from, count) is Ok,
    decreases count,
{
    if count > 0 {
        lemma_settled_upto(grid, turfs, source, from, (count - 1) as nat);
        let k = count - 1;
        let to = neighbor(from, k);
        if on_grid(from, k) {
            assert(within(to, from, 1) && turfs.contains_key(to));
            assert(within((from.0, to.1), from, 1) && turfs.contains_key((from.0, to.1)));
            assert(within((to.0, from.1), from, 1) && turfs.contains_key((to.0, from.1)));
            law_occupied_where_one_may_stand(grid, turfs, to);
            law_occupied_where_one_may_stand(grid, turfs, (from.0, to.1));
            law_occupied_where_one_may_stand(grid, turfs, (to.0, from.1));
        }
    }
}

/// Successors come in the order in which the steps are tried, each once.
pub proof fn law_successors_come_in_order(grid: Grid, turfs: Turfs, from: Coord, i: int, j: int)
    requires
        grid.successors_of(turfs, from) matches Ok(out) && 0 <= i < j < out.len(),
    ensures
        ({
            let out = grid.successors_of(turfs, from)->Ok_0;
            place_of(from, out[i].0) < place_of(from, out[j].0) < 8
        }),
{
    let source = turfs[from].unwrap();
    lemma_in_order_upto(grid, turfs, source, from, STEP_COUNT as nat, i, j);
}

proof fn lemma_in_order_upto(
    grid: Grid,
    turfs: Turfs,
    source: TurfInfo,
    from: Coord,
    count: nat,
    i: int,
    j: int,
)
    requires
        count <= STEP_COUNT,
        grid.successors_upto(turfs, source, from, count) matches Ok(out) && 0 <= i <= j
            < out.len(),
    ensures
        ({
            let out = grid.successors_upto(turfs, source, from, count)->Ok_0;
            &&& place_of(from, out[j].0) < count
            &&& i < j ==> place_of(from, out[i].0) < place_of(from, out[j].0)
        }),
    decreases count,
{
    if count > 0 {
        let before = grid.successors_upto(turfs, source, from, (count - 1) as nat)->Ok_0;
        let out = grid.successors_upto(turfs, source, from, count)->Ok_0;
        if j < before.len() {
            lemma_in_order_upto(grid, turfs, source, from, (count - 1) as nat, i, j);
            assert(out[i] == before[i] && out[j] == before[j]);
        } else {
            assert(out[j].0 == neighbor(from, count - 1));
            assert(place_of(from, out[j].0) == count - 1);
            if i < j {
                lemma_in_order_upto(grid, turfs, source, from, (count - 1) as nat, i, i);
                assert(out[i] == before[i]);
            }
        }
    }
}

/// Whether a mover can walk from the start of a search to its target, at the given costs: it may
/// stand on the start, each step can be taken, and the end is within the target distance.
pub open spec fn is_way(job: SearchJob, turfs: Turfs, nodes: Seq<Coord>, costs: Seq<nat>) -> bool {
    &&& nodes.len() == costs.len() + 1
    &&& nodes[0] == job.grid.start
    &&& may_stand(job.grid, turfs, nodes[0])
    &&& forall|i: int|
        0 <= i < costs.len() ==> can_step(
            job.grid,
            turfs,
            nodes[i],
            nodes[i + 1],
            #[trigger] costs[i],
        )
    &&& within(nodes.last(), job.goal, job.min_target_distance as int)
}

/// Whether a map knows every turf.
pub open spec fn is_whole(turfs: Turfs) -> bool {
    forall|c: Coord| #[trigger] turfs.contains_key(c)
}

/// On a whole map the routes of a search are the ways a mover can walk.
pub proof fn law_routes_are_ways(job: SearchJob, turfs: Turfs, nodes: Seq<Coord>, costs: Seq<nat>)
    requires
        is_whole(turfs),
    ensures
        job.is_route(turfs, nodes, costs) <==> is_way(job, turfs, nodes, costs),
{
    let edge = job.grid.edges(turfs);
    law_occupied_where_one_may_stand(job.grid, turfs, job.grid.start);
    assert forall|i: int| 0 <= i < costs.len() implies edge(
        nodes[i],
        nodes[i + 1],
        #[trigger] costs[i],
    ) == can_step(job.grid, turfs, nodes[i], nodes[i + 1], costs[i]) by {
        assert forall|c: Coord| within(c, nodes[i], 1) implies #[trigger] turfs.contains_key(c) by {}
        law_known_surroundings_settle_successors(job.grid, turfs, nodes[i]);
        law_successors_are_the_possible_steps(
            job.grid,
            turfs,
            nodes[i],
            nodes[i + 1],
            costs[i],
        );
    }
    if nodes.len() == costs.len() + 1 {
        assert forall|i: int| 0 <= i < costs.len() && job.is_route(
            turfs,
            nodes,
            costs,
        ) implies can_step(job.grid, turfs, nodes[i], nodes[i + 1], #[trigger] costs[i]) by {
            assert(edge(nodes[i], nodes[i + 1], costs[i]));
        }
        if is_way(job, turfs, nodes, costs) {
            assert forall|i: int| 0 <= i < costs.len() implies edge(
                nodes[i],
                nodes[i + 1],
                #[trigger] costs[i],
            ) by {
                assert(can_step(job.grid, turfs, nodes[i], nodes[i + 1], costs[i]));
            }
            assert(is_walk(edge, nodes, costs));
        }
    }
}

/// Whether a path is a cheapest way on a map.
pub open spec fn is_cheapest_way(job: SearchJob, turfs: Turfs, path: Seq<Coord>) -> bool {
    exists|costs: Seq<nat>|
        {
            &&& #[trigger] is_way(job, turfs, path, costs)
            &&& forall|nodes: Seq<Coord>, others: Seq<nat>| #[trigger]
                is_way(job, turfs, nodes, others) ==> total(costs) <= total(others)
        }
}

/// Whatever the rest of the map turns out to be like, a path that a search found is a cheapest way
/// on it.
pub proof fn law_found_path_is_a_cheapest_way(job: SearchJob, turfs: Turfs, path: Seq<Coord>)
    requires
        job.cheapest(path),
        job.grid.cache@.submap_of(turfs),
        is_whole(turfs),
    ensures
        is_cheapest_way(job, turfs, path),
{
    let known = job.grid.cache@;
    let costs = choose|steps: Seq<nat>|
        {
            &&& #[trigger] job.is_route(known, path, steps)
            &&& forall|world: Turfs, nodes: Seq<Coord>, others: Seq<nat>| #[trigger]
                job.is_route(world, nodes, others) && known.submap_of(world) ==> total(steps)
                    <= total(others)
        };
    let edge = job.grid.edges(known);
    let wide = job.grid.edges(turfs);
    assert forall|i: int| 0 <= i < costs.len() implies wide(
        path[i],
        path[i + 1],
        #[trigger] costs[i],
    ) by {
        assert(edge(path[i], path[i + 1], costs[i]));
        law_more_turfs_keep_successors(job.grid, known, turfs, path[i]);
    }
    assert(known.dom().contains(job.grid.start) ==> turfs.dom().contains(job.grid.start));
    assert(job.is_route(turfs, path, costs));
    law_routes_are_ways(job, turfs, path, costs);
    assert forall|nodes: Seq<Coord>, others: Seq<nat>| #[trigger]
        is_way(job, turfs, nodes, others) implies total(costs) <= total(others) by {
        law_routes_are_ways(job, turfs, nodes, others);
    }
}

/// Whatever the rest of the map turns out to be like, there is no way on it where a search found no
/// path.
pub proof fn law_no_way_where_no_path_was_found(
    job: SearchJob,
    turfs: Turfs,
    nodes: Seq<Coord>,
    costs: Seq<nat>,
)
    requires
        job.hopeless(),
        job.grid.cache@.submap_of(turfs),
        is_whole(turfs),
    ensures
        !is_way(job, turfs, nodes, costs),
{
    law_routes_are_ways(job, turfs, nodes, costs);
}

/// The corner by which a step of a path is handed out, if any: where every diagonal is replaced, the
/// one north or south if one can go there first and else the one east or west; where only clunky ones
/// are, the one east or west if one can only go there first.
pub open spec fn corner_of(
    grid: Grid,
    turfs: Turfs,
    handling: DiagonalHandling,
    from: Coord,
    to: Coord,
) -> Option<Coord> {
    let along_y = goes_along_y_first(grid, turfs, from, to);
    let along_x = goes_along_x_first(grid, turfs, from, to);
    if from.0 == to.0 || from.1 == to.1 {
        None
    } else if handling == DiagonalHandling::RemoveAll && along_y {
        Some((from.0, to.1))
    } else if handling != DiagonalHandling::DoNothing && !along_y && along_x {
        Some((to.0, from.1))
    } else {
        None
    }
}

/// Whether a step of a path cannot be handed out: it is diagonal, has to be replaced, and one can
/// go neither way.
pub open spec fn cannot_turn(
    grid: Grid,
    turfs: Turfs,
    handling: DiagonalHandling,
    from: Coord,
    to: Coord,
) -> bool {
    &&& from.0 != to.0 && from.1 != to.1
    &&& handling == DiagonalHandling::RemoveAll
    &&& !goes_along_y_first(grid, turfs, from, to)
    &&& !goes_along_x_first(grid, turfs, from, to)
}

/// The shape in which the first `steps` steps of a path are handed out.
pub open spec fn shape_of(
    grid: Grid,
    turfs: Turfs,
    handling: DiagonalHandling,
    nodes: Seq<Coord>,
    steps: nat,
) -> Seq<Coord>
    decreases steps,
{
    if steps == 0 {
        seq![nodes[0]]
    } else {
        let to = nodes[steps as int];
        let before = shape_of(grid, turfs, handling, nodes, (steps - 1) as nat);
        match corner_of(grid, turfs, handling, nodes[steps - 1], to) {
            Some(corner) => before + seq![corner, to],
            None => before + seq![to],
        }
    }
}

proof fn lemma_expansion_is_the_shape(
    grid: Grid,
    handling: DiagonalHandling,
    nodes: Seq<Coord>,
    routes: Seq<DiagonalRoutes>,
    steps: nat,
)
    requires
        steps <= routes.len() < nodes.len(),
        rechecked(grid, nodes, routes),
    ensures
        match expanded(nodes, handling, routes, steps) {
            Some(path) => {
                &&& path == shape_of(grid, grid.cache@, handling, nodes, steps)
                &&& forall|i: int, j: int|
                    #![trigger nodes[i], nodes[j]]
                    0 <= i < j <= i + 1 && j <= steps ==> !cannot_turn(
                        grid,
                        grid.cache@,
                        handling,
                        nodes[i],
                        nodes[j],
                    )
            },
            None => exists|i: int|
                0 <= i < steps && cannot_turn(
                    grid,
                    grid.cache@,
                    handling,
                    #[trigger] nodes[i],
                    nodes[i + 1],
                ),
        },
    decreases steps,
{
    if steps == 0 {
        assert(nodes.take(1) =~= seq![nodes[0]]);
    } else {
        let last = steps - 1;
        lemma_expansion_is_the_shape(grid, handling, nodes, routes, last as nat);
        law_expansion_adds_corner_and_end(nodes, handling, routes, last as nat);
        law_only_a_diagonal_without_a_route_is_impossible(nodes, handling, routes, last as nat);
        law_only_a_diagonal_without_a_route_is_impossible(nodes, handling, routes, steps);
        let from = nodes[last];
        let to = nodes[last + 1];
        if diagonal(from, to) {
            assert(grid.routes(grid.cache@, nodes[last], nodes[last + 1]) == Ok::<
                DiagonalRoutes,
                Coord,
            >(routes[last]));
            law_routes_are_those_around_the_corners(grid, grid.cache@, from, to);
        }
        if expanded(nodes, handling, routes, steps) is None {
            if expanded(nodes, handling, routes, last as nat) is None {
                let i = choose|i: int|
                    0 <= i < last && cannot_turn(
                        grid,
                        grid.cache@,
                        handling,
                        #[trigger] nodes[i],
                        nodes[i + 1],
                    );
                assert(0 <= i < steps);
            } else {
                let i = choose|i: int| 0 <= i < steps && #[trigger] has_no_route(nodes, routes, i);
                assert(!has_no_route(nodes, routes, i) || i == last);
                assert(cannot_turn(grid, grid.cache@, handling, nodes[last], nodes[last + 1]));
            }
        } else {
            assert(!has_no_route(nodes, routes, last) || handling != DiagonalHandling::RemoveAll);
        }
    }
}

/// A path is handed out with all its steps in the requested shape, on the z-level of the search, less
/// its first turf where that is requested. It is given up only where some diagonal has to be replaced
/// and one can go neither way around it; a turf that is asked for is not known.
pub proof fn law_path_is_handed_out_in_shape(
    job: SearchJob,
    nodes: Seq<Coord>,
    path: Result<Option<Seq<TurfCoords>>, Coord>,
)
    requires
        job.rechecks_to(nodes, path),
    ensures
        match path {
            Ok(Some(turfs)) => if nodes.len() == 0 {
                turfs.len() == 0
            } else {
                let whole = shape_of(
                    job.grid,
                    job.grid.cache@,
                    job.diagonal_handling,
                    nodes,
                    (nodes.len() - 1) as nat,
                );
                let left_out: int = if job.skip_first {
                    1
                } else {
                    0
                };
                &&& turfs.len() + left_out == whole.len()
                &&& forall|i: int|
                    0 <= i < turfs.len() ==> #[trigger] turfs[i] == (
                        whole[i + left_out].0,
                        whole[i + left_out].1,
                        job.grid.z,
                    )
            },
            Ok(None) => exists|i: int|
                0 <= i < nodes.len() - 1 && cannot_turn(
                    job.grid,
                    job.grid.cache@,
                    job.diagonal_handling,
                    #[trigger] nodes[i],
                    nodes[i + 1],
                ),
            Err(missing) => !job.grid.cache@.contains_key(missing),
        },
{
    let handling = job.diagonal_handling;
    match path {
        Ok(Some(turfs)) => {
            if nodes.len() > 0 {
                let routes = choose|routes: Seq<DiagonalRoutes>|
                    {
                        &&& routes.len() == nodes.len() - 1
                        &&& #[trigger] rechecked(job.grid, nodes, routes)
                        &&& expanded(nodes, handling, routes, routes.len()) matches Some(p)
                            && turfs == skipped(p, job.skip_first).map_values(
                            |c: Coord| (c.0, c.1, job.grid.z),
                        )
                    };
                lemma_expansion_is_the_shape(job.grid, handling, nodes, routes, routes.len());
                law_expansion_keeps_the_ends(nodes, handling, routes, routes.len());
            }
        },
        Ok(None) => {
            let routes = choose|routes: Seq<DiagonalRoutes>|
                {
                    &&& 0 < routes.len() < nodes.len()
                    &&& #[trigger] rechecked(job.grid, nodes, routes)
                    &&& expanded(nodes, handling, routes, routes.len()) is None
                };
            lemma_expansion_is_the_shape(job.grid, handling, nodes, routes, routes.len());
            let i = choose|i: int|
                0 <= i < routes.len() && cannot_turn(
                    job.grid,
                    job.grid.cache@,
                    handling,
                    #[trigger] nodes[i],
                    nodes[i + 1],
                );
            assert(0 <= i < nodes.len() - 1);
        },
        Err(missing) => {
            let routes = choose|routes: Seq<DiagonalRoutes>|
                {
                    let k = routes.len() as int;
                    &&& k < nodes.len() - 1
                    &&& #[trigger] rechecked(job.grid, nodes, routes)
                    &&& expanded(nodes, handling, routes, routes.len()) is Some
                    &&& diagonal(nodes[k], nodes[k + 1])
                    &&& job.grid.routes(job.grid.cache@, nodes[k], nodes[k + 1]) == Err::<
                        DiagonalRoutes,
                        Coord,
                    >(missing)
                };
            let k = routes.len() as int;
            law_routes_are_those_around_the_corners(
                job.grid,
                job.grid.cache@,
                nodes[k],
                nodes[k + 1],
            );
        },
    }
}

/// A path whose steps can be taken has the same property in the shape in which it is handed out.
pub proof fn law_shape_can_be_walked(
    grid: Grid,
    turfs: Turfs,
    handling: DiagonalHandling,
    nodes: Seq<Coord>,
    costs: Seq<nat>,
    steps: nat,
)
    requires
        nodes.len() == costs.len() + 1,
        steps < nodes.len(),
        forall|i: int|
            0 <= i < costs.len() ==> can_step(
                grid,
                turfs,
                nodes[i],
                nodes[i + 1],
                #[trigger] costs[i],
            ),
    ensures
        ({
            let whole = shape_of(grid, turfs, handling, nodes, steps);
            &&& whole.len() > steps
            &&& whole[0] == nodes[0]
            &&& whole.last() == nodes[steps as int]
            &&& forall|i: int, j: int|
                #![trigger whole[i], whole[j]]
                0 <= i < j <= i + 1 && j < whole.len() ==> can_step(
                    grid,
                    turfs,
                    whole[i],
                    whole[j],
                    10,
                ) || can_step(grid, turfs, whole[i], whole[j], 14)
        }),
    decreases steps,
{
    if steps > 0 {
        let last = steps - 1;
        law_shape_can_be_walked(grid, turfs, handling, nodes, costs, last as nat);
        let before = shape_of(grid, turfs, handling, nodes, last as nat);
        let whole = shape_of(grid, turfs, handling, nodes, steps);
        let from = nodes[last];
        let to = nodes[last + 1];
        assert(can_step(grid, turfs, nodes[last], nodes[last + 1], costs[last]));
        assert forall|i: int, j: int|
            #![trigger whole[i], whole[j]]
            0 <= i < j <= i + 1 && j < whole.len() implies can_step(
            grid,
            turfs,
            whole[i],
            whole[j],
            10,
        ) || can_step(grid, turfs, whole[i], whole[j], 14) by {
            if j < before.len() {
                assert(whole[i] == before[i] && whole[j] == before[j]);
            } else if i < before.len() {
                assert(whole[i] == before.last());
            }
        }
    }
}

} // verus!
