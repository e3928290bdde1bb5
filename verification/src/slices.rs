//! Where the slices of a single-level search end has no influence on its outcome.

use crate::diagonals::{diagonal, expanded, skipped, DiagonalHandling, DiagonalRoutes};
use crate::geometry::{Coord, TurfCoords};
use crate::grid::{lemma_missing_is_unknown, lemma_same_rules_same_successors, Grid, Turfs};
use crate::nav_pass::{published_info, NavPassCache, TurfInfo};
use crate::search::{
    law_found_path_is_cheapest, law_no_path_leaves_no_route, law_same_search_makes_the_same_move,
    rechecked, same_progress, JobProgress, SearchJob,
};
use crate::walks::total;
use crate::world::{
    can_step, is_cheapest_way, is_way, law_found_path_is_a_cheapest_way,
    law_no_way_where_no_path_was_found, may_stand,
};
use vstd::prelude::*;

verus! {

/// What every turf turns out to be when it is looked up.
pub type Findings = spec_fn(Coord) -> Option<TurfInfo>;

/// One move of a search and what the caller did about it.
pub struct Turn {
    /// The published values at the time of the move.
    pub published: NavPassCache,
    /// The time spent in the slice before the move, in nanoseconds.
    pub elapsed: u128,
    /// The search right after the move.
    pub moved: SearchJob,
    /// What the move came to.
    pub progress: JobProgress,
    /// The search before the next move.
    pub after: SearchJob,
}

/// Whether published values settle no turf otherwise than it is found.
pub open spec fn truthful(grid: Grid, published: NavPassCache, findings: Findings) -> bool {
    forall|c: Coord|
        (#[trigger] published_info(published, (c.0, c.1, grid.z), grid.is_flying, false)) matches Some(
            info,
        ) ==> findings(c) == Some(info)
}

/// Whether a search is over.
pub open spec fn is_over(progress: JobProgress) -> bool {
    progress is Found || progress is NoPath
}

/// Whether a search makes a move and then gets the turf it asked for. Nothing else that a move
/// changes is touched before the next one.
pub open spec fn takes_turn(job: SearchJob, findings: Findings, turn: Turn) -> bool {
    &&& job.wf()
    &&& truthful(job.grid, turn.published, findings)
    &&& job.moved(turn.published, turn.elapsed, turn.moved, turn.progress)
    &&& turn.moved.same_settings(job)
    &&& turn.after.same_settings(turn.moved)
    &&& match turn.progress {
        JobProgress::NeedsTurf(coord) => turn.moved.told(coord, findings(coord), turn.after),
        _ => turn.moved.untouched(turn.after),
    }
}

/// Whether a search takes the given turns, the last of which ends it.
pub open spec fn runs_to_its_end(job: SearchJob, findings: Findings, turns: Seq<Turn>) -> bool
    decreases turns.len(),
{
    &&& turns.len() > 0
    &&& takes_turn(job, findings, turns[0])
    &&& if is_over(turns[0].progress) {
        turns.len() == 1
    } else {
        runs_to_its_end(turns[0].after, findings, turns.drop_first())
    }
}

/// Two turns of the same search that do not yield leave it the same.
proof fn lemma_same_turn(a: SearchJob, b: SearchJob, findings: Findings, x: Turn, y: Turn)
    requires
        a.untouched(b),
        b.same_settings(a),
        takes_turn(a, findings, x),
        takes_turn(b, findings, y),
        x.progress !is InProgress,
        y.progress !is InProgress,
    ensures
        is_over(x.progress) == is_over(y.progress),
        is_over(x.progress) ==> same_progress(x.progress, y.progress),
        x.after.untouched(y.after),
        y.after.same_settings(x.after),
{
    let known = a.grid.cache@;
    lemma_same_rules_same_successors(a.grid, b.grid, known, a.grid.start);
    let missing = if !a.initialized {
        match a.grid.occupiable(known, a.grid.start) {
            Err(missing) => Some(missing),
            Ok(_) => None,
        }
    } else if let Some(e) = a.current {
        lemma_missing_is_unknown(a.grid, known, e.coord);
        lemma_same_rules_same_successors(a.grid, b.grid, known, e.coord);
        match a.grid.successors_of(known, e.coord) {
            Err(missing) => Some(missing),
            Ok(_) => None,
        }
    } else {
        None
    };
    if let Some(coord) = missing {
        assert(!known.contains_key(coord));
        assert(a.learned(x.published, coord, x.moved, x.progress));
        assert(b.learned(y.published, coord, y.moved, y.progress));
        assert(x.after.grid.cache@ == known.insert(coord, findings(coord)));
        assert(y.after.grid.cache@ == known.insert(coord, findings(coord)));
    } else {
        assert(b.moved(x.published, y.elapsed, y.moved, y.progress));
        law_same_search_makes_the_same_move(
            a,
            b,
            x.published,
            x.elapsed,
            y.elapsed,
            x.moved,
            y.moved,
            x.progress,
            y.progress,
        );
    }
}

/// Where slices end has no influence: as long as turfs are found alike, two runs of the same search
/// come to the same end, however often and wherever each of them yields. A run that never yields
/// is one of them.
pub proof fn law_slices_do_not_change_the_outcome(
    a: SearchJob,
    b: SearchJob,
    findings: Findings,
    a_turns: Seq<Turn>,
    b_turns: Seq<Turn>,
)
    requires
        a.untouched(b),
        b.same_settings(a),
        runs_to_its_end(a, findings, a_turns),
        runs_to_its_end(b, findings, b_turns),
    ensures
        same_progress(a_turns.last().progress, b_turns.last().progress),
        a_turns.last().after.untouched(b_turns.last().after),
        b_turns.last().after.same_settings(a_turns.last().after),
    decreases a_turns.len() + b_turns.len(),
{
    reveal_with_fuel(runs_to_its_end, 2);
    let x = a_turns[0];
    let y = b_turns[0];
    if x.progress is InProgress {
        assert(a_turns.drop_first().last() == a_turns.last());
        law_slices_do_not_change_the_outcome(x.after, b, findings, a_turns.drop_first(), b_turns);
    } else if y.progress is InProgress {
        assert(b_turns.drop_first().last() == b_turns.last());
        law_slices_do_not_change_the_outcome(a, y.after, findings, a_turns, b_turns.drop_first());
    } else {
        lemma_same_turn(a, b, findings, x, y);
        if !is_over(x.progress) {
            assert(a_turns.drop_first().last() == a_turns.last());
            assert(b_turns.drop_first().last() == b_turns.last());
            law_slices_do_not_change_the_outcome(
                x.after,
                y.after,
                findings,
                a_turns.drop_first(),
                b_turns.drop_first(),
            );
        }
    }
}

/// Routes found on the same turfs by the same rules lead to the same path.
proof fn lemma_same_expansion(
    a: SearchJob,
    b: SearchJob,
    nodes: Seq<Coord>,
    x: Seq<DiagonalRoutes>,
    y: Seq<DiagonalRoutes>,
    steps: nat,
)
    requires
        a.untouched(b),
        b.same_settings(a),
        rechecked(a.grid, nodes, x),
        rechecked(b.grid, nodes, y),
        steps <= x.len(),
        steps <= y.len(),
    ensures
        expanded(nodes, a.diagonal_handling, x, steps) == expanded(
            nodes,
            a.diagonal_handling,
            y,
            steps,
        ),
    decreases steps,
{
    if steps > 0 {
        lemma_same_expansion(a, b, nodes, x, y, (steps - 1) as nat);
        lemma_same_routes(a, b, nodes[steps - 1], nodes[steps as int]);
        let last = steps - 1;
        assert(diagonal(nodes[last], nodes[last + 1]) ==> x[last] == y[last]);
    }
}

/// The same rules find the same routes on the same turfs.
proof fn lemma_same_routes(a: SearchJob, b: SearchJob, from: Coord, to: Coord)
    requires
        a.untouched(b),
        b.same_settings(a),
    ensures
        a.grid.routes(a.grid.cache@, from, to) == b.grid.routes(b.grid.cache@, from, to),
{
    assert forall|c: Coord|
        a.grid.occupiable(a.grid.cache@, c) == b.grid.occupiable(b.grid.cache@, c) by {}
}

/// A path that has become impossible stays so.
proof fn lemma_stays_impossible(
    nodes: Seq<Coord>,
    handling: DiagonalHandling,
    routes: Seq<DiagonalRoutes>,
    steps: nat,
    more: nat,
)
    requires
        expanded(nodes, handling, routes, steps) is None,
        steps <= more,
    ensures
        expanded(nodes, handling, routes, more) is None,
    decreases more,
{
    if steps < more {
        lemma_stays_impossible(nodes, handling, routes, steps, (more - 1) as nat);
    }
}

/// How far the recheck of a path came.
spec fn recheck_of(
    job: SearchJob,
    nodes: Seq<Coord>,
    path: Result<Option<Seq<TurfCoords>>, Coord>,
    routes: Seq<DiagonalRoutes>,
) -> bool {
    let count = routes.len() as int;
    let end = expanded(nodes, job.diagonal_handling, routes, routes.len());
    &&& rechecked(job.grid, nodes, routes)
    &&& match path {
        Ok(Some(turfs)) => count == nodes.len() - 1 && end is Some && turfs
            == skipped(end->0, job.skip_first).map_values(
            |c: Coord| (c.0, c.1, job.grid.z),
        ),
        Ok(None) => 0 < count < nodes.len() && end is None,
        Err(missing) => {
            &&& count < nodes.len() - 1
            &&& end is Some
            &&& diagonal(nodes[count], nodes[count + 1])
            &&& job.grid.routes(job.grid.cache@, nodes[count], nodes[count + 1]) == Err::<
                DiagonalRoutes,
                Coord,
            >(missing)
        },
    }
}

/// The routes that a recheck looked at.
proof fn lemma_recheck_of(
    job: SearchJob,
    nodes: Seq<Coord>,
    path: Result<Option<Seq<TurfCoords>>, Coord>,
) -> (routes: Seq<DiagonalRoutes>)
    requires
        job.rechecks_to(nodes, path),
        nodes.len() > 0,
    ensures
        recheck_of(job, nodes, path, routes),
{
    match path {
        Ok(Some(turfs)) => choose|routes: Seq<DiagonalRoutes>|
            {
                &&& routes.len() == nodes.len() - 1
                &&& #[trigger] rechecked(job.grid, nodes, routes)
                &&& expanded(nodes, job.diagonal_handling, routes, routes.len()) matches Some(whole)
                    && turfs == skipped(whole, job.skip_first).map_values(
                    |c: Coord| (c.0, c.1, job.grid.z),
                )
            },
        Ok(None) => choose|routes: Seq<DiagonalRoutes>|
            {
                &&& 0 < routes.len() < nodes.len()
                &&& #[trigger] rechecked(job.grid, nodes, routes)
                &&& expanded(nodes, job.diagonal_handling, routes, routes.len()) is None
            },
        Err(missing) => choose|routes: Seq<DiagonalRoutes>|
            {
                let k = routes.len() as int;
                &&& k < nodes.len() - 1
                &&& #[trigger] rechecked(job.grid, nodes, routes)
                &&& expanded(nodes, job.diagonal_handling, routes, routes.len()) is Some
                &&& diagonal(nodes[k], nodes[k + 1])
                &&& job.grid.routes(job.grid.cache@, nodes[k], nodes[k + 1]) == Err::<
                    DiagonalRoutes,
                    Coord,
                >(missing)
            },
    }
}

/// The recheck of a path depends on the settings and on the turfs that are known, and on nothing
/// else.
pub proof fn law_same_search_hands_out_the_same_path(
    a: SearchJob,
    b: SearchJob,
    nodes: Seq<Coord>,
    a_path: Result<Option<Seq<TurfCoords>>, Coord>,
    b_path: Result<Option<Seq<TurfCoords>>, Coord>,
)
    requires
        a.untouched(b),
        b.same_settings(a),
        a.rechecks_to(nodes, a_path),
        b.rechecks_to(nodes, b_path),
    ensures
        a_path == b_path,
{
    if nodes.len() == 0 {
        assert(a_path->Ok_0->0 =~= b_path->Ok_0->0);
    } else {
        let x = lemma_recheck_of(a, nodes, a_path);
        let y = lemma_recheck_of(b, nodes, b_path);
        let both = if x.len() <= y.len() {
            x.len()
        } else {
            y.len()
        };
        lemma_same_expansion(a, b, nodes, x, y, both);
        if expanded(nodes, a.diagonal_handling, x, both) is None {
            lemma_stays_impossible(nodes, a.diagonal_handling, x, both, x.len());
            lemma_stays_impossible(nodes, a.diagonal_handling, y, both, y.len());
        }
        if x.len() < y.len() {
            let k = x.len() as int;
            lemma_same_routes(a, b, nodes[k], nodes[k + 1]);
            assert(diagonal(nodes[k], nodes[k + 1]) ==> b.grid.routes(
                b.grid.cache@,
                nodes[k],
                nodes[k + 1],
            ) == Ok::<DiagonalRoutes, Coord>(y[k]));
        } else if y.len() < x.len() {
            let k = y.len() as int;
            lemma_same_routes(a, b, nodes[k], nodes[k + 1]);
            assert(diagonal(nodes[k], nodes[k + 1]) ==> a.grid.routes(
                a.grid.cache@,
                nodes[k],
                nodes[k + 1],
            ) == Ok::<DiagonalRoutes, Coord>(x[k]));
        } else {
            let k = y.len() as int;
            if k < nodes.len() - 1 {
                lemma_same_routes(a, b, nodes[k], nodes[k + 1]);
            }
        }
        if a_path is Ok && a_path->Ok_0 is Some {
            assert(a_path->Ok_0->0 =~= b_path->Ok_0->0);
        }
    }
}

/// One recheck of a path and what the caller did about it.
pub struct Look {
    /// What the recheck came to.
    pub path: Result<Option<Seq<TurfCoords>>, Coord>,
    /// The search before the next recheck.
    pub after: SearchJob,
}

/// Whether a path is rechecked until there is nothing left to ask for.
pub open spec fn is_rechecked(
    job: SearchJob,
    findings: Findings,
    nodes: Seq<Coord>,
    looks: Seq<Look>,
) -> bool
    decreases looks.len(),
{
    &&& looks.len() > 0
    &&& job.rechecks_to(nodes, looks[0].path)
    &&& match looks[0].path {
        Ok(_) => looks.len() == 1,
        Err(coord) => {
            &&& job.told(coord, findings(coord), looks[0].after)
            &&& is_rechecked(looks[0].after, findings, nodes, looks.drop_first())
        },
    }
}

proof fn lemma_same_recheck(
    a: SearchJob,
    b: SearchJob,
    findings: Findings,
    nodes: Seq<Coord>,
    a_looks: Seq<Look>,
    b_looks: Seq<Look>,
)
    requires
        a.untouched(b),
        b.same_settings(a),
        is_rechecked(a, findings, nodes, a_looks),
        is_rechecked(b, findings, nodes, b_looks),
    ensures
        a_looks.last().path == b_looks.last().path,
    decreases a_looks.len(),
{
    reveal_with_fuel(is_rechecked, 2);
    law_same_search_hands_out_the_same_path(a, b, nodes, a_looks[0].path, b_looks[0].path);
    if a_looks[0].path is Err {
        assert(a_looks.drop_first().last() == a_looks.last());
        assert(b_looks.drop_first().last() == b_looks.last());
        lemma_same_recheck(
            a_looks[0].after,
            b_looks[0].after,
            findings,
            nodes,
            a_looks.drop_first(),
            b_looks.drop_first(),
        );
    }
}

/// A search that is interrupted hands out the path that it would have handed out in one go: as long
/// as turfs are found alike, two runs of the same search both find no path, or both find one and
/// hand out the same turfs.
pub proof fn law_slices_do_not_change_the_path(
    a: SearchJob,
    b: SearchJob,
    findings: Findings,
    a_turns: Seq<Turn>,
    b_turns: Seq<Turn>,
    a_looks: Seq<Look>,
    b_looks: Seq<Look>,
)
    requires
        a.untouched(b),
        b.same_settings(a),
        runs_to_its_end(a, findings, a_turns),
        runs_to_its_end(b, findings, b_turns),
        a_turns.last().progress matches JobProgress::Found(nodes) ==> is_rechecked(
            a_turns.last().after,
            findings,
            nodes@,
            a_looks,
        ),
        b_turns.last().progress matches JobProgress::Found(nodes) ==> is_rechecked(
            b_turns.last().after,
            findings,
            nodes@,
            b_looks,
        ),
    ensures
        a_turns.last().progress is NoPath <==> b_turns.last().progress is NoPath,
        a_turns.last().progress is Found <==> b_turns.last().progress is Found,
        a_turns.last().progress is Found ==> a_looks.last().path == b_looks.last().path,
{
    law_slices_do_not_change_the_outcome(a, b, findings, a_turns, b_turns);
    if let JobProgress::Found(nodes) = a_turns.last().progress {
        lemma_same_recheck(
            a_turns.last().after,
            b_turns.last().after,
            findings,
            nodes@,
            a_looks,
            b_looks,
        );
    }
}

/// The map on which every turf is what it turns out to be.
pub open spec fn map_of(findings: Findings) -> Turfs {
    Map::new(|c: Coord| true, |c: Coord| findings(c))
}

/// Jobs with the same settings have the same ways.
proof fn lemma_same_ways(a: SearchJob, b: SearchJob, turfs: Turfs)
    requires
        b.same_settings(a),
    ensures
        forall|nodes: Seq<Coord>, costs: Seq<nat>|
            is_way(a, turfs, nodes, costs) == is_way(b, turfs, nodes, costs),
{
    assert forall|c: Coord| may_stand(a.grid, turfs, c) == may_stand(b.grid, turfs, c) by {}
    assert forall|from: Coord, to: Coord, cost: nat|
        can_step(a.grid, turfs, from, to, cost) == can_step(b.grid, turfs, from, to, cost) by {}
    assert forall|nodes: Seq<Coord>, costs: Seq<nat>|
        is_way(a, turfs, nodes, costs) == is_way(b, turfs, nodes, costs) by {
        if is_way(a, turfs, nodes, costs) {
            assert forall|i: int| 0 <= i < costs.len() implies can_step(
                b.grid,
                turfs,
                nodes[i],
                nodes[i + 1],
                #[trigger] costs[i],
            ) by {
                assert(can_step(a.grid, turfs, nodes[i], nodes[i + 1], costs[i]));
            }
        }
        if is_way(b, turfs, nodes, costs) {
            assert forall|i: int| 0 <= i < costs.len() implies can_step(
                a.grid,
                turfs,
                nodes[i],
                nodes[i + 1],
                #[trigger] costs[i],
            ) by {
                assert(can_step(b.grid, turfs, nodes[i], nodes[i + 1], costs[i]));
            }
        }
    }
}

/// A turn adds to what is known nothing but what turfs turn out to be.
proof fn lemma_turn_stays_on_the_map(job: SearchJob, findings: Findings, turn: Turn)
    requires
        takes_turn(job, findings, turn),
        job.grid.cache@.submap_of(map_of(findings)),
    ensures
        turn.after.grid.cache@.submap_of(map_of(findings)),
        turn.after.same_settings(job),
{
    let known = job.grid.cache@;
    let map = map_of(findings);
    let missing = if !job.initialized {
        match job.grid.occupiable(known, job.grid.start) {
            Err(missing) => Some(missing),
            Ok(_) => None,
        }
    } else if let Some(e) = job.current {
        match job.grid.successors_of(known, e.coord) {
            Err(missing) => Some(missing),
            Ok(_) => None,
        }
    } else {
        None
    };
    assert forall|c: Coord| #[trigger] turn.after.grid.cache@.dom().contains(c) implies map.dom().contains(
        c,
    ) && turn.after.grid.cache@[c] == map[c] by {
        assert(map.dom().contains(c));
        if let Some(coord) = missing {
            assert(job.learned(turn.published, coord, turn.moved, turn.progress));
        }
    }
}

/// A search whose turfs are found as they are on a map ends with a cheapest way on that map, or
/// where there is none. It does not matter how often it yields, nor what was published as long as
/// that is true.
pub proof fn law_search_finds_a_cheapest_way(job: SearchJob, findings: Findings, turns: Seq<Turn>)
    requires
        job.grid.cache@.submap_of(map_of(findings)),
        runs_to_its_end(job, findings, turns),
    ensures
        match turns.last().progress {
            JobProgress::Found(path) => is_cheapest_way(job, map_of(findings), path@),
            JobProgress::NoPath => forall|nodes: Seq<Coord>, costs: Seq<nat>|
                !(#[trigger] is_way(job, map_of(findings), nodes, costs)),
            _ => false,
        },
    decreases turns.len(),
{
    reveal_with_fuel(runs_to_its_end, 2);
    let turn = turns[0];
    let map = map_of(findings);
    if is_over(turn.progress) {
        assert(turns.last() == turn);
        match turn.progress {
            JobProgress::Found(path) => {
                law_found_path_is_cheapest(job, turn.published, turn.elapsed, turn.moved, path);
                law_found_path_is_a_cheapest_way(job, map, path@);
            },
            _ => {
                law_no_path_leaves_no_route(
                    job,
                    turn.published,
                    turn.elapsed,
                    turn.moved,
                    turn.progress,
                );
                assert forall|nodes: Seq<Coord>, costs: Seq<nat>|
                    !(#[trigger] is_way(job, map, nodes, costs)) by {
                    law_no_way_where_no_path_was_found(job, map, nodes, costs);
                }
            },
        }
    } else {
        lemma_turn_stays_on_the_map(job, findings, turn);
        assert(turns.drop_first().last() == turns.last());
        law_search_finds_a_cheapest_way(turn.after, findings, turns.drop_first());
        lemma_same_ways(job, turn.after, map);
        if let JobProgress::Found(path) = turns.last().progress {
            let costs = choose|costs: Seq<nat>|
                {
                    &&& #[trigger] is_way(turn.after, map, path@, costs)
                    &&& forall|nodes: Seq<Coord>, others: Seq<nat>| #[trigger]
                        is_way(turn.after, map, nodes, others) ==> total(costs) <= total(others)
                };
            assert(is_way(job, map, path@, costs));
        }
    }
}

} // verus!
