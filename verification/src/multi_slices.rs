//! Where the slices of a multi-level search end has no influence on its outcome.

use crate::diagonals::{DiagonalHandling, DiagonalRoutes};
use crate::geometry::{LayeredNode, TurfCoords};
use crate::layered_grid::{
    is_link_among, is_link_of, law_more_turfs_keep_layered_successors,
    lemma_equivalent_layered_successors, lemma_layered_successors_bounds, LayeredAction,
    LayeredTurfs, Request, Successor,
};
use crate::layered_world::{
    can_move, is_way, law_every_successor_is_a_possible_move, law_occupied_where_one_may_stand,
    law_successors_are_the_possible_moves, lemma_next_answer, lemma_prefix_lists_the_same,
    lemma_same_steady_successors, lemma_way_is_a_walk, link_leads, may_stand,
};
use crate::multi_search::{
    law_found_path_is_cheapest, law_no_path_leaves_no_route, law_same_search_makes_the_same_move,
    law_steady_world_agrees, layered_expansion, layered_rechecked, leads_to, lemma_one_way_back,
    listed, offered, retraces, saturated, steady_edges, turning, LayeredBook, MultiJobProgress,
    MultiSearchJob,
};
use crate::nav_pass::{NavPassCache, TurfInfo};
use crate::portal::PortalHeuristic;
use crate::queue::LayeredQueueEntry;
use crate::topology::NavLink;
use crate::walks::{is_walk, lemma_admissible_for_part, total};
use vstd::prelude::*;

verus! {

/// What the world is like.
pub struct Findings {
    /// What the turf at every node turns out to be when it is looked up.
    pub turfs: spec_fn(LayeredNode) -> Option<TurfInfo>,
    /// Whether the mover may plan to take a link.
    pub links: spec_fn(u64) -> bool,
}

/// One move of a search and what the caller did about it.
pub struct Turn {
    /// The published values at the time of the move.
    pub published: NavPassCache,
    /// The time spent in the slice before the move, in nanoseconds.
    pub elapsed: u128,
    /// The search right after the move.
    pub moved: MultiSearchJob,
    /// What the move came to.
    pub progress: MultiJobProgress,
    /// The search before the next move.
    pub after: MultiSearchJob,
}

/// Whether no turf is settled without locating it otherwise than it is found.
pub open spec fn truthful(
    job: MultiSearchJob,
    published: NavPassCache,
    findings: Findings,
) -> bool {
    forall|n: LayeredNode|
        (#[trigger] job.grid.settled(published, n)) matches Some(info) ==> (findings.turfs)(n)
            == info
}

/// Whether a search is over.
pub open spec fn is_over(progress: MultiJobProgress) -> bool {
    progress is Found || progress is NoPath
}

/// Whether a search makes a move and then gets what it asked for. Nothing else that a move changes
/// is touched before the next one, and the topology stays as it was.
pub open spec fn takes_turn(job: MultiSearchJob, findings: Findings, turn: Turn) -> bool {
    &&& job.wf()
    &&& truthful(job, turn.published, findings)
    &&& job.moved(turn.published, turn.elapsed, turn.moved, turn.progress)
    &&& turn.moved.same_settings(job)
    &&& turn.after.same_settings(turn.moved)
    &&& match turn.progress {
        MultiJobProgress::NeedsTurf(node) => turn.moved.told(
            node,
            (findings.turfs)(node),
            turn.after,
        ),
        MultiJobProgress::NeedsLink(id) => turn.moved.answered((findings.links)(id), turn.after),
        _ => turn.moved.untouched(turn.after),
    }
}

/// Whether a search takes the given turns, the last of which ends it.
pub open spec fn runs_to_its_end(job: MultiSearchJob, findings: Findings, turns: Seq<Turn>) -> bool
    decreases turns.len(),
{
    &&& turns.len() > 0
    &&& takes_turn(job, findings, turns[0])
    &&& if is_over(turns[0].progress) {
        turns.len() == 1
    } else {
        runs_to_its_end(turns[0].after, findings, turns.drop_first())
    }
}

/// Two turns of the same search that do not yield leave it the same.
proof fn lemma_same_turn(a: MultiSearchJob, b: MultiSearchJob, findings: Findings, x: Turn, y: Turn)
    requires
        a.untouched(b),
        a.alike(b),
        takes_turn(a, findings, x),
        takes_turn(b, findings, y),
        x.progress !is InProgress,
        y.progress !is InProgress,
    ensures
        is_over(x.progress) == is_over(y.progress),
        is_over(x.progress) ==> x.progress == y.progress,
        x.after.untouched(y.after),
        x.after.alike(y.after),
{
    let known = a.grid.cache@;
    let replies = a.replies@;
    lemma_equivalent_layered_successors(a.grid, b.grid, known, replies, a.grid.start);
    let missing = if !a.initialized {
        match a.grid.occupiable(known, a.grid.start) {
            Err(missing) => Some(missing),
            Ok(_) => None,
        }
    } else if let Some(e) = a.current {
        lemma_layered_successors_bounds(a.grid, known, replies, e.node);
        lemma_equivalent_layered_successors(a.grid, b.grid, known, replies, e.node);
        match a.grid.successors_of(known, replies, e.node) {
            Err(missing) => Some(missing),
            Ok(_) => None,
        }
    } else {
        None
    };
    match missing {
        Some(Request::Turf(node)) => {
            assert(!known.contains_key(node));
            assert(a.learned(x.published, Request::Turf(node), x.moved, x.progress));
            assert(b.learned(y.published, Request::Turf(node), y.moved, y.progress));
            assert(x.after.grid.cache@ == known.insert(node, (findings.turfs)(node)));
            assert(y.after.grid.cache@ == known.insert(node, (findings.turfs)(node)));
        },
        Some(Request::Link(id)) => {
            assert(a.learned(x.published, Request::Link(id), x.moved, x.progress));
            assert(b.learned(y.published, Request::Link(id), y.moved, y.progress));
        },
        None => {
            assert(b.moved(x.published, y.elapsed, y.moved, y.progress));
            law_same_search_makes_the_same_move(
                a,
                b,
                x.published,
                x.elapsed,
                y.elapsed,
                x.moved,
                y.moved,
                x.progress,
                y.progress,
            );
        },
    }
}

/// Where slices end has no influence: as long as turfs and links are found alike, two runs of the
/// same search come to the same end, however often and wherever each of them yields. A run that
/// never yields is one of them.
pub proof fn law_slices_do_not_change_the_outcome(
    a: MultiSearchJob,
    b: MultiSearchJob,
    findings: Findings,
    a_turns: Seq<Turn>,
    b_turns: Seq<Turn>,
)
    requires
        a.untouched(b),
        a.alike(b),
        runs_to_its_end(a, findings, a_turns),
        runs_to_its_end(b, findings, b_turns),
    ensures
        a_turns.last().progress == b_turns.last().progress,
        a_turns.last().after.untouched(b_turns.last().after),
        a_turns.last().after.alike(b_turns.last().after),
    decreases a_turns.len() + b_turns.len(),
{
    reveal_with_fuel(runs_to_its_end, 2);
    let x = a_turns[0];
    let y = b_turns[0];
    if x.progress is InProgress {
        assert(a_turns.drop_first().last() == a_turns.last());
        law_slices_do_not_change_the_outcome(x.after, b, findings, a_turns.drop_first(), b_turns);
    } else if y.progress is InProgress {
        assert(b_turns.drop_first().last() == b_turns.last());
        law_slices_do_not_change_the_outcome(a, y.after, findings, a_turns, b_turns.drop_first());
    } else {
        lemma_same_turn(a, b, findings, x, y);
        if !is_over(x.progress) {
            assert(a_turns.drop_first().last() == a_turns.last());
            assert(b_turns.drop_first().last() == b_turns.last());
            law_slices_do_not_change_the_outcome(
                x.after,
                y.after,
                findings,
                a_turns.drop_first(),
                b_turns.drop_first(),
            );
        }
    }
}

/// The same rules find the same routes on the same turfs.
proof fn lemma_same_routes(a: MultiSearchJob, b: MultiSearchJob, from: LayeredNode, to: LayeredNode)
    requires
        a.untouched(b),
        a.alike(b),
    ensures
        a.grid.routes(a.grid.cache@, from, to) == b.grid.routes(b.grid.cache@, from, to),
{
    assert forall|n: LayeredNode|
        a.grid.occupiable(a.grid.cache@, n) == b.grid.occupiable(b.grid.cache@, n) by {}
}

/// Routes found on the same turfs by the same rules lead to the same path.
proof fn lemma_same_expansion(
    a: MultiSearchJob,
    b: MultiSearchJob,
    nodes: Seq<LayeredNode>,
    actions: Seq<LayeredAction>,
    x: Seq<DiagonalRoutes>,
    y: Seq<DiagonalRoutes>,
    steps: nat,
)
    requires
        a.untouched(b),
        a.alike(b),
        layered_rechecked(a.grid, nodes, actions, x),
        layered_rechecked(b.grid, nodes, actions, y),
        steps <= x.len(),
        steps <= y.len(),
    ensures
        layered_expansion(nodes, actions, a.diagonal_handling, x, steps) == layered_expansion(
            nodes,
            actions,
            a.diagonal_handling,
            y,
            steps,
        ),
    decreases steps,
{
    if steps > 0 {
        lemma_same_expansion(a, b, nodes, actions, x, y, (steps - 1) as nat);
        lemma_same_routes(a, b, nodes[steps - 1], nodes[steps as int]);
        let last = steps - 1;
        assert(turning(nodes[last], nodes[last + 1], actions[last + 1]) ==> x[last] == y[last]);
    }
}

/// A path that has become impossible stays so.
proof fn lemma_stays_impossible(
    nodes: Seq<LayeredNode>,
    actions: Seq<LayeredAction>,
    handling: DiagonalHandling,
    routes: Seq<DiagonalRoutes>,
    steps: nat,
    more: nat,
)
    requires
        layered_expansion(nodes, actions, handling, routes, steps) is None,
        steps <= more,
    ensures
        layered_expansion(nodes, actions, handling, routes, more) is None,
    decreases more,
{
    if steps < more {
        lemma_stays_impossible(nodes, actions, handling, routes, steps, (more - 1) as nat);
    }
}

/// What stops the recheck of a path, if anything does.
enum Halt {
    End,
    Impossible,
    Unknown(Request),
}

/// How far the recheck of a path came.
spec fn halts(
    job: MultiSearchJob,
    nodes: Seq<LayeredNode>,
    actions: Seq<LayeredAction>,
    routes: Seq<DiagonalRoutes>,
    expansion: Option<(Seq<LayeredNode>, Seq<LayeredAction>)>,
    halt: Halt,
) -> bool {
    let k = routes.len() as int;
    &&& job.handled(nodes, actions, routes, expansion)
    &&& match halt {
        Halt::End => expansion is Some && k + 1 == nodes.len(),
        Halt::Impossible => expansion is None,
        Halt::Unknown(missing) => {
            &&& expansion is Some
            &&& k < nodes.len() - 1
            &&& turning(nodes[k], nodes[k + 1], actions[k + 1])
            &&& job.grid.routes(job.grid.cache@, nodes[k], nodes[k + 1]) == Err::<
                DiagonalRoutes,
                Request,
            >(missing)
        },
    }
}

/// Rechecks of one path on the same turfs stop at the same point.
proof fn lemma_same_halt(
    a: MultiSearchJob,
    b: MultiSearchJob,
    nodes: Seq<LayeredNode>,
    actions: Seq<LayeredAction>,
    x: (Seq<DiagonalRoutes>, Option<(Seq<LayeredNode>, Seq<LayeredAction>)>, Halt),
    y: (Seq<DiagonalRoutes>, Option<(Seq<LayeredNode>, Seq<LayeredAction>)>, Halt),
)
    requires
        a.untouched(b),
        a.alike(b),
        halts(a, nodes, actions, x.0, x.1, x.2),
        halts(b, nodes, actions, y.0, y.1, y.2),
    ensures
        x.1 == y.1,
        x.2 == y.2,
{
    let handling = a.diagonal_handling;
    let both = if x.0.len() <= y.0.len() {
        x.0.len()
    } else {
        y.0.len()
    };
    lemma_same_expansion(a, b, nodes, actions, x.0, y.0, both);
    if layered_expansion(nodes, actions, handling, x.0, both) is None {
        lemma_stays_impossible(nodes, actions, handling, x.0, both, x.0.len());
        lemma_stays_impossible(nodes, actions, handling, y.0, both, y.0.len());
    }
    let k = both as int;
    if k < nodes.len() - 1 {
        lemma_same_routes(a, b, nodes[k], nodes[k + 1]);
        if k < x.0.len() {
            assert(turning(nodes[k], nodes[k + 1], actions[k + 1]) ==> a.grid.routes(
                a.grid.cache@,
                nodes[k],
                nodes[k + 1],
            ) == Ok::<DiagonalRoutes, Request>(x.0[k]));
        }
        if k < y.0.len() {
            assert(turning(nodes[k], nodes[k + 1], actions[k + 1]) ==> b.grid.routes(
                b.grid.cache@,
                nodes[k],
                nodes[k + 1],
            ) == Ok::<DiagonalRoutes, Request>(y.0[k]));
        }
    }
}

/// Whether a path is handed out where the recheck stopped.
spec fn path_follows(
    job: MultiSearchJob,
    expansion: Option<(Seq<LayeredNode>, Seq<LayeredAction>)>,
    halt: Halt,
    path: Result<Option<(Seq<TurfCoords>, Seq<LayeredAction>)>, Request>,
) -> bool {
    match path {
        Err(missing) => halt == Halt::Unknown(missing),
        Ok(None) => {
            ||| halt is Impossible
            ||| halt is End && (expansion matches Some((whole, _)) && !on_the_map(job, whole))
        },
        Ok(Some((turfs, taken))) => {
            &&& halt is End
            &&& expansion matches Some((whole, ways)) && ways == taken && on_the_map(job, whole)
                && placed_at(job, whole, turfs)
        },
    }
}

/// Where the recheck of a path stopped.
proof fn lemma_halts(
    job: MultiSearchJob,
    nodes: Seq<LayeredNode>,
    actions: Seq<LayeredAction>,
    path: Result<Option<(Seq<TurfCoords>, Seq<LayeredAction>)>, Request>,
) -> (stop: (Seq<DiagonalRoutes>, Option<(Seq<LayeredNode>, Seq<LayeredAction>)>, Halt))
    requires
        job.recheck_is(nodes, actions, path),
    ensures
        halts(job, nodes, actions, stop.0, stop.1, stop.2),
        path_follows(job, stop.1, stop.2, path),
{
    match path {
        Err(missing) => {
            let (routes, part) = choose|
                routes: Seq<DiagonalRoutes>,
                part: (Seq<LayeredNode>, Seq<LayeredAction>),
            |
                {
                    let k = routes.len() as int;
                    &&& #[trigger] job.handled(nodes, actions, routes, Some(part))
                    &&& k < nodes.len() - 1
                    &&& turning(nodes[k], nodes[k + 1], actions[k + 1])
                    &&& job.grid.routes(job.grid.cache@, nodes[k], nodes[k + 1]) == Err::<
                        DiagonalRoutes,
                        Request,
                    >(missing)
                };
            (routes, Some(part), Halt::Unknown(missing))
        },
        Ok(None) => if job.is_stuck(nodes, actions) {
            let routes = choose|routes: Seq<DiagonalRoutes>| #[trigger]
                job.handled(nodes, actions, routes, None);
            (routes, None, Halt::Impossible)
        } else {
            let (whole, taken) = choose|whole: Seq<LayeredNode>, taken: Seq<LayeredAction>| #[trigger]
                job.comes_out(nodes, actions, whole, taken) && exists|i: int|
                    0 <= i < whole.len() && job.grid.topology.z_of(#[trigger] whole[i]) is None;
            let i = choose|i: int|
                0 <= i < whole.len() && job.grid.topology.z_of(#[trigger] whole[i]) is None;
            assert(!on_the_map(job, whole));
            let routes = choose|routes: Seq<DiagonalRoutes>| #[trigger]
                job.handled(nodes, actions, routes, Some((whole, taken))) && routes.len() + 1
                    == nodes.len();
            (routes, Some((whole, taken)), Halt::End)
        },
        Ok(Some((turfs, taken))) => {
            let whole = choose|whole: Seq<LayeredNode>|
                {
                    &&& #[trigger] job.comes_out(nodes, actions, whole, taken)
                    &&& turfs.len() == whole.len()
                    &&& forall|i: int|
                        0 <= i < whole.len() ==> job.placed(whole[i], #[trigger] turfs[i])
                };
            assert forall|i: int| 0 <= i < whole.len() implies job.grid.topology.z_of(
                #[trigger] whole[i],
            ) is Some by {
                assert(job.placed(whole[i], turfs[i]));
            }
            let routes = choose|routes: Seq<DiagonalRoutes>| #[trigger]
                job.handled(nodes, actions, routes, Some((whole, taken))) && routes.len() + 1
                    == nodes.len();
            (routes, Some((whole, taken)), Halt::End)
        },
    }
}

/// Whether every node has a z-level.
spec fn on_the_map(job: MultiSearchJob, nodes: Seq<LayeredNode>) -> bool {
    forall|i: int|
        0 <= i < nodes.len() ==> job.grid.topology.z_of(#[trigger] nodes[i]) is Some
}

/// Whether the world positions of nodes are the given ones.
spec fn placed_at(job: MultiSearchJob, nodes: Seq<LayeredNode>, turfs: Seq<TurfCoords>) -> bool {
    &&& turfs.len() == nodes.len()
    &&& forall|i: int| 0 <= i < nodes.len() ==> job.placed(nodes[i], #[trigger] turfs[i])
}

/// The recheck of a path depends on the settings, on what was written down and on the turfs that
/// are known, and on nothing else.
pub proof fn law_same_search_hands_out_the_same_path(
    a: MultiSearchJob,
    b: MultiSearchJob,
    goal: LayeredNode,
    a_path: Result<Option<(Seq<TurfCoords>, Seq<LayeredAction>)>, Request>,
    b_path: Result<Option<(Seq<TurfCoords>, Seq<LayeredAction>)>, Request>,
)
    requires
        a.untouched(b),
        a.alike(b),
        a.rechecks_to(goal, a_path),
        b.rechecks_to(goal, b_path),
    ensures
        a_path == b_path,
{
    assert(b.previous@ == b.book().previous);
    let (nodes, actions) = choose|nodes: Seq<LayeredNode>, actions: Seq<LayeredAction>|
        {
            &&& #[trigger] retraces(a.previous@, nodes, actions, goal)
            &&& a.recheck_is(nodes, actions, a_path)
        };
    let (others, ways) = choose|nodes: Seq<LayeredNode>, actions: Seq<LayeredAction>|
        {
            &&& #[trigger] retraces(b.previous@, nodes, actions, goal)
            &&& b.recheck_is(nodes, actions, b_path)
        };
    lemma_one_way_back(a.previous@, (nodes, actions), (others, ways), goal);
    let x = lemma_halts(a, nodes, actions, a_path);
    let y = lemma_halts(b, nodes, actions, b_path);
    lemma_same_halt(a, b, nodes, actions, x, y);
    if let Some((whole, _)) = x.1 {
        assert(on_the_map(a, whole) == on_the_map(b, whole));
        if let Ok(Some((turfs, _))) = a_path {
            if let Ok(Some((same, _))) = b_path {
                assert forall|i: int| 0 <= i < turfs.len() implies turfs[i] == same[i] by {
                    assert(a.placed(whole[i], turfs[i]));
                    assert(b.placed(whole[i], same[i]));
                }
                assert(turfs =~= same);
            }
        }
    }
}

/// One recheck of a path and what the caller did about it.
pub struct Look {
    /// What the recheck came to.
    pub path: Result<Option<(Seq<TurfCoords>, Seq<LayeredAction>)>, Request>,
    /// The search before the next recheck.
    pub after: MultiSearchJob,
}

/// Whether a path is rechecked until there is nothing left to ask for.
pub open spec fn is_rechecked(
    job: MultiSearchJob,
    findings: Findings,
    goal: LayeredNode,
    looks: Seq<Look>,
) -> bool
    decreases looks.len(),
{
    &&& looks.len() > 0
    &&& job.rechecks_to(goal, looks[0].path)
    &&& match looks[0].path {
        Ok(_) => looks.len() == 1,
        Err(missing) => {
            &&& match missing {
                Request::Turf(node) => job.told(node, (findings.turfs)(node), looks[0].after),
                Request::Link(id) => job.answered((findings.links)(id), looks[0].after),
            }
            &&& is_rechecked(looks[0].after, findings, goal, looks.drop_first())
        },
    }
}

proof fn lemma_same_recheck(
    a: MultiSearchJob,
    b: MultiSearchJob,
    findings: Findings,
    goal: LayeredNode,
    a_looks: Seq<Look>,
    b_looks: Seq<Look>,
)
    requires
        a.untouched(b),
        a.alike(b),
        is_rechecked(a, findings, goal, a_looks),
        is_rechecked(b, findings, goal, b_looks),
    ensures
        a_looks.last().path == b_looks.last().path,
    decreases a_looks.len(),
{
    reveal_with_fuel(is_rechecked, 2);
    law_same_search_hands_out_the_same_path(a, b, goal, a_looks[0].path, b_looks[0].path);
    if a_looks[0].path is Err {
        assert(a_looks.drop_first().last() == a_looks.last());
        assert(b_looks.drop_first().last() == b_looks.last());
        lemma_same_recheck(
            a_looks[0].after,
            b_looks[0].after,
            findings,
            goal,
            a_looks.drop_first(),
            b_looks.drop_first(),
        );
    }
}

/// A search that is interrupted hands out the path that it would have handed out in one go: as long
/// as turfs and links are found alike, two runs of the same search both find no path, or both find
/// one and hand out the same turfs with the same actions.
pub proof fn law_slices_do_not_change_the_path(
    a: MultiSearchJob,
    b: MultiSearchJob,
    findings: Findings,
    a_turns: Seq<Turn>,
    b_turns: Seq<Turn>,
    a_looks: Seq<Look>,
    b_looks: Seq<Look>,
)
    requires
        a.untouched(b),
        a.alike(b),
        runs_to_its_end(a, findings, a_turns),
        runs_to_its_end(b, findings, b_turns),
        a_turns.last().progress matches MultiJobProgress::Found(goal) ==> is_rechecked(
            a_turns.last().after,
            findings,
            goal,
            a_looks,
        ),
        b_turns.last().progress matches MultiJobProgress::Found(goal) ==> is_rechecked(
            b_turns.last().after,
            findings,
            goal,
            b_looks,
        ),
    ensures
        a_turns.last().progress == b_turns.last().progress,
        a_turns.last().progress is Found ==> a_looks.last().path == b_looks.last().path,
{
    law_slices_do_not_change_the_outcome(a, b, findings, a_turns, b_turns);
    if let MultiJobProgress::Found(goal) = a_turns.last().progress {
        lemma_same_recheck(
            a_turns.last().after,
            b_turns.last().after,
            findings,
            goal,
            a_looks,
            b_looks,
        );
    }
}

/// The map on which every turf is what it turns out to be.
pub open spec fn map_of(findings: Findings) -> LayeredTurfs {
    Map::new(|n: LayeredNode| true, |n: LayeredNode| (findings.turfs)(n))
}

/// Whether a search has been told nothing but what is found: its turfs are those of the map, what it
/// has listed are the moves that can be made, it has taken no link that may not be planned, and the
/// answers that it has got for the node in hand are the true ones.
spec fn told_truly(job: MultiSearchJob, findings: Findings) -> bool {
    let map = map_of(findings);
    &&& job.grid.cache@.submap_of(map)
    &&& forall|n: LayeredNode| #[trigger]
        job.history@.lists.contains_key(n) ==> job.grid.steady_successors(map, findings.links, n)
            == Ok::<Seq<Successor>, Request>(job.history@.lists[n])
    &&& forall|n: LayeredNode| #[trigger]
        job.previous@.contains_key(n) ==> may_take(job.previous@[n].1, findings.links)
    &&& job.current matches Some(e) ==> job.replies@.is_prefix_of(
        job.grid.steady_replies(
            map,
            findings.links,
            job.grid.links_at(e.node),
            job.grid.links_at(e.node).len(),
        ),
    )
}

/// Whether an action takes no link that may not be planned.
spec fn may_take(action: LayeredAction, may_plan: spec_fn(u64) -> bool) -> bool {
    action matches LayeredAction::Link(id) ==> may_plan(id)
}

proof fn lemma_offers_take_what_is_listed(
    book: LayeredBook,
    heuristic: PortalHeuristic,
    max_cost: u32,
    from: LayeredQueueEntry,
    out: Seq<Successor>,
    count: nat,
    may_plan: spec_fn(u64) -> bool,
)
    requires
        count <= out.len(),
        forall|n: LayeredNode| #[trigger]
            book.previous.contains_key(n) ==> may_take(book.previous[n].1, may_plan),
        forall|i: int| 0 <= i < out.len() ==> may_take((#[trigger] out[i]).2, may_plan),
    ensures
        ({
            let after = offered(book, heuristic, max_cost, from, out, count);
            &&& after.lists == book.lists
            &&& forall|n: LayeredNode| #[trigger]
                after.previous.contains_key(n) ==> may_take(after.previous[n].1, may_plan)
        }),
    decreases count,
{
    if count > 0 {
        lemma_offers_take_what_is_listed(
            book,
            heuristic,
            max_cost,
            from,
            out,
            (count - 1) as nat,
            may_plan,
        );
        assert(may_take(out[count - 1].2, may_plan));
    }
}

/// Whatever was asked for, what a turn adds is found.
proof fn lemma_turn_stays_true(job: MultiSearchJob, findings: Findings, turn: Turn)
    requires
        takes_turn(job, findings, turn),
        told_truly(job, findings),
    ensures
        turn.after.same_settings(job),
        told_truly(turn.after, findings),
{
    let known = job.grid.cache@;
    let replies = job.replies@;
    let map = map_of(findings);
    let after = turn.after;
    let missing = if !job.initialized {
        match job.grid.occupiable(known, job.grid.start) {
            Err(missing) => Some(missing),
            Ok(_) => None,
        }
    } else if let Some(e) = job.current {
        match job.grid.successors_of(known, replies, e.node) {
            Err(missing) => Some(missing),
            Ok(_) => None,
        }
    } else {
        None
    };
    assert(after.history@.lists == after.book().lists && after.previous@ == after.book().previous);
    assert(turn.moved.history@.lists == turn.moved.book().lists && turn.moved.previous@
        == turn.moved.book().previous);
    if let Some(request) = missing {
        assert(job.learned(turn.published, request, turn.moved, turn.progress));
    }
    assert forall|n: LayeredNode| #[trigger] after.grid.cache@.dom().contains(n) implies map.dom().contains(
        n,
    ) && after.grid.cache@[n] == map[n] by {
        assert(map.dom().contains(n));
    }
    assert forall|n: LayeredNode|
        job.grid.steady_successors(map, findings.links, n) == after.grid.steady_successors(
            map,
            findings.links,
            n,
        ) by {
        lemma_same_steady_successors(job.grid, after.grid, map, findings.links, n);
    }
    if let Some(e) = job.current {
        lemma_same_steady_successors(job.grid, after.grid, map, findings.links, e.node);
        if job.initialized {
            match job.grid.successors_of(known, replies, e.node) {
                Ok(out) => {
                    lemma_prefix_lists_the_same(
                        job.grid,
                        known,
                        map,
                        findings.links,
                        replies,
                        e.node,
                    );
                    assert forall|i: int| 0 <= i < out.len() implies may_take(
                        (#[trigger] out[i]).2,
                        findings.links,
                    ) by {
                        assert(out.contains(out[i]));
                        law_successors_are_the_possible_moves(
                            job.grid,
                            map,
                            findings.links,
                            e.node,
                            out[i],
                        );
                    }
                    lemma_offers_take_what_is_listed(
                        job.book(),
                        job.heuristic,
                        job.grid.max_cost,
                        e,
                        out,
                        out.len(),
                        findings.links,
                    );
                },
                Err(Request::Link(id)) => {
                    lemma_next_answer(
                        job.grid,
                        known,
                        map,
                        findings.links,
                        replies,
                        e.node,
                        id,
                    );
                },
                Err(Request::Turf(_)) => {},
            }
        }
    } else if let Some(e) = after.current {
        assert(after.replies@ =~= Seq::<bool>::empty());
    }
    assert forall|n: LayeredNode| #[trigger]
        after.history@.lists.contains_key(n) implies after.grid.steady_successors(
        map,
        findings.links,
        n,
    ) == Ok::<Seq<Successor>, Request>(after.history@.lists[n]) by {
        assert(job.grid.steady_successors(map, findings.links, n) == after.grid.steady_successors(
            map,
            findings.links,
            n,
        ));
        if job.history@.lists.contains_key(n) {
            assert(job.grid.steady_successors(map, findings.links, n) == Ok::<
                Seq<Successor>,
                Request,
            >(job.history@.lists[n]));
        }
    }
}

/// Jobs with the same settings have the same ways.
proof fn lemma_same_ways(
    a: MultiSearchJob,
    b: MultiSearchJob,
    turfs: LayeredTurfs,
    may_plan: spec_fn(u64) -> bool,
    nodes: Seq<LayeredNode>,
    actions: Seq<LayeredAction>,
    costs: Seq<nat>,
)
    requires
        b.same_settings(a),
    ensures
        is_way(a, turfs, may_plan, nodes, actions, costs) == is_way(
            b,
            turfs,
            may_plan,
            nodes,
            actions,
            costs,
        ),
{
    assert forall|n: LayeredNode| may_stand(a.grid, turfs, n) == may_stand(b.grid, turfs, n) by {}
    assert forall|from: LayeredNode, to: LayeredNode, link: NavLink|
        link_leads(a.grid, turfs, from, to, link) == link_leads(b.grid, turfs, from, to, link) by {}
    assert forall|from: LayeredNode, to: LayeredNode, cost: nat, action: LayeredAction|
        can_move(a.grid, turfs, may_plan, from, to, cost, action) == can_move(
            b.grid,
            turfs,
            may_plan,
            from,
            to,
            cost,
            action,
        ) by {
        if let LayeredAction::Link(id) = action {
            if can_move(a.grid, turfs, may_plan, from, to, cost, action) {
                let link = choose|link: NavLink| #[trigger]
                    link_leads(a.grid, turfs, from, to, link) && link.id == id && link.cost == cost;
                assert(link_leads(b.grid, turfs, from, to, link));
            }
            if can_move(b.grid, turfs, may_plan, from, to, cost, action) {
                let link = choose|link: NavLink| #[trigger]
                    link_leads(b.grid, turfs, from, to, link) && link.id == id && link.cost == cost;
                assert(link_leads(a.grid, turfs, from, to, link));
            }
        }
    }
    if is_way(a, turfs, may_plan, nodes, actions, costs) {
        assert forall|i: int| 0 <= i < costs.len() implies can_move(
            b.grid,
            turfs,
            may_plan,
            nodes[i],
            nodes[i + 1],
            #[trigger] costs[i],
            actions[i + 1],
        ) by {
            assert(can_move(
                a.grid,
                turfs,
                may_plan,
                nodes[i],
                nodes[i + 1],
                costs[i],
                actions[i + 1],
            ));
        }
    }
    if is_way(b, turfs, may_plan, nodes, actions, costs) {
        assert forall|i: int| 0 <= i < costs.len() implies can_move(
            a.grid,
            turfs,
            may_plan,
            nodes[i],
            nodes[i + 1],
            #[trigger] costs[i],
            actions[i + 1],
        ) by {
            assert(can_move(
                b.grid,
                turfs,
                may_plan,
                nodes[i],
                nodes[i + 1],
                costs[i],
                actions[i + 1],
            ));
        }
    }
}

/// Jobs with the same settings have lower bounds together.
proof fn lemma_same_lower_bound(a: MultiSearchJob, b: MultiSearchJob)
    requires
        b.same_settings(a),
        a.lower_bound(),
    ensures
        b.lower_bound(),
{
    let estimate = a.heuristic.estimator();
    let target = |n: LayeredNode| a.in_target(n);
    assert forall|x: LayeredNode, y: LayeredNode, c: nat| #[trigger] (b.grid.moves())(
        x,
        y,
        c,
    ) implies (a.grid.moves())(x, y, c) by {
        let item = choose|item: Successor| #[trigger]
            b.grid.is_move(x, item) && item.0 == y && item.1 == c;
        assert(a.grid.links_at(x) == b.grid.links_at(x));
        if is_link_among(b.grid, b.grid.links_at(x), item) {
            let links = b.grid.links_at(x);
            let i = choose|i: int| 0 <= i < links.len() && is_link_of(
                b.grid,
                #[trigger] links[i],
                item,
            );
            assert(is_link_of(a.grid, links[i], item));
        }
        assert(a.grid.is_move(x, item));
    }
    lemma_admissible_for_part(a.grid.moves(), b.grid.moves(), estimate, target);
    assert forall|nodes: Seq<LayeredNode>, steps: Seq<nat>| #[trigger]
        is_walk(b.grid.moves(), nodes, steps) && (|n: LayeredNode| b.in_target(n))(
            nodes.last(),
        ) implies (b.heuristic.estimator())(nodes[0]) <= total(steps) by {
        assert(target(nodes.last()));
    }
}

/// What a way costs, as far as 32 bits can tell.
pub open spec fn cost_of(costs: Seq<nat>) -> nat {
    if total(costs) < u32::MAX {
        total(costs)
    } else {
        u32::MAX as nat
    }
}

/// Whether a way leads to a node and back along the recorded predecessors, keeps the cost limit, and
/// is a cheapest one, if the estimate of the search is a lower bound.
pub open spec fn is_answer(
    job: MultiSearchJob,
    findings: Findings,
    after: MultiSearchJob,
    end: LayeredNode,
    nodes: Seq<LayeredNode>,
    actions: Seq<LayeredAction>,
    costs: Seq<nat>,
) -> bool {
    &&& is_way(job, map_of(findings), findings.links, nodes, actions, costs)
    &&& nodes.last() == end
    &&& retraces(after.previous@, nodes, actions, end)
    &&& job.grid.max_cost > 0 ==> cost_of(costs) <= job.grid.max_cost
    &&& job.lower_bound() ==> forall|
        others: Seq<LayeredNode>,
        moves: Seq<LayeredAction>,
        prices: Seq<nat>,
    | #[trigger]
        is_way(job, map_of(findings), findings.links, others, moves, prices) && (job.grid.max_cost
            > 0 ==> total(prices) <= job.grid.max_cost) ==> cost_of(costs) <= total(prices)
}

/// Whether no way keeps the cost limit.
pub open spec fn is_dead_end(job: MultiSearchJob, findings: Findings) -> bool {
    forall|nodes: Seq<LayeredNode>, actions: Seq<LayeredAction>, costs: Seq<nat>| #[trigger]
        is_way(job, map_of(findings), findings.links, nodes, actions, costs) ==> 0
            < job.grid.max_cost < total(costs)
}

/// The last turn of a search that was told the truth.
proof fn lemma_last_turn(job: MultiSearchJob, findings: Findings, turn: Turn)
    requires
        takes_turn(job, findings, turn),
        told_truly(job, findings),
        is_over(turn.progress),
    ensures
        match turn.progress {
            MultiJobProgress::Found(end) => exists|
                nodes: Seq<LayeredNode>,
                actions: Seq<LayeredAction>,
                costs: Seq<nat>,
            | #[trigger]
                is_answer(job, findings, turn.after, end, nodes, actions, costs),
            _ => is_dead_end(job, findings),
        },
{
    let map = map_of(findings);
    let known = job.grid.cache@;
    let edge = steady_edges(job.grid, map, findings.links);
    assert forall|n: LayeredNode| #[trigger] map.contains_key(n) by {}
    law_steady_world_agrees(job, map, findings.links);
    match turn.progress {
        MultiJobProgress::Found(end) => {
            law_found_path_is_cheapest(job, turn.published, turn.elapsed, turn.moved, end);
            let (nodes, actions, costs) = choose|
                nodes: Seq<LayeredNode>,
                actions: Seq<LayeredAction>,
                steps: Seq<nat>,
            |
                {
                    &&& #[trigger] job.found_path(end, nodes, actions, steps)
                    &&& job.lower_bound() ==> job.unbeaten(saturated(total(steps) as int) as int)
                };
            assert forall|i: int| 0 <= i < costs.len() implies can_move(
                job.grid,
                map,
                findings.links,
                nodes[i],
                nodes[i + 1],
                #[trigger] costs[i],
                actions[i + 1],
            ) by {
                let item = (nodes[i + 1], costs[i] as u32, actions[i + 1]);
                assert(leads_to(job.grid, known, nodes[i], item));
                let out = choose|out: Seq<Successor>| #[trigger]
                    listed(job.grid, known, nodes[i], out) && out.contains(item);
                let replies = choose|replies: Seq<bool>| #[trigger]
                    job.grid.successors_of(known, replies, nodes[i]) == Ok::<
                        Seq<Successor>,
                        Request,
                    >(out);
                law_more_turfs_keep_layered_successors(job.grid, known, map, replies, nodes[i]);
                law_every_successor_is_a_possible_move(job.grid, map, replies, nodes[i], item);
                assert(job.previous@.contains_key(nodes[i + 1]) && job.previous@[nodes[i + 1]] == (
                    nodes[i + 1 - 1],
                    actions[i + 1],
                ));
                assert(may_take(job.previous@[nodes[i + 1]].1, findings.links));
            }
            law_occupied_where_one_may_stand(job.grid, known, job.grid.start);
            assert(known.dom().contains(job.grid.start));
            assert(map.dom().contains(job.grid.start));
            assert(may_stand(job.grid, map, job.grid.start));
            assert(is_way(job, map, findings.links, nodes, actions, costs));
            if job.lower_bound() {
                assert forall|
                    others: Seq<LayeredNode>,
                    moves: Seq<LayeredAction>,
                    prices: Seq<nat>,
                | #[trigger]
                    is_way(job, map, findings.links, others, moves, prices) && (job.grid.max_cost
                        > 0 ==> total(prices) <= job.grid.max_cost) implies cost_of(costs) <= total(
                    prices,
                ) by {
                    lemma_way_is_a_walk(job, map, findings.links, others, moves, prices);
                    assert(job.is_route(edge, others, prices));
                }
            }
            assert(turn.after.previous@ == turn.after.book().previous);
            assert(turn.moved.previous@ == turn.moved.book().previous);
            assert(is_answer(job, findings, turn.after, end, nodes, actions, costs));
        },
        _ => {
            law_no_path_leaves_no_route(
                job,
                turn.published,
                turn.elapsed,
                turn.moved,
                turn.progress,
            );
            assert forall|nodes: Seq<LayeredNode>, actions: Seq<LayeredAction>, costs: Seq<nat>|
                #[trigger]
                is_way(job, map, findings.links, nodes, actions, costs) implies 0
                < job.grid.max_cost < total(costs) by {
                lemma_way_is_a_walk(job, map, findings.links, nodes, actions, costs);
                law_occupied_where_one_may_stand(job.grid, known, job.grid.start);
                assert(known.dom().contains(job.grid.start) ==> map.dom().contains(
                    job.grid.start,
                ) && known[job.grid.start] == map[job.grid.start]);
                assert(!job.start_is_blocked());
                if job.grid.max_cost == 0 || total(costs) <= job.grid.max_cost {
                    assert(job.is_route(edge, nodes, costs));
                }
            }
        },
    }
}

proof fn lemma_true_run(job: MultiSearchJob, findings: Findings, turns: Seq<Turn>)
    requires
        told_truly(job, findings),
        runs_to_its_end(job, findings, turns),
    ensures
        match turns.last().progress {
            MultiJobProgress::Found(end) => exists|
                nodes: Seq<LayeredNode>,
                actions: Seq<LayeredAction>,
                costs: Seq<nat>,
            | #[trigger]
                is_answer(job, findings, turns.last().after, end, nodes, actions, costs),
            MultiJobProgress::NoPath => is_dead_end(job, findings),
            _ => false,
        },
    decreases turns.len(),
{
    reveal_with_fuel(runs_to_its_end, 2);
    let turn = turns[0];
    let map = map_of(findings);
    if is_over(turn.progress) {
        assert(turns.last() == turn);
        lemma_last_turn(job, findings, turn);
    } else {
        lemma_turn_stays_true(job, findings, turn);
        assert(turns.drop_first().last() == turns.last());
        lemma_true_run(turn.after, findings, turns.drop_first());
        assert forall|nodes: Seq<LayeredNode>, actions: Seq<LayeredAction>, costs: Seq<nat>|
            #[trigger]
            is_way(job, map, findings.links, nodes, actions, costs) == is_way(
                turn.after,
                map,
                findings.links,
                nodes,
                actions,
                costs,
            ) by {
            lemma_same_ways(job, turn.after, map, findings.links, nodes, actions, costs);
        }
        if job.lower_bound() {
            lemma_same_lower_bound(job, turn.after);
        }
        if let MultiJobProgress::Found(end) = turns.last().progress {
            let (nodes, actions, costs) = choose|
                nodes: Seq<LayeredNode>,
                actions: Seq<LayeredAction>,
                costs: Seq<nat>,
            | #[trigger]
                is_answer(
                    turn.after,
                    findings,
                    turns.last().after,
                    end,
                    nodes,
                    actions,
                    costs,
                );
            assert(is_way(job, map, findings.links, nodes, actions, costs));
            assert(is_answer(job, findings, turns.last().after, end, nodes, actions, costs));
        }
    }
}

/// A search whose turfs and links are found as they are ends at a node that a way leads to, a
/// cheapest one if its estimate is a lower bound, or where no way keeps the cost limit. It does not
/// matter how often it yields, nor what was published as long as that is true.
pub proof fn law_search_finds_a_cheapest_way(
    job: MultiSearchJob,
    findings: Findings,
    turns: Seq<Turn>,
)
    requires
        job.wf(),
        !job.initialized,
        job.grid.cache@.submap_of(map_of(findings)),
        runs_to_its_end(job, findings, turns),
    ensures
        match turns.last().progress {
            MultiJobProgress::Found(end) => exists|
                nodes: Seq<LayeredNode>,
                actions: Seq<LayeredAction>,
                costs: Seq<nat>,
            | #[trigger]
                is_answer(job, findings, turns.last().after, end, nodes, actions, costs),
            MultiJobProgress::NoPath => is_dead_end(job, findings),
            _ => false,
        },
{
    assert(job.book().lists == job.history@.lists && job.book().previous == job.previous@);
    lemma_true_run(job, findings, turns);
}

} // verus!
