//! Path requests and the searches they set up.

use crate::diagonals::{DiagonalHandling, DIAGONAL_REMOVE_ALL, DIAGONAL_REMOVE_CLUNKY};
use crate::error::NavPathError;
use crate::geometry::{
    are_comparable, chebyshev, chebyshev_distance, comparable, smaller, Coord, LayeredNode,
    TurfCoords,
};
use crate::grid::{law_destinations_can_be_occupied, Grid, Turfs};
use crate::layered_grid::{index_links, indexes, LayeredAction, LayeredGrid, LayeredTurfs};
use crate::layered_world;
use crate::multi_search::{law_portal_estimate_is_a_lower_bound, MultiSearchJob};
use crate::nav_pass::TurfInfo;
use crate::packed_map::PackedMap;
use crate::portal::{portal_model, portals_measurable, PortalHeuristic, PortalModel};
use crate::search::SearchJob;
use crate::topology::{node_for_xyz, NavLink, Topology};
use crate::world::{can_step, is_way, may_stand, within};
use vstd::prelude::*;

verus! {

/// What is asked of a value when its truth is in question.
#[derive(Clone, Copy, Debug, PartialEq, Eq, Structural)]
pub enum Operand {
    /// No value.
    Null,
    /// A number, and whether it can be read and is not zero.
    Number {
        /// Whether the number can be read and is not zero.
        nonzero: bool,
    },
    /// Anything else.
    Other,
}

impl Operand {
    /// Whether the value counts as true.
    pub open spec fn holds(self) -> bool {
        match self {
            Operand::Null => false,
            Operand::Number { nonzero } => nonzero,
            Operand::Other => true,
        }
    }
}

/// Converts a value to the pathfinder's truth value.
pub fn truthy(value: Operand) -> (truth: bool)
    ensures
        truth == value.holds(),
{
    match value {
        Operand::Null => false,
        Operand::Number { nonzero } => nonzero,
        Operand::Other => true,
    }
}

/// The turf that a path has to avoid, if any.
#[derive(Clone, Copy, Debug, PartialEq, Eq)]
pub enum AvoidTurf {
    /// Nothing is to be avoided.
    Nothing,
    /// A value was given; it may have no position.
    Turf(Option<TurfCoords>),
}

/// The arguments of a path request. An argument without a number where one is expected is given
/// as nothing.
#[derive(Clone, Copy, Debug)]
pub struct PathRequest {
    /// Position of the start, if it has one.
    pub start: Option<TurfCoords>,
    /// Position of the end, if it has one.
    pub end: Option<TurfCoords>,
    /// Pass flags of the mover.
    pub pass_flags: Option<i32>,
    /// Whether the mover flies.
    pub is_flying: Operand,
    /// Maximum horizontal search range.
    pub max_range: Option<i32>,
    /// Acceptable distance from the target.
    pub min_target_distance: Option<i32>,
    /// Whether only simulated turfs are allowed.
    pub simulated_only: Operand,
    /// The turf to avoid.
    pub avoid: AvoidTurf,
    /// Numeric mode of diagonal handling.
    pub diagonal_handling: Option<i32>,
    /// Whether the first turf is omitted from the path.
    pub skip_first: Operand,
    /// Maximum total path cost, or zero for unlimited.
    pub max_path_cost: Option<u32>,
}

/// A number that is never below zero and is zero where it is missing.
pub open spec fn clamped(number: Option<i32>) -> i32 {
    match number {
        Some(n) => if n < 0 {
            0
        } else {
            n
        },
        None => 0,
    }
}

/// Brings a number to zero where it is missing or below zero.
fn clamp(number: Option<i32>) -> (n: i32)
    ensures
        n == clamped(number),
        n >= 0,
{
    match number {
        Some(n) => if n < 0 {
            0
        } else {
            n
        },
        None => 0,
    }
}

/// The mode of diagonal handling that a number stands for.
pub open spec fn handling_of(mode: Option<i32>) -> DiagonalHandling {
    if mode == Some(DIAGONAL_REMOVE_ALL) {
        DiagonalHandling::RemoveAll
    } else if mode == Some(DIAGONAL_REMOVE_CLUNKY) {
        DiagonalHandling::RemoveClunky
    } else {
        DiagonalHandling::DoNothing
    }
}

/// The horizontal part of a position.
pub open spec fn flat(coords: TurfCoords) -> Coord {
    (coords.0, coords.1)
}

impl PathRequest {
    /// The position to avoid in a search on one level: one on another level does not matter.
    pub open spec fn avoided(self) -> Option<Coord> {
        match (self.avoid, self.start) {
            (AvoidTurf::Turf(Some(turf)), Some(start)) => if turf.2 == start.2 {
                Some(flat(turf))
            } else {
                None
            },
            _ => None,
        }
    }

    /// What is wrong with a request for a search on one level, if anything.
    pub open spec fn fault(self) -> Option<NavPathError> {
        match (self.start, self.end) {
            (Some(start), Some(end)) => if start.2 != end.2 {
                Some(NavPathError::DifferentZLevels)
            } else if self.avoid == AvoidTurf::Turf(None) {
                Some(NavPathError::NotATurf)
            } else {
                None
            },
            _ => Some(NavPathError::NotATurf),
        }
    }

    /// Whether there can be no route on one level: the start is forbidden, or the target radius
    /// cannot be reached within the range.
    pub open spec fn out_of_reach(self) -> bool
        recommends
            self.fault() is None,
    {
        let start = flat(self.start.unwrap());
        let end = flat(self.end.unwrap());
        let max_range = clamped(self.max_range);
        ||| self.avoided() == Some(start)
        ||| max_range > 0 && chebyshev(start, end) > smaller(
            max_range + clamped(self.min_target_distance),
            i32::MAX as int,
        )
    }

    /// Whether the distance from start to end stays within its machine range where it is measured.
    pub open spec fn has_room(self) -> bool {
        self.fault() is None && self.avoided() != Some(flat(self.start.unwrap())) && clamped(
            self.max_range,
        ) > 0 ==> comparable(flat(self.start.unwrap()), flat(self.end.unwrap()))
    }

    /// Tests whether the distance from start to end stays within its machine range where it is
    /// measured.
    pub fn room_left(&self) -> (ok: bool)
        ensures
            ok == self.has_room(),
    {
        let (start, end) = match (self.start, self.end) {
            (Some(start), Some(end)) => (start, end),
            _ => {
                return true;
            },
        };
        let forbidden: bool = match self.avoid {
            AvoidTurf::Nothing => false,
            AvoidTurf::Turf(None) => {
                return true;
            },
            AvoidTurf::Turf(Some(turf)) => turf.2 == start.2 && turf.0 == start.0 && turf.1
                == start.1,
        };
        start.2 != end.2 || forbidden || clamp(self.max_range) == 0 || are_comparable(
            (start.0, start.1),
            (end.0, end.1),
        )
    }
}

/// Whether a job is the one that a request for a search on one level sets up.
pub open spec fn set_up_on_one_level(job: SearchJob, request: PathRequest, now: u128) -> bool {
    let start = request.start.unwrap();
    &&& !job.initialized
    &&& job.sequence == 0
    &&& job.last_touched == now
    &&& job.goal == flat(request.end.unwrap())
    &&& job.min_target_distance == clamped(request.min_target_distance)
    &&& job.diagonal_handling == handling_of(request.diagonal_handling)
    &&& job.skip_first == request.skip_first.holds()
    &&& job.grid.z == start.2
    &&& job.grid.pass_flags == request.pass_flags.unwrap_or(0)
    &&& job.grid.is_flying == request.is_flying.holds()
    &&& job.grid.start == flat(start)
    &&& job.grid.max_range == clamped(request.max_range)
    &&& job.grid.simulated_only == request.simulated_only.holds()
    &&& job.grid.avoid == request.avoided()
    &&& job.grid.cache@ == Map::<Coord, Option<TurfInfo>>::empty()
}

/// Sets up a search on one level. Without a job there can be no path.
pub fn new_search_job(request: &PathRequest, now: u128) -> (job: Result<
    Option<SearchJob>,
    NavPathError,
>)
    requires
        request.has_room(),
    ensures
        match job {
            Err(e) => request.fault() == Some(e),
            Ok(None) => request.fault() is None && request.out_of_reach(),
            Ok(Some(job)) => {
                &&& request.fault() is None
                &&& !request.out_of_reach()
                &&& job.wf()
                &&& set_up_on_one_level(job, *request, now)
            },
        },
{
    let start = match request.start {
        Some(start) => start,
        None => {
            return Err(NavPathError::NotATurf);
        },
    };
    let end = match request.end {
        Some(end) => end,
        None => {
            return Err(NavPathError::NotATurf);
        },
    };
    if start.2 != end.2 {
        return Err(NavPathError::DifferentZLevels);
    }
    let max_range: i32 = clamp(request.max_range);
    let min_target_distance: i32 = clamp(request.min_target_distance);
    let avoid: Option<Coord> = match request.avoid {
        AvoidTurf::Nothing => None,
        AvoidTurf::Turf(None) => {
            return Err(NavPathError::NotATurf);
        },
        AvoidTurf::Turf(Some(turf)) => if turf.2 == start.2 {
            Some((turf.0, turf.1))
        } else {
            None
        },
    };
    let from: Coord = (start.0, start.1);
    let to: Coord = (end.0, end.1);
    let forbidden: bool = match avoid {
        Some(turf) => turf.0 == from.0 && turf.1 == from.1,
        None => false,
    };
    // There can be no route when the start is forbidden or the target radius cannot be reached
    // within the range.
    let reach: i32 = if max_range > i32::MAX - min_target_distance {
        i32::MAX
    } else {
        max_range + min_target_distance
    };
    if forbidden || (max_range > 0 && chebyshev_distance(from, to) > reach) {
        return Ok(None);
    }
    let grid = Grid {
        z: start.2,
        pass_flags: request.pass_flags.unwrap_or(0),
        is_flying: truthy(request.is_flying),
        start: from,
        max_range,
        simulated_only: truthy(request.simulated_only),
        avoid,
        cache: PackedMap::new(),
    };
    Ok(
        Some(
            SearchJob::new(
                grid,
                to,
                min_target_distance,
                DiagonalHandling::from_byond(request.diagonal_handling),
                truthy(request.skip_first),
                now,
            ),
        ),
    )
}

/// Where a request is turned down, a search with its settings would find no route either.
pub proof fn law_out_of_reach_leaves_no_route(
    request: PathRequest,
    job: SearchJob,
    world: Turfs,
    nodes: Seq<Coord>,
    steps: Seq<nat>,
)
    requires
        request.fault() is None,
        request.out_of_reach(),
        job.grid.start == flat(request.start.unwrap()),
        job.grid.avoid == request.avoided(),
        job.grid.max_range == clamped(request.max_range),
        job.goal == flat(request.end.unwrap()),
        job.min_target_distance == clamped(request.min_target_distance),
    ensures
        !job.is_route(world, nodes, steps),
{
    if job.is_route(world, nodes, steps) {
        if steps.len() == 0 {
            assert(nodes.last() == nodes[0]);
        } else {
            let last = steps.len() - 1;
            assert((job.grid.edges(world))(nodes[last], nodes[last + 1], steps[last]));
            law_destinations_can_be_occupied(
                job.grid,
                world,
                nodes[last],
                nodes[last + 1],
                steps[last],
            );
            assert(nodes.last() == nodes[last + 1]);
        }
    }
}

impl PathRequest {
    /// The nodes of start and end, where both have a place.
    pub open spec fn ends(self, topology: Topology) -> Option<(LayeredNode, LayeredNode)> {
        match (self.start, self.end) {
            (Some(start), Some(end)) => match (topology.node(start), topology.node(end)) {
                (Some(from), Some(to)) => Some((from, to)),
                _ => None,
            },
            _ => None,
        }
    }

    /// What is wrong with a request for a search over several levels, if anything. Where start or
    /// end has no place, the rest is not looked at.
    pub open spec fn multi_fault(self, topology: Topology) -> Option<NavPathError> {
        if self.start is None || self.end is None {
            Some(NavPathError::NotATurf)
        } else if self.ends(topology) is Some && self.avoid == AvoidTurf::Turf(None) {
            Some(NavPathError::NotATurf)
        } else {
            None
        }
    }

    /// The node to avoid in a search over several levels.
    pub open spec fn avoided_node(self, topology: Topology) -> Option<LayeredNode> {
        match self.avoid {
            AvoidTurf::Turf(Some(turf)) => topology.node(turf),
            _ => None,
        }
    }

    /// The relaxed model of a search over several levels.
    pub open spec fn model(self, topology: Topology, links: Seq<NavLink>) -> PortalModel
        recommends
            self.ends(topology) is Some,
    {
        portal_model(
            topology,
            self.ends(topology).unwrap().1,
            clamped(self.min_target_distance),
            self.is_flying.holds(),
            links,
        )
    }

    /// Whether the distances between portals stay within their machine range where they are
    /// measured.
    pub open spec fn has_multi_room(self, topology: Topology, links: Seq<NavLink>) -> bool {
        self.ends(topology) is Some && self.avoid != AvoidTurf::Turf(None) ==> links.len()
            <= 0x3fff_ffff && self.model(topology, links).measurable()
    }

    /// Tests whether the distances between portals stay within their machine range where they are
    /// measured.
    pub fn multi_room_left(&self, topology: &Topology, links: &Vec<NavLink>) -> (ok: bool)
        ensures
            ok == self.has_multi_room(*topology, links@),
    {
        let (start, end) = match (self.start, self.end) {
            (Some(start), Some(end)) => (start, end),
            _ => {
                return true;
            },
        };
        if matches!(self.avoid, AvoidTurf::Turf(None)) || node_for_xyz(
            topology,
            start.0,
            start.1,
            start.2,
        ).is_none() {
            return true;
        }
        match node_for_xyz(topology, end.0, end.1, end.2) {
            None => true,
            Some(goal) => links.len() <= 0x3fff_ffff && portals_measurable(
                topology,
                goal,
                clamp(self.min_target_distance),
                truthy(self.is_flying),
                links.as_slice(),
            ),
        }
    }
}

/// Whether a job is the one that a request for a search over several levels sets up.
pub open spec fn set_up(
    job: MultiSearchJob,
    request: PathRequest,
    topology: Topology,
    links: Seq<NavLink>,
    now: u128,
) -> bool {
    let (start, goal) = request.ends(topology).unwrap();
    &&& !job.initialized
    &&& job.sequence == 0
    &&& job.replies@ == Seq::<bool>::empty()
    &&& job.history@.stamps == Map::<LayeredNode, nat>::empty()
    &&& job.last_touched == now
    &&& job.goal == goal
    &&& job.min_target_distance == clamped(request.min_target_distance)
    &&& job.diagonal_handling == handling_of(request.diagonal_handling)
    &&& job.skip_first == request.skip_first.holds()
    &&& job.grid.topology.same(topology)
    &&& job.grid.pass_flags == request.pass_flags.unwrap_or(0)
    &&& job.grid.is_flying == request.is_flying.holds()
    &&& job.grid.start == start
    &&& job.grid.max_range == clamped(request.max_range)
    &&& job.grid.max_cost == request.max_path_cost.unwrap_or(0)
    &&& job.grid.simulated_only == request.simulated_only.holds()
    &&& job.grid.avoid == request.avoided_node(topology)
    &&& indexes(job.grid.links_by_source@, links, links.len())
    &&& job.grid.cache@ == Map::<LayeredNode, Option<TurfInfo>>::empty()
    &&& job.heuristic.made_for(request.model(topology, links))
}

/// Sets up a search over several levels. Without a job there can be no path: start or end has no
/// place in the topology.
pub fn new_multi_search_job(
    request: &PathRequest,
    topology: &Topology,
    links: &Vec<NavLink>,
    now: u128,
) -> (job: Result<Option<MultiSearchJob>, NavPathError>)
    requires
        request.has_multi_room(*topology, links@),
    ensures
        match job {
            Err(e) => request.multi_fault(*topology) == Some(e),
            Ok(None) => request.multi_fault(*topology) is None && request.ends(*topology) is None,
            Ok(Some(job)) => {
                &&& request.multi_fault(*topology) is None
                &&& request.ends(*topology) is Some
                &&& job.wf()
                &&& set_up(job, *request, *topology, links@, now)
                &&& topology.consistent() ==> job.lower_bound()
            },
        },
{
    let start = match request.start {
        Some(start) => start,
        None => {
            return Err(NavPathError::NotATurf);
        },
    };
    let end = match request.end {
        Some(end) => end,
        None => {
            return Err(NavPathError::NotATurf);
        },
    };
    let start_node = match node_for_xyz(topology, start.0, start.1, start.2) {
        Some(node) => node,
        None => {
            return Ok(None);
        },
    };
    let goal_node = match node_for_xyz(topology, end.0, end.1, end.2) {
        Some(node) => node,
        None => {
            return Ok(None);
        },
    };
    let min_target_distance: i32 = clamp(request.min_target_distance);
    let avoid: Option<LayeredNode> = match request.avoid {
        AvoidTurf::Nothing => None,
        AvoidTurf::Turf(None) => {
            return Err(NavPathError::NotATurf);
        },
        AvoidTurf::Turf(Some(turf)) => node_for_xyz(topology, turf.0, turf.1, turf.2),
    };
    let is_flying: bool = truthy(request.is_flying);
    let heuristic = PortalHeuristic::new(
        topology,
        goal_node,
        min_target_distance,
        is_flying,
        links.as_slice(),
    );
    let grid = LayeredGrid {
        topology: topology.snapshot(),
        pass_flags: request.pass_flags.unwrap_or(0),
        is_flying,
        start: start_node,
        max_range: clamp(request.max_range),
        max_cost: request.max_path_cost.unwrap_or(0),
        simulated_only: truthy(request.simulated_only),
        avoid,
        links_by_source: index_links(links.as_slice()),
        cache: PackedMap::new(),
    };
    let job = MultiSearchJob::new(
        grid,
        goal_node,
        heuristic,
        min_target_distance,
        DiagonalHandling::from_byond(request.diagonal_handling),
        truthy(request.skip_first),
        now,
    );
    proof {
        assert(job.replies@ =~= Seq::<bool>::empty());
        assert(job.book().stamps == Map::<LayeredNode, nat>::empty());
        if topology.consistent() {
            law_portal_estimate_is_a_lower_bound(job, *topology, links@);
        }
    }
    Ok(Some(job))
}

/// Equal requests set up the same search, whenever they are made.
pub proof fn law_equal_requests_set_up_the_same_search(
    request: PathRequest,
    a: SearchJob,
    b: SearchJob,
    a_now: u128,
    b_now: u128,
)
    requires
        a.wf(),
        b.wf(),
        set_up_on_one_level(a, request, a_now),
        set_up_on_one_level(b, request, b_now),
    ensures
        a.untouched(b),
        b.same_settings(a),
{
}

/// Equal requests over the same levels and links set up searches that do not differ, whenever they
/// are made.
pub proof fn law_equal_requests_set_up_the_same_layered_search(
    request: PathRequest,
    topology: Topology,
    links: Seq<NavLink>,
    a: MultiSearchJob,
    b: MultiSearchJob,
    a_now: u128,
    b_now: u128,
)
    requires
        a.wf(),
        b.wf(),
        set_up(a, request, topology, links, a_now),
        set_up(b, request, topology, links, b_now),
    ensures
        a.untouched(b),
        a.alike(b),
{
}

/// Whether a value that was given counts as true: it is neither missing nor a number that is zero or
/// cannot be read.
pub open spec fn is_set(value: Operand) -> bool {
    value == Operand::Other || value == Operand::Number { nonzero: true }
}

/// A number that was given, or zero where it is missing or below zero.
pub open spec fn at_least_zero(number: Option<i32>) -> int {
    if number is Some && number->0 > 0 {
        number->0 as int
    } else {
        0
    }
}

/// The mode of diagonal handling with a number.
pub open spec fn mode_numbered(number: Option<i32>) -> DiagonalHandling {
    match number {
        Some(1) => DiagonalHandling::RemoveAll,
        Some(2) => DiagonalHandling::RemoveClunky,
        _ => DiagonalHandling::DoNothing,
    }
}

/// A request on one level sets up a search from its start to its end on the level of the start, with
/// the settings that it names. The turf to avoid counts where it lies on that level, at exactly its
/// own position, and not at all where it lies on another.
pub proof fn law_request_names_the_settings(
    request: PathRequest,
    job: SearchJob,
    now: u128,
    start: TurfCoords,
    end: TurfCoords,
)
    requires
        set_up_on_one_level(job, request, now),
        request.start == Some(start),
        request.end == Some(end),
    ensures
        job.grid.z == start.2,
        job.grid.start.0 == start.0 && job.grid.start.1 == start.1,
        job.goal.0 == end.0 && job.goal.1 == end.1,
        request.avoid == AvoidTurf::Nothing ==> job.grid.avoid is None,
        request.avoid matches AvoidTurf::Turf(Some(turf)) ==> if turf.2 == start.2 {
            job.grid.avoid matches Some(at) && at.0 == turf.0 && at.1 == turf.1
        } else {
            job.grid.avoid is None
        },
        job.grid.pass_flags == if request.pass_flags is Some {
            request.pass_flags->0
        } else {
            0
        },
        job.grid.is_flying == is_set(request.is_flying),
        job.grid.simulated_only == is_set(request.simulated_only),
        job.skip_first == is_set(request.skip_first),
        job.grid.max_range == at_least_zero(request.max_range),
        job.min_target_distance == at_least_zero(request.min_target_distance),
        job.diagonal_handling == mode_numbered(request.diagonal_handling),
        job.last_touched == now,
        !job.initialized,
        forall|c: Coord| !(#[trigger] job.grid.cache@.contains_key(c)),
{
}

/// A request on one level is at fault exactly where start or end has no position, where they lie on
/// different levels, or where the turf to avoid has no position.
pub proof fn law_single_level_faults(request: PathRequest)
    ensures
        request.fault() == Some(NavPathError::NotATurf) <==> {
            ||| request.start is None
            ||| request.end is None
            ||| request.start.unwrap().2 == request.end.unwrap().2 && request.avoid == AvoidTurf::Turf(None)
        },
        request.fault() == Some(NavPathError::DifferentZLevels) <==> {
            &&& request.start is Some
            &&& request.end is Some
            &&& request.start.unwrap().2 != request.end.unwrap().2
        },
        request.fault() != Some(NavPathError::InvalidBulkUpdateLength),
{
}

/// Nothing is set up for a request on one level exactly where its start is to be avoided, or where its
/// end lies further away than the range and the target distance together, if there is a range.
pub proof fn law_request_out_of_reach(request: PathRequest, start: TurfCoords, end: TurfCoords)
    requires
        request.start == Some(start),
        request.end == Some(end),
    ensures
        request.out_of_reach() <==> {
            ||| request.avoid == AvoidTurf::Turf(Some(start))
            ||| {
                &&& at_least_zero(request.max_range) > 0
                &&& !within(
                    (start.0, start.1),
                    (end.0, end.1),
                    at_least_zero(request.max_range) + at_least_zero(request.min_target_distance),
                )
            }
        },
{
    if let AvoidTurf::Turf(Some(turf)) = request.avoid {
        assert(turf == start <==> turf.0 == start.0 && turf.1 == start.1 && turf.2 == start.2);
    }
}

/// A way of a search that a request set up begins at its start, ends within its target distance of its
/// end, and never leads over the turf to avoid, out of its range, or over a turf that is not simulated
/// where only those are allowed.
pub proof fn law_ways_keep_to_the_request(
    request: PathRequest,
    job: SearchJob,
    now: u128,
    start: TurfCoords,
    end: TurfCoords,
    turfs: Turfs,
    nodes: Seq<Coord>,
    costs: Seq<nat>,
    i: int,
)
    requires
        set_up_on_one_level(job, request, now),
        request.start == Some(start),
        request.end == Some(end),
        is_way(job, turfs, nodes, costs),
        0 <= i < nodes.len(),
    ensures
        nodes[0].0 == start.0 && nodes[0].1 == start.1,
        within(
            nodes.last(),
            (end.0, end.1),
            at_least_zero(request.min_target_distance),
        ),
        request.avoid matches AvoidTurf::Turf(Some(turf)) ==> turf.2 != start.2 || nodes[i].0
            != turf.0 || nodes[i].1 != turf.1,
        at_least_zero(request.max_range) > 0 ==> within(
            nodes[i],
            (start.0, start.1),
            at_least_zero(request.max_range),
        ),
        turfs.contains_key(nodes[i]) && turfs[nodes[i]] is Some,
        is_set(request.simulated_only) ==> turfs[nodes[i]]->0.simulated,
{
    if i > 0 {
        assert(can_step(job.grid, turfs, nodes[i - 1], nodes[i - 1 + 1], costs[i - 1]));
    }
    assert(may_stand(job.grid, turfs, nodes[i]));
    if let AvoidTurf::Turf(Some(turf)) = request.avoid {
        if turf.2 == start.2 {
            assert(job.grid.avoid == Some((turf.0, turf.1)));
            assert(nodes[i] != (turf.0, turf.1));
        }
    }
}

/// A request over several levels sets up a search between the places of its start and its end, with
/// the settings that it names. The turf to avoid counts at its own place, where it has one.
pub proof fn law_layered_request_names_the_settings(
    request: PathRequest,
    topology: Topology,
    links: Seq<NavLink>,
    job: MultiSearchJob,
    now: u128,
    start: TurfCoords,
    end: TurfCoords,
)
    requires
        set_up(job, request, topology, links, now),
        request.start == Some(start),
        request.end == Some(end),
        topology.z_to_layer@.contains_key(start.2),
        topology.z_to_layer@.contains_key(end.2),
    ensures
        job.grid.start.group == topology.z_to_layer@[start.2].group,
        job.grid.start.layer == topology.z_to_layer@[start.2].layer,
        job.grid.start.x == start.0 && job.grid.start.y == start.1,
        job.goal.group == topology.z_to_layer@[end.2].group,
        job.goal.layer == topology.z_to_layer@[end.2].layer,
        job.goal.x == end.0 && job.goal.y == end.1,
        request.avoid == AvoidTurf::Nothing ==> job.grid.avoid is None,
        request.avoid matches AvoidTurf::Turf(Some(turf)) ==> if topology.z_to_layer@.contains_key(
            turf.2,
        ) {
            job.grid.avoid matches Some(node) && node.group == topology.z_to_layer@[turf.2].group
                && node.layer == topology.z_to_layer@[turf.2].layer && node.x == turf.0 && node.y
                == turf.1
        } else {
            job.grid.avoid is None
        },
        job.grid.pass_flags == if request.pass_flags is Some {
            request.pass_flags->0
        } else {
            0
        },
        job.grid.is_flying == is_set(request.is_flying),
        job.grid.simulated_only == is_set(request.simulated_only),
        job.skip_first == is_set(request.skip_first),
        job.grid.max_range == at_least_zero(request.max_range),
        job.grid.max_cost == if request.max_path_cost is Some {
            request.max_path_cost->0
        } else {
            0
        },
        job.min_target_distance == at_least_zero(request.min_target_distance),
        job.diagonal_handling == mode_numbered(request.diagonal_handling),
        job.grid.topology.generation == topology.generation,
        job.grid.topology.z_to_layer@ == topology.z_to_layer@,
        job.grid.topology.layer_to_z@ == topology.layer_to_z@,
        job.last_touched == now,
        !job.initialized,
        forall|n: LayeredNode| !(#[trigger] job.grid.cache@.contains_key(n)),
{
}

/// A request over several levels is at fault exactly where start or end has no position, or where both
/// have a place and the turf to avoid has no position; nothing is set up exactly where start or end has
/// no place.
pub proof fn law_layered_faults(request: PathRequest, topology: Topology)
    ensures
        ({
            let both = request.start is Some && request.end is Some;
            let placed = both && topology.z_to_layer@.contains_key(request.start.unwrap().2)
                && topology.z_to_layer@.contains_key(request.end.unwrap().2);
            &&& request.ends(topology) is Some <==> placed
            &&& request.multi_fault(topology) == if !both || placed && request.avoid
                == AvoidTurf::Turf(None) {
                Some(NavPathError::NotATurf)
            } else {
                None
            }
        }),
{
}

/// A way of a search across levels that a request set up begins at the place of its start, ends on the
/// level of its end within its target distance, and never leads over the turf to avoid, out of its
/// range, or over a turf that is not simulated where only those are allowed.
pub proof fn law_layered_ways_keep_to_the_request(
    request: PathRequest,
    topology: Topology,
    links: Seq<NavLink>,
    job: MultiSearchJob,
    now: u128,
    start: TurfCoords,
    end: TurfCoords,
    turfs: LayeredTurfs,
    may_plan: spec_fn(u64) -> bool,
    nodes: Seq<LayeredNode>,
    actions: Seq<LayeredAction>,
    costs: Seq<nat>,
    i: int,
)
    requires
        set_up(job, request, topology, links, now),
        request.start == Some(start),
        request.end == Some(end),
        topology.z_to_layer@.contains_key(start.2),
        topology.z_to_layer@.contains_key(end.2),
        layered_world::is_way(job, turfs, may_plan, nodes, actions, costs),
        0 <= i < nodes.len(),
    ensures
        nodes[0].group == topology.z_to_layer@[start.2].group,
        nodes[0].layer == topology.z_to_layer@[start.2].layer,
        nodes[0].x == start.0 && nodes[0].y == start.1,
        nodes.last().group == topology.z_to_layer@[end.2].group,
        nodes.last().layer == topology.z_to_layer@[end.2].layer,
        within(
            (nodes.last().x, nodes.last().y),
            (end.0, end.1),
            at_least_zero(request.min_target_distance),
        ),
        request.avoid matches AvoidTurf::Turf(Some(turf)) ==> !{
            &&& topology.z_to_layer@.contains_key(turf.2)
            &&& nodes[i].group == topology.z_to_layer@[turf.2].group
            &&& nodes[i].layer == topology.z_to_layer@[turf.2].layer
            &&& nodes[i].x == turf.0 && nodes[i].y == turf.1
        },
        at_least_zero(request.max_range) > 0 ==> within(
            (nodes[i].x, nodes[i].y),
            (start.0, start.1),
            at_least_zero(request.max_range),
        ),
        turfs.contains_key(nodes[i]) && turfs[nodes[i]] is Some,
        is_set(request.simulated_only) ==> turfs[nodes[i]]->0.simulated,
{
    law_layered_request_names_the_settings(request, topology, links, job, now, start, end);
    if i > 0 {
        assert(layered_world::can_move(
            job.grid,
            turfs,
            may_plan,
            nodes[i - 1],
            nodes[i - 1 + 1],
            costs[i - 1],
            actions[i - 1 + 1],
        ));
    }
    assert(layered_world::may_stand(job.grid, turfs, nodes[i]));
}

} // verus!
