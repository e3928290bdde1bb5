//! The single-level search grid.

use crate::diagonals::DiagonalRoutes;
use crate::directions::{step, step_at, EAST, NORTH, SOUTH, STEP_COUNT, WEST};
use crate::geometry::{
    allowed, are_comparable, comparable, coordinate_allowed, one_step, turf_allowed, Coord,
    TurfCoords,
};
use crate::nav_pass::{cached_turf_info, published_info, NavPassCache, TurfInfo};
use crate::packed_map::PackedMap;
use crate::walks::Edges;
use vstd::prelude::*;

verus! {

/// Turf data by position; no data means that there is no turf.
pub type Turfs = Map<Coord, Option<TurfInfo>>;

/// Single-level search grid and its per-job cache.
pub struct Grid {
    /// Search z-level.
    pub z: i16,
    /// Pass flags for conditional blockers.
    pub pass_flags: i32,
    /// Whether flying edges should be used.
    pub is_flying: bool,
    /// Search origin.
    pub start: Coord,
    /// Maximum horizontal search range, or zero for unlimited.
    pub max_range: i32,
    /// Whether only simulated turfs are allowed.
    pub simulated_only: bool,
    /// Optional turf excluded from the search.
    pub avoid: Option<Coord>,
    /// Turfs looked up so far.
    pub cache: PackedMap<Coord, Option<TurfInfo>>,
}

/// Neither route around a diagonal.
pub open spec fn no_routes() -> DiagonalRoutes {
    DiagonalRoutes { north_south_first: false, east_west_first: false }
}

/// Whether every step from a position stays a 16-bit position.
pub open spec fn interior(from: Coord) -> bool {
    i16::MIN < from.0 < i16::MAX && i16::MIN < from.1 < i16::MAX
}

/// Tests whether every step from a position stays a 16-bit position.
pub fn is_interior(from: Coord) -> (ok: bool)
    ensures
        ok == interior(from),
{
    i16::MIN < from.0 && from.0 < i16::MAX && i16::MIN < from.1 && from.1 < i16::MAX
}

/// The position that a step leads to.
pub open spec fn neighbor(from: Coord, k: int) -> Coord {
    ((from.0 + step(k).dx) as i16, (from.1 + step(k).dy) as i16)
}

/// Whether a step stays within the 16-bit positions.
pub open spec fn on_grid(from: Coord, k: int) -> bool {
    &&& i16::MIN <= from.0 + step(k).dx <= i16::MAX
    &&& i16::MIN <= from.1 + step(k).dy <= i16::MAX
}

/// The direction of the vertical part of a displacement.
pub open spec fn north_south(from: Coord, to: Coord) -> i32 {
    if to.1 > from.1 {
        NORTH
    } else {
        SOUTH
    }
}

/// The direction of the horizontal part of a displacement.
pub open spec fn east_west(from: Coord, to: Coord) -> i32 {
    if to.0 > from.0 {
        EAST
    } else {
        WEST
    }
}

/// Whether the end of a step is looked at from a turf with the given data: its edge is open, or one
/// of the two edges beside it where the step is diagonal.
pub open spec fn leads_on(source: TurfInfo, from: Coord, k: int) -> bool {
    if k < 4 {
        source.opens(step(k).dir)
    } else {
        let to = neighbor(from, k);
        source.opens(north_south(from, to)) || source.opens(east_west(from, to))
    }
}

/// Whether every step from a turf with the given data stays a 16-bit position, and every end that
/// is looked at can be compared with another position where that matters. The end of a step is
/// computed whether or not its edge is open, but looked at only where it is.
pub open spec fn steps_fit(source: TurfInfo, from: Coord, anchor: Coord, ranged: bool) -> bool {
    &&& interior(from)
    &&& ranged ==> forall|k: int|
        0 <= k < STEP_COUNT && #[trigger] leads_on(source, from, k) ==> comparable(
            neighbor(from, k),
            anchor,
        )
}

/// Tests whether every step from a turf with the given data stays a 16-bit position, and every end
/// that is looked at can be compared with another position where that matters.
pub fn do_steps_fit(source: TurfInfo, from: Coord, anchor: Coord, ranged: bool) -> (ok: bool)
    ensures
        ok == steps_fit(source, from, anchor, ranged),
{
    if !is_interior(from) {
        return false;
    }
    if !ranged {
        return true;
    }
    let mut k: usize = 0;
    while k < STEP_COUNT
        invariant
            k <= STEP_COUNT,
            interior(from),
            ranged,
            forall|j: int|
                0 <= j < k && #[trigger] leads_on(source, from, j) ==> comparable(
                    neighbor(from, j),
                    anchor,
                ),
        decreases STEP_COUNT - k,
    {
        let s = step_at(k);
        let to: Coord = (from.0 + s.dx, from.1 + s.dy);
        let looked_at: bool = if k < 4 {
            source.open_edges & s.dir != 0
        } else {
            let ns: i32 = if to.1 > from.1 { NORTH } else { SOUTH };
            let ew: i32 = if to.0 > from.0 { EAST } else { WEST };
            source.open_edges & ns != 0 || source.open_edges & ew != 0
        };
        assert(looked_at == leads_on(source, from, k as int));
        if looked_at && !are_comparable(to, anchor) {
            return false;
        }
        k = k + 1;
    }
    true
}

/// Around a diagonal step no corner is looked at but those that an open edge leads to.
pub proof fn lemma_corners_fit(source: TurfInfo, from: Coord, anchor: Coord, k: int)
    requires
        steps_fit(source, from, anchor, true),
        4 <= k < STEP_COUNT,
    ensures
        ({
            let to = neighbor(from, k);
            &&& source.opens(north_south(from, to)) ==> comparable((from.0, to.1), anchor)
            &&& source.opens(east_west(from, to)) ==> comparable((to.0, from.1), anchor)
        }),
{
    assert(leads_on(source, from, 0) ==> comparable(neighbor(from, 0), anchor));
    assert(leads_on(source, from, 1) ==> comparable(neighbor(from, 1), anchor));
    assert(leads_on(source, from, 2) ==> comparable(neighbor(from, 2), anchor));
    assert(leads_on(source, from, 3) ==> comparable(neighbor(from, 3), anchor));
}

impl Grid {
    /// Whether two grids follow the same rules, whatever they have looked up.
    pub open spec fn same_rules(self, other: Grid) -> bool {
        &&& self.z == other.z
        &&& self.pass_flags == other.pass_flags
        &&& self.is_flying == other.is_flying
        &&& self.start == other.start
        &&& self.max_range == other.max_range
        &&& self.simulated_only == other.simulated_only
        &&& self.avoid == other.avoid
    }

    /// The data of one turf, or the turf itself where it is not known yet.
    pub open spec fn seen(self, turfs: Turfs, coord: Coord) -> Result<Option<TurfInfo>, Coord> {
        if turfs.contains_key(coord) {
            Ok(turfs[coord])
        } else {
            Err(coord)
        }
    }

    /// The data of a turf that a mover may stand on: in range, not avoided, and simulated where
    /// that is asked for.
    pub open spec fn occupiable(self, turfs: Turfs, coord: Coord) -> Result<
        Option<TurfInfo>,
        Coord,
    > {
        if !allowed(coord, self.start, self.max_range as int, self.avoid) {
            Ok(None)
        } else {
            match self.seen(turfs, coord) {
                Ok(Some(info)) => if self.simulated_only ==> info.simulated {
                    Ok(Some(info))
                } else {
                    Ok(None)
                },
                Ok(None) => Ok(None),
                Err(missing) => Err(missing),
            }
        }
    }

    /// Whether one can go on from a corner; the corner is looked at only where the first edge is
    /// open.
    pub open spec fn corner_open(
        self,
        turfs: Turfs,
        first_open: bool,
        corner: Coord,
        dir: i32,
    ) -> Result<bool, Coord> {
        if !first_open {
            Ok(false)
        } else {
            match self.occupiable(turfs, corner) {
                Ok(Some(info)) => Ok(info.opens(dir)),
                Ok(None) => Ok(false),
                Err(missing) => Err(missing),
            }
        }
    }

    /// The routes around a diagonal, leaving from a turf with the given data. The second route
    /// is not looked at where the first will do.
    pub open spec fn routes_from(
        self,
        turfs: Turfs,
        source: TurfInfo,
        from: Coord,
        to: Coord,
        stop_after_first: bool,
    ) -> Result<DiagonalRoutes, Coord> {
        let ns = north_south(from, to);
        let ew = east_west(from, to);
        if !source.opens(ns) && !source.opens(ew) {
            Ok(no_routes())
        } else {
            match self.occupiable(turfs, to) {
                Err(missing) => Err(missing),
                Ok(None) => Ok(no_routes()),
                Ok(Some(_)) => match self.corner_open(
                    turfs,
                    source.opens(ns),
                    (from.0, to.1),
                    ew,
                ) {
                    Err(missing) => Err(missing),
                    Ok(first) => if stop_after_first && first {
                        Ok(DiagonalRoutes { north_south_first: true, east_west_first: false })
                    } else {
                        match self.corner_open(turfs, source.opens(ew), (to.0, from.1), ns) {
                            Err(missing) => Err(missing),
                            Ok(second) => Ok(
                                DiagonalRoutes {
                                    north_south_first: first,
                                    east_west_first: second,
                                },
                            ),
                        }
                    },
                },
            }
        }
    }

    /// The routes around a diagonal.
    pub open spec fn routes(self, turfs: Turfs, from: Coord, to: Coord) -> Result<
        DiagonalRoutes,
        Coord,
    > {
        match self.seen(turfs, from) {
            Err(missing) => Err(missing),
            Ok(None) => Ok(no_routes()),
            Ok(Some(source)) => self.routes_from(turfs, source, from, to, false),
        }
    }

    /// Whether every turf that is looked at around a diagonal can be compared with the start, where
    /// that matters.
    pub open spec fn routes_fit(
        self,
        turfs: Turfs,
        source: TurfInfo,
        from: Coord,
        to: Coord,
        stop_after_first: bool,
    ) -> bool {
        let ns = north_south(from, to);
        let ew = east_west(from, to);
        self.max_range > 0 && (source.opens(ns) || source.opens(ew)) ==> {
            &&& comparable(to, self.start)
            &&& self.occupiable(turfs, to) matches Ok(Some(_)) ==> {
                let first = self.corner_open(turfs, source.opens(ns), (from.0, to.1), ew);
                &&& source.opens(ns) ==> comparable((from.0, to.1), self.start)
                &&& source.opens(ew) && !(stop_after_first && first == Ok::<bool, Coord>(true))
                    ==> comparable((to.0, from.1), self.start)
            }
        }
    }

    /// Whether the numbers computed for the successors of a turf stay within their machine range.
    pub open spec fn room_at(self, turfs: Turfs, from: Coord) -> bool {
        self.seen(turfs, from) matches Ok(Some(source)) ==> steps_fit(
            source,
            from,
            self.start,
            self.max_range > 0,
        )
    }

    /// Whether a step can be walked: a cardinal one where its edge is open and its destination
    /// can be occupied, a diagonal one where some route around its corner can be walked.
    pub open spec fn walkable(self, turfs: Turfs, source: TurfInfo, from: Coord, k: int) -> Result<
        bool,
        Coord,
    > {
        let to = neighbor(from, k);
        if !on_grid(from, k) {
            Ok(false)
        } else if k < 4 {
            if !source.opens(step(k).dir) {
                Ok(false)
            } else {
                match self.occupiable(turfs, to) {
                    Ok(info) => Ok(info is Some),
                    Err(missing) => Err(missing),
                }
            }
        } else {
            match self.routes_from(turfs, source, from, to, true) {
                Ok(routes) => Ok(routes.north_south_first || routes.east_west_first),
                Err(missing) => Err(missing),
            }
        }
    }

    /// The walkable ones among the first `count` steps, with their costs.
    pub open spec fn successors_upto(
        self,
        turfs: Turfs,
        source: TurfInfo,
        from: Coord,
        count: nat,
    ) -> Result<Seq<(Coord, u32)>, Coord>
        decreases count,
    {
        if count == 0 {
            Ok(Seq::empty())
        } else {
            let k = count - 1;
            match self.successors_upto(turfs, source, from, (count - 1) as nat) {
                Err(missing) => Err(missing),
                Ok(out) => match self.walkable(turfs, source, from, k) {
                    Err(missing) => Err(missing),
                    Ok(true) => Ok(out.push((neighbor(from, k), step(k).cost))),
                    Ok(false) => Ok(out),
                },
            }
        }
    }

    /// Where a mover can go from a turf in one step, and at what cost; or the first turf that
    /// has to be looked up to tell.
    pub open spec fn successors_of(self, turfs: Turfs, from: Coord) -> Result<
        Seq<(Coord, u32)>,
        Coord,
    > {
        match self.seen(turfs, from) {
            Err(missing) => Err(missing),
            Ok(None) => Ok(Seq::empty()),
            Ok(Some(source)) => self.successors_upto(turfs, source, from, STEP_COUNT as nat),
        }
    }

    /// Whether a mover can walk from one turf straight to another at a cost.
    pub open spec fn walks_to(self, turfs: Turfs, from: Coord, to: Coord, cost: nat) -> bool {
        self.successors_of(turfs, from) matches Ok(out) && exists|i: int|
            0 <= i < out.len() && (#[trigger] out[i]).0 == to && out[i].1 == cost
    }

    /// The graph that the given turfs span.
    pub open spec fn edges(self, turfs: Turfs) -> Edges<Coord> {
        |from: Coord, to: Coord, cost: nat| self.walks_to(turfs, from, to, cost)
    }

    /// Whether every position of a path can be compared with the start, where that matters.
    pub open spec fn comparable_path(self, path: Seq<Coord>) -> bool {
        self.max_range > 0 ==> forall|i: int|
            0 <= i < path.len() ==> comparable(#[trigger] path[i], self.start)
    }

    /// Looks up one turf's navigation data among those found so far.
    ///
    /// A search uses one consistent view of each turf, even if it yields and resumes: what has
    /// been looked up once is never looked up again.
    pub fn lookup(&self, coord: Coord) -> (info: Result<Option<TurfInfo>, Coord>)
        ensures
            info == self.seen(self.cache@, coord),
    {
        match self.cache.get(coord) {
            Some(hit) => Ok(*hit),
            None => Err(coord),
        }
    }

    /// The world position of a turf of this grid.
    pub fn turf_coords(&self, coord: Coord) -> (coords: TurfCoords)
        ensures
            coords == (coord.0, coord.1, self.z),
    {
        (coord.0, coord.1, self.z)
    }

    /// Reads a turf from the published values where they settle it.
    pub fn cached_info(&self, published: &NavPassCache, coord: Coord) -> (info: Option<TurfInfo>)
        ensures
            info == published_info(
                *published,
                (coord.0, coord.1, self.z),
                self.is_flying,
                false,
            ),
    {
        cached_turf_info(published, self.turf_coords(coord), self.is_flying, false)
    }

    /// Keeps what was found at a position; what was known before stays as it is.
    pub fn remember(&mut self, coord: Coord, info: Option<TurfInfo>)
        ensures
            final(self).same_rules(*old(self)),
            final(self).cache@ == if old(self).cache@.contains_key(coord) {
                old(self).cache@
            } else {
                old(self).cache@.insert(coord, info)
            },
    {
        if self.cache.get(coord).is_none() {
            self.cache.insert(coord, info);
        }
    }

    /// Returns turf data when the coordinate is occupiable.
    pub fn occupiable_info(&self, coord: Coord) -> (info: Result<Option<TurfInfo>, Coord>)
        requires
            self.max_range > 0 ==> comparable(coord, self.start),
        ensures
            info == self.occupiable(self.cache@, coord),
    {
        if !coordinate_allowed(coord, self.start, self.max_range, self.avoid) {
            return Ok(None);
        }
        match self.lookup(coord) {
            Ok(Some(info)) => if turf_allowed(self.simulated_only, info.simulated) {
                Ok(Some(info))
            } else {
                Ok(None)
            },
            Ok(None) => Ok(None),
            Err(missing) => Err(missing),
        }
    }

    /// Checks whether a coordinate can be occupied.
    pub fn can_occupy(&self, coord: Coord) -> (ok: Result<bool, Coord>)
        requires
            self.max_range > 0 ==> comparable(coord, self.start),
        ensures
            ok == (match self.occupiable(self.cache@, coord) {
                Ok(info) => Ok(info is Some),
                Err(missing) => Err(missing),
            }),
    {
        match self.occupiable_info(coord) {
            Ok(info) => Ok(info.is_some()),
            Err(missing) => Err(missing),
        }
    }

    /// Tests whether the numbers computed for the successors of a turf stay within their machine
    /// range.
    pub fn has_room_at(&self, from: Coord) -> (ok: bool)
        ensures
            ok == self.room_at(self.cache@, from),
    {
        match self.lookup(from) {
            Ok(Some(source)) => do_steps_fit(source, from, self.start, self.max_range > 0),
            _ => true,
        }
    }

    /// Checks whether one can go on from a corner.
    fn corner(&self, first_open: bool, corner: Coord, dir: i32) -> (ok: Result<bool, Coord>)
        requires
            first_open && self.max_range > 0 ==> comparable(corner, self.start),
        ensures
            ok == self.corner_open(self.cache@, first_open, corner, dir),
    {
        if !first_open {
            return Ok(false);
        }
        match self.occupiable_info(corner) {
            Ok(Some(info)) => Ok(info.open_edges & dir != 0),
            Ok(None) => Ok(false),
            Err(missing) => Err(missing),
        }
    }

    /// Evaluates both cardinal routes around a diagonal.
    pub fn diagonal_routes_from_source(
        &self,
        source: TurfInfo,
        from: Coord,
        to: Coord,
        stop_after_first: bool,
    ) -> (routes: Result<DiagonalRoutes, Coord>)
        requires
            self.routes_fit(self.cache@, source, from, to, stop_after_first),
        ensures
            routes == self.routes_from(self.cache@, source, from, to, stop_after_first),
    {
        let ns: i32 = if to.1 > from.1 { NORTH } else { SOUTH };
        let ew: i32 = if to.0 > from.0 { EAST } else { WEST };
        let ns_open: bool = source.open_edges & ns != 0;
        let ew_open: bool = source.open_edges & ew != 0;
        let none = DiagonalRoutes { north_south_first: false, east_west_first: false };
        if !ns_open && !ew_open {
            return Ok(none);
        }
        // Both routes share the destination, which is resolved once.
        match self.occupiable_info(to) {
            Err(missing) => {
                return Err(missing);
            },
            Ok(None) => {
                return Ok(none);
            },
            Ok(Some(_)) => {},
        }
        let north_south_first: bool = match self.corner(ns_open, (from.0, to.1), ew) {
            Err(missing) => {
                return Err(missing);
            },
            Ok(first) => first,
        };
        if stop_after_first && north_south_first {
            return Ok(DiagonalRoutes { north_south_first: true, east_west_first: false });
        }
        match self.corner(ew_open, (to.0, from.1), ns) {
            Err(missing) => Err(missing),
            Ok(east_west_first) => Ok(DiagonalRoutes { north_south_first, east_west_first }),
        }
    }

    /// Evaluates a diagonal using its source turf.
    pub fn diagonal_routes(&self, from: Coord, to: Coord) -> (routes: Result<
        DiagonalRoutes,
        Coord,
    >)
        requires
            self.seen(self.cache@, from) matches Ok(Some(source)) ==> self.routes_fit(
                self.cache@,
                source,
                from,
                to,
                false,
            ),
        ensures
            routes == self.routes(self.cache@, from, to),
    {
        match self.lookup(from) {
            Err(missing) => Err(missing),
            Ok(None) => Ok(DiagonalRoutes { north_south_first: false, east_west_first: false }),
            Ok(Some(source)) => self.diagonal_routes_from_source(source, from, to, false),
        }
    }

    /// Returns all walkable cardinal and diagonal successors, or the first turf that has to be
    /// looked up to tell.
    pub fn successors(&self, from: Coord) -> (out: Result<Vec<(Coord, u32)>, Coord>)
        requires
            self.room_at(self.cache@, from),
        ensures
            match out {
                Ok(list) => self.successors_of(self.cache@, from) == Ok::<
                    Seq<(Coord, u32)>,
                    Coord,
                >(list@),
                Err(missing) => self.successors_of(self.cache@, from) == Err::<
                    Seq<(Coord, u32)>,
                    Coord,
                >(missing),
            },
    {
        let source = match self.lookup(from) {
            Err(missing) => {
                return Err(missing);
            },
            Ok(None) => {
                let none: Vec<(Coord, u32)> = Vec::new();
                assert(none@ =~= Seq::empty());
                return Ok(none);
            },
            Ok(Some(source)) => source,
        };
        let mut out: Vec<(Coord, u32)> = Vec::with_capacity(STEP_COUNT);
        assert(out@ =~= Seq::empty());
        let mut k: usize = 0;
        while k < STEP_COUNT
            invariant
                k <= STEP_COUNT,
                self.room_at(self.cache@, from),
                self.seen(self.cache@, from) == Ok::<Option<TurfInfo>, Coord>(Some(source)),
                self.successors_upto(self.cache@, source, from, k as nat) == Ok::<
                    Seq<(Coord, u32)>,
                    Coord,
                >(out@),
            decreases STEP_COUNT - k,
        {
            let s = step_at(k);
            let to: Coord = (from.0 + s.dx, from.1 + s.dy);
            assert(to == neighbor(from, k as int) && on_grid(from, k as int));
            proof {
                assert(leads_on(source, from, k as int) && self.max_range > 0 ==> comparable(
                    to,
                    self.start,
                ));
                if self.max_range > 0 && k >= 4 {
                    lemma_corners_fit(source, from, self.start, k as int);
                }
                // A failing look leaves the whole list undecided.
                lemma_failure_persists(*self, self.cache@, source, from, (k + 1) as nat);
            }
            let walkable: bool = if s.dx == 0 || s.dy == 0 {
                if source.open_edges & s.dir != 0 {
                    match self.can_occupy(to) {
                        Ok(ok) => ok,
                        Err(missing) => {
                            return Err(missing);
                        },
                    }
                } else {
                    false
                }
            } else {
                match self.diagonal_routes_from_source(source, from, to, true) {
                    Ok(routes) => routes.north_south_first || routes.east_west_first,
                    Err(missing) => {
                        return Err(missing);
                    },
                }
            };
            if walkable {
                out.push((to, s.cost));
            }
            k = k + 1;
        }
        Ok(out)
    }
}

/// Where the first `count` steps leave a turf to be looked up, so do all of them.
proof fn lemma_failure_persists(
    grid: Grid,
    turfs: Turfs,
    source: TurfInfo,
    from: Coord,
    count: nat,
)
    requires
        count <= STEP_COUNT,
    ensures
        grid.successors_upto(turfs, source, from, count) matches Err(missing)
            ==> grid.successors_upto(turfs, source, from, STEP_COUNT as nat) == Err::<
            Seq<(Coord, u32)>,
            Coord,
        >(missing),
    decreases STEP_COUNT - count,
{
    if count < STEP_COUNT {
        lemma_failure_persists(grid, turfs, source, from, count + 1);
    }
}

proof fn lemma_more_turfs_upto(
    grid: Grid,
    known: Turfs,
    world: Turfs,
    source: TurfInfo,
    from: Coord,
    count: nat,
)
    requires
        known.submap_of(world),
        grid.successors_upto(known, source, from, count) is Ok,
    ensures
        grid.successors_upto(world, source, from, count) == grid.successors_upto(
            known,
            source,
            from,
            count,
        ),
    decreases count,
{
    if count > 0 {
        lemma_more_turfs_upto(grid, known, world, source, from, (count - 1) as nat);
        let k = count - 1;
        let to = neighbor(from, k);
        lemma_more_turfs_occupiable(grid, known, world, to);
        lemma_more_turfs_occupiable(grid, known, world, (from.0, to.1));
        lemma_more_turfs_occupiable(grid, known, world, (to.0, from.1));
    }
}

proof fn lemma_more_turfs_occupiable(grid: Grid, known: Turfs, world: Turfs, coord: Coord)
    requires
        known.submap_of(world),
    ensures
        grid.occupiable(known, coord) is Ok ==> grid.occupiable(world, coord) == grid.occupiable(
            known,
            coord,
        ),
{
    assert(known.contains_key(coord) ==> world.contains_key(coord) && known[coord]
        == world[coord]);
}

/// Looking up more turfs never changes where one can go from a turf once that is settled.
pub proof fn law_more_turfs_keep_successors(grid: Grid, known: Turfs, world: Turfs, from: Coord)
    requires
        known.submap_of(world),
        grid.successors_of(known, from) is Ok,
    ensures
        grid.successors_of(world, from) == grid.successors_of(known, from),
{
    assert(known.contains_key(from) ==> world.contains_key(from) && known[from] == world[from]);
    if let Ok(Some(source)) = grid.seen(known, from) {
        lemma_more_turfs_upto(grid, known, world, source, from, STEP_COUNT as nat);
    }
}

/// Grids with the same rules span the same graph.
pub proof fn lemma_same_rules_same_successors(a: Grid, b: Grid, turfs: Turfs, from: Coord)
    requires
        a.same_rules(b),
    ensures
        a.successors_of(turfs, from) == b.successors_of(turfs, from),
        a.occupiable(turfs, from) == b.occupiable(turfs, from),
{
    assert forall|c: Coord| a.occupiable(turfs, c) == b.occupiable(turfs, c) by {}
    if let Ok(Some(source)) = a.seen(turfs, from) {
        lemma_same_rules_upto(a, b, turfs, source, from, STEP_COUNT as nat);
    }
}

proof fn lemma_same_rules_upto(
    a: Grid,
    b: Grid,
    turfs: Turfs,
    source: TurfInfo,
    from: Coord,
    count: nat,
)
    requires
        a.same_rules(b),
    ensures
        a.successors_upto(turfs, source, from, count) == b.successors_upto(
            turfs,
            source,
            from,
            count,
        ),
    decreases count,
{
    if count > 0 {
        lemma_same_rules_upto(a, b, turfs, source, from, (count - 1) as nat);
    }
}

/// Whether an item of a successor list comes from one of the first `count` steps.
spec fn from_walkable_step(
    grid: Grid,
    turfs: Turfs,
    source: TurfInfo,
    from: Coord,
    count: int,
    item: (Coord, u32),
) -> bool {
    exists|k: int|
        {
            &&& 0 <= k < count
            &&& #[trigger] grid.walkable(turfs, source, from, k) == Ok::<bool, Coord>(true)
            &&& item == (neighbor(from, k), step(k).cost)
        }
}

/// Successors come from walkable steps, in both directions.
proof fn lemma_successors_are_walkable(
    grid: Grid,
    turfs: Turfs,
    source: TurfInfo,
    from: Coord,
    count: nat,
)
    requires
        count <= STEP_COUNT,
        grid.successors_upto(turfs, source, from, count) is Ok,
    ensures
        ({
            let out = grid.successors_upto(turfs, source, from, count)->Ok_0;
            &&& forall|i: int|
                0 <= i < out.len() ==> from_walkable_step(
                    grid,
                    turfs,
                    source,
                    from,
                    count as int,
                    #[trigger] out[i],
                )
            &&& forall|k: int|
                0 <= k < count && #[trigger] grid.walkable(turfs, source, from, k) == Ok::<
                    bool,
                    Coord,
                >(true) ==> out.contains((neighbor(from, k), step(k).cost))
        }),
    decreases count,
{
    if count > 0 {
        lemma_successors_are_walkable(grid, turfs, source, from, (count - 1) as nat);
        let out = grid.successors_upto(turfs, source, from, count)->Ok_0;
        let last = count - 1;
        let before = grid.successors_upto(turfs, source, from, last as nat)->Ok_0;
        assert forall|i: int| 0 <= i < out.len() implies from_walkable_step(
            grid,
            turfs,
            source,
            from,
            count as int,
            #[trigger] out[i],
        ) by {
            if i < before.len() {
                assert(out[i] == before[i]);
                assert(from_walkable_step(grid, turfs, source, from, last, before[i]));
            } else {
                assert(grid.walkable(turfs, source, from, last) == Ok::<bool, Coord>(true));
                assert(out[i] == (neighbor(from, last), step(last).cost));
            }
        }
        assert forall|k: int|
            0 <= k < count && #[trigger] grid.walkable(turfs, source, from, k) == Ok::<
                bool,
                Coord,
            >(true) implies out.contains((neighbor(from, k), step(k).cost)) by {
            let item = (neighbor(from, k), step(k).cost);
            if k < last {
                let i = choose|i: int| 0 <= i < before.len() && before[i] == item;
                assert(out[i] == item);
            } else {
                assert(out[out.len() - 1] == item);
            }
        }
    }
}

/// Where everything that matters is known, a mover gets from a turf to another exactly by the
/// walkable ones among the eight steps, at their costs.
pub proof fn law_edges_are_the_walkable_steps(
    grid: Grid,
    turfs: Turfs,
    from: Coord,
    source: TurfInfo,
    to: Coord,
    cost: nat,
)
    requires
        grid.seen(turfs, from) == Ok::<Option<TurfInfo>, Coord>(Some(source)),
        grid.successors_of(turfs, from) is Ok,
    ensures
        grid.walks_to(turfs, from, to, cost) <==> exists|k: int|
            {
                &&& 0 <= k < STEP_COUNT
                &&& #[trigger] grid.walkable(turfs, source, from, k) == Ok::<bool, Coord>(true)
                &&& to == neighbor(from, k)
                &&& cost == step(k).cost
            },
{
    lemma_successors_are_walkable(grid, turfs, source, from, STEP_COUNT as nat);
    let out = grid.successors_of(turfs, from)->Ok_0;
    if grid.walks_to(turfs, from, to, cost) {
        let i = choose|i: int| 0 <= i < out.len() && (#[trigger] out[i]).0 == to && out[i].1 == cost;
        assert(from_walkable_step(grid, turfs, source, from, STEP_COUNT as int, out[i]));
    } else {
        assert forall|k: int|
            0 <= k < STEP_COUNT && #[trigger] grid.walkable(turfs, source, from, k) == Ok::<
                bool,
                Coord,
            >(true) implies !(to == neighbor(from, k) && cost == step(k).cost) by {
            let item = (neighbor(from, k), step(k).cost);
            let i = choose|i: int| 0 <= i < out.len() && out[i] == item;
            assert(out[i].0 == item.0);
        }
    }
}

/// A turf has at most eight successors.
pub proof fn lemma_at_most_eight(grid: Grid, turfs: Turfs, from: Coord)
    ensures
        grid.successors_of(turfs, from) matches Ok(out) ==> out.len() <= 8,
{
    if let Ok(Some(source)) = grid.seen(turfs, from) {
        lemma_length_upto(grid, turfs, source, from, STEP_COUNT as nat);
    }
}

proof fn lemma_length_upto(grid: Grid, turfs: Turfs, source: TurfInfo, from: Coord, count: nat)
    ensures
        grid.successors_upto(turfs, source, from, count) matches Ok(out) ==> out.len() <= count,
        grid.successors_upto(turfs, source, from, count) matches Err(missing)
            ==> !turfs.contains_key(missing),
    decreases count,
{
    if count > 0 {
        lemma_length_upto(grid, turfs, source, from, (count - 1) as nat);
    }
}

/// A turf that has to be looked up is not known.
pub proof fn lemma_missing_is_unknown(grid: Grid, turfs: Turfs, from: Coord)
    ensures
        grid.successors_of(turfs, from) matches Err(missing) ==> !turfs.contains_key(missing),
{
    if let Ok(Some(source)) = grid.seen(turfs, from) {
        lemma_length_upto(grid, turfs, source, from, STEP_COUNT as nat);
    }
}

/// Every edge of the graph is one of the eight steps, at its cost.
pub proof fn law_edges_are_steps(grid: Grid, turfs: Turfs, from: Coord, to: Coord, cost: nat)
    requires
        grid.walks_to(turfs, from, to, cost),
    ensures
        one_step(from, to, cost as int),
        cost > 0,
{
    if let Ok(Some(source)) = grid.seen(turfs, from) {
        law_edges_are_the_walkable_steps(grid, turfs, from, source, to, cost);
        let k = choose|k: int|
            {
                &&& 0 <= k < STEP_COUNT
                &&& #[trigger] grid.walkable(turfs, source, from, k) == Ok::<bool, Coord>(true)
                &&& to == neighbor(from, k)
                &&& cost == step(k).cost
            };
        assert(on_grid(from, k));
        assert(to.0 == from.0 + step(k).dx && to.1 == from.1 + step(k).dy);
    } else {
        assert(grid.successors_of(turfs, from)->Ok_0.len() == 0);
    }
}

/// Every edge of the graph leads along a step whose end is looked at.
pub proof fn lemma_edges_fit(grid: Grid, turfs: Turfs, from: Coord, to: Coord, cost: nat)
    requires
        grid.walks_to(turfs, from, to, cost),
        grid.room_at(turfs, from),
    ensures
        grid.max_range > 0 ==> comparable(to, grid.start),
{
    if let Ok(Some(source)) = grid.seen(turfs, from) {
        law_edges_are_the_walkable_steps(grid, turfs, from, source, to, cost);
        let k = choose|k: int|
            {
                &&& 0 <= k < STEP_COUNT
                &&& #[trigger] grid.walkable(turfs, source, from, k) == Ok::<bool, Coord>(true)
                &&& to == neighbor(from, k)
                &&& cost == step(k).cost
            };
        assert(leads_on(source, from, k));
    } else {
        assert(grid.successors_of(turfs, from)->Ok_0.len() == 0);
    }
}

/// Every edge of the graph leads to a turf that can be occupied.
pub proof fn law_destinations_can_be_occupied(
    grid: Grid,
    turfs: Turfs,
    from: Coord,
    to: Coord,
    cost: nat,
)
    requires
        grid.walks_to(turfs, from, to, cost),
    ensures
        grid.occupiable(turfs, to) matches Ok(Some(_)),
{
    if let Ok(Some(source)) = grid.seen(turfs, from) {
        law_edges_are_the_walkable_steps(grid, turfs, from, source, to, cost);
        let k = choose|k: int|
            {
                &&& 0 <= k < STEP_COUNT
                &&& #[trigger] grid.walkable(turfs, source, from, k) == Ok::<bool, Coord>(true)
                &&& to == neighbor(from, k)
                &&& cost == step(k).cost
            };
    } else {
        assert(grid.successors_of(turfs, from)->Ok_0.len() == 0);
    }
}

/// Whether one can walk to a neighbour by way of a corner: first edge, corner, second edge and
/// destination all have to be in order.
pub open spec fn two_step_route(
    grid: Grid,
    turfs: Turfs,
    from: Coord,
    corner: Coord,
    to: Coord,
    first: i32,
    second: i32,
) -> bool {
    &&& turfs.contains_key(from) && turfs[from] is Some && turfs[from].unwrap().opens(first)
    &&& grid.occupiable(turfs, corner) matches Ok(Some(info)) && info.opens(second)
    &&& grid.occupiable(turfs, to) matches Ok(Some(_))
}

/// A diagonal is legal exactly when at least one of the two cardinal routes through its corners
/// is legal.
pub proof fn law_diagonal_needs_a_cardinal_route(grid: Grid, turfs: Turfs, from: Coord, to: Coord)
    requires
        turfs.contains_key(from),
        grid.occupiable(turfs, to) is Ok,
        grid.occupiable(turfs, (from.0, to.1)) is Ok,
        grid.occupiable(turfs, (to.0, from.1)) is Ok,
    ensures
        grid.routes(turfs, from, to) matches Ok(routes) && {
            let ns = north_south(from, to);
            let ew = east_west(from, to);
            &&& routes.north_south_first == two_step_route(
                grid,
                turfs,
                from,
                (from.0, to.1),
                to,
                ns,
                ew,
            )
            &&& routes.east_west_first == two_step_route(
                grid,
                turfs,
                from,
                (to.0, from.1),
                to,
                ew,
                ns,
            )
        },
        turfs[from] matches Some(source) ==> {
            let full = grid.routes(turfs, from, to)->Ok_0;
            grid.routes_from(turfs, source, from, to, true) matches Ok(quick) && (
            quick.north_south_first || quick.east_west_first) == (full.north_south_first
                || full.east_west_first)
        },
{
}

} // verus!
