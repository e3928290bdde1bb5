//! The multi-level search grid.

use crate::diagonals::DiagonalRoutes;
use crate::directions::{
    step, step_at, DOWN, EAST, NORTH, SOUTH, STEP_COUNT, STRAIGHT_COST, UP, WEST,
};
use crate::geometry::{
    are_comparable, chebyshev, chebyshev_distance, comparable, one_step, turf_allowed, LayeredNode,
    TurfCoords,
};
use crate::grid::{
    do_steps_fit, east_west, leads_on, lemma_corners_fit, neighbor, no_routes, north_south, on_grid,
    steps_fit,
};
use crate::nav_pass::{cached_turf_info, published_info, NavPassCache, TurfInfo, VERTICAL_SHIFT};
use crate::packed_map::PackedMap;
use crate::topology::{node_for_xyz, NavLink, Topology};
use crate::walks::Edges;
use vstd::prelude::*;

verus! {

/// Turf data by node; no data means that there is no turf.
pub type LayeredTurfs = Map<LayeredNode, Option<TurfInfo>>;

/// Action used to reach a node.
#[derive(Clone, Copy, Debug, PartialEq, Eq, Structural)]
pub enum LayeredAction {
    /// No action beyond the step itself.
    Plain,
    /// A change of layer in a vertical direction.
    Vertical(i32),
    /// A link.
    Link(u64),
}

/// What has to be found out before a search can go on.
#[derive(Clone, Copy, Debug, PartialEq, Eq, Structural)]
pub enum Request {
    /// The turf at a node has to be looked up.
    Turf(LayeredNode),
    /// Whether the mover may plan to take a link has to be asked.
    Link(u64),
}

/// A node that can be moved to, the cost of the move and the action it takes.
pub type Successor = (LayeredNode, u32, LayeredAction);

/// Multi-level search grid and its per-job cache.
pub struct LayeredGrid {
    /// Topology snapshot used by this search.
    pub topology: Topology,
    /// Pass flags for conditional blockers.
    pub pass_flags: i32,
    /// Whether flying edges should be used.
    pub is_flying: bool,
    /// Search origin node.
    pub start: LayeredNode,
    /// Maximum horizontal search range, or zero for unlimited.
    pub max_range: i32,
    /// Maximum total path cost, or zero for unlimited.
    pub max_cost: u32,
    /// Whether only simulated turfs are allowed.
    pub simulated_only: bool,
    /// Optional node excluded from the search.
    pub avoid: Option<LayeredNode>,
    /// Links indexed by their source turf.
    pub links_by_source: PackedMap<TurfCoords, Vec<NavLink>>,
    /// Turfs looked up so far.
    pub cache: PackedMap<LayeredNode, Option<TurfInfo>>,
}

/// The node at another horizontal position of the same level.
pub open spec fn beside(node: LayeredNode, x: i16, y: i16) -> LayeredNode {
    LayeredNode { x, y, ..node }
}

/// The node that a step leads to.
pub open spec fn step_node(from: LayeredNode, k: int) -> LayeredNode {
    let to = neighbor(from.coord(), k);
    beside(from, to.0, to.1)
}

/// The layer that a vertical direction leads to.
pub open spec fn next_layer(layer: i16, dir: i32) -> int {
    if dir == UP {
        layer + 1
    } else {
        layer - 1
    }
}

impl LayeredGrid {
    /// Whether two grids follow the same rules, whatever they have looked up.
    pub open spec fn same_rules(self, other: LayeredGrid) -> bool {
        &&& self.topology == other.topology
        &&& self.pass_flags == other.pass_flags
        &&& self.is_flying == other.is_flying
        &&& self.start == other.start
        &&& self.max_range == other.max_range
        &&& self.max_cost == other.max_cost
        &&& self.simulated_only == other.simulated_only
        &&& self.avoid == other.avoid
        &&& self.links_by_source == other.links_by_source
    }

    /// Whether two grids follow rules that say the same, whatever they have looked up and however
    /// they keep them.
    pub open spec fn equivalent(self, other: LayeredGrid) -> bool {
        &&& self.topology.same(other.topology)
        &&& self.pass_flags == other.pass_flags
        &&& self.is_flying == other.is_flying
        &&& self.start == other.start
        &&& self.max_range == other.max_range
        &&& self.max_cost == other.max_cost
        &&& self.simulated_only == other.simulated_only
        &&& self.avoid == other.avoid
        &&& forall|source: TurfCoords| #[trigger]
            indexed_at(self.links_by_source@, source) == indexed_at(other.links_by_source@, source)
    }

    /// The data of one turf, or the request to look it up.
    pub open spec fn seen(self, turfs: LayeredTurfs, node: LayeredNode) -> Result<
        Option<TurfInfo>,
        Request,
    > {
        if turfs.contains_key(node) {
            Ok(turfs[node])
        } else {
            Err(Request::Turf(node))
        }
    }

    /// Whether a node lies in horizontal range of the start and is not the avoided one.
    pub open spec fn node_allowed(self, node: LayeredNode) -> bool {
        &&& self.max_range <= 0 || chebyshev(node.coord(), self.start.coord()) <= self.max_range
        &&& self.avoid != Some(node)
    }

    /// The data of a turf that a mover may stand on.
    pub open spec fn occupiable(self, turfs: LayeredTurfs, node: LayeredNode) -> Result<
        Option<TurfInfo>,
        Request,
    > {
        if !self.node_allowed(node) {
            Ok(None)
        } else {
            match self.seen(turfs, node) {
                Ok(Some(info)) => if self.simulated_only ==> info.simulated {
                    Ok(Some(info))
                } else {
                    Ok(None)
                },
                Ok(None) => Ok(None),
                Err(missing) => Err(missing),
            }
        }
    }

    /// Whether it is known that a mover may stand on a node.
    pub open spec fn can_stand(self, turfs: LayeredTurfs, node: LayeredNode) -> bool {
        self.occupiable(turfs, node) matches Ok(Some(_))
    }

    /// Whether one can go on from a corner; the corner is looked at only where the first edge is
    /// open.
    pub open spec fn corner_open(
        self,
        turfs: LayeredTurfs,
        first_open: bool,
        corner: LayeredNode,
        dir: i32,
    ) -> Result<bool, Request> {
        if !first_open {
            Ok(false)
        } else {
            match self.occupiable(turfs, corner) {
                Ok(Some(info)) => Ok(info.opens(dir)),
                Ok(None) => Ok(false),
                Err(missing) => Err(missing),
            }
        }
    }

    /// The routes around a diagonal.
    pub open spec fn routes(self, turfs: LayeredTurfs, from: LayeredNode, to: LayeredNode) -> Result<
        DiagonalRoutes,
        Request,
    > {
        let ns = north_south(from.coord(), to.coord());
        let ew = east_west(from.coord(), to.coord());
        match self.seen(turfs, from) {
            Err(missing) => Err(missing),
            Ok(None) => Ok(no_routes()),
            Ok(Some(source)) => if !source.opens(ns) && !source.opens(ew) {
                Ok(no_routes())
            } else {
                match self.occupiable(turfs, to) {
                    Err(missing) => Err(missing),
                    Ok(None) => Ok(no_routes()),
                    Ok(Some(_)) => match self.corner_open(
                        turfs,
                        source.opens(ns),
                        beside(from, from.x, to.y),
                        ew,
                    ) {
                        Err(missing) => Err(missing),
                        Ok(first) => match self.corner_open(
                            turfs,
                            source.opens(ew),
                            beside(from, to.x, from.y),
                            ns,
                        ) {
                            Err(missing) => Err(missing),
                            Ok(second) => Ok(
                                DiagonalRoutes {
                                    north_south_first: first,
                                    east_west_first: second,
                                },
                            ),
                        },
                    },
                }
            },
        }
    }

    /// Whether every node that is looked at around a diagonal can be compared with the start, where
    /// that matters.
    pub open spec fn routes_fit(
        self,
        turfs: LayeredTurfs,
        source: TurfInfo,
        from: LayeredNode,
        to: LayeredNode,
    ) -> bool {
        let ns = north_south(from.coord(), to.coord());
        let ew = east_west(from.coord(), to.coord());
        self.max_range > 0 && (source.opens(ns) || source.opens(ew)) ==> {
            &&& comparable(to.coord(), self.start.coord())
            &&& self.occupiable(turfs, to) matches Ok(Some(_)) ==> {
                &&& source.opens(ns) ==> comparable((from.x, to.y), self.start.coord())
                &&& source.opens(ew) ==> comparable((to.x, from.y), self.start.coord())
            }
        }
    }

    /// Whether a step can be walked: a cardinal one where its edge is open and its destination
    /// can be occupied, a diagonal one where some route around its corner can be walked.
    pub open spec fn walkable(
        self,
        turfs: LayeredTurfs,
        source: TurfInfo,
        from: LayeredNode,
        k: int,
    ) -> Result<bool, Request> {
        if !on_grid(from.coord(), k) {
            Ok(false)
        } else if k < 4 {
            if !source.opens(step(k).dir) {
                Ok(false)
            } else {
                match self.occupiable(turfs, step_node(from, k)) {
                    Ok(info) => Ok(info is Some),
                    Err(missing) => Err(missing),
                }
            }
        } else {
            match self.routes(turfs, from, step_node(from, k)) {
                Ok(routes) => Ok(routes.north_south_first || routes.east_west_first),
                Err(missing) => Err(missing),
            }
        }
    }

    /// The walkable ones among the first `count` steps.
    pub open spec fn steps_upto(
        self,
        turfs: LayeredTurfs,
        source: TurfInfo,
        from: LayeredNode,
        count: nat,
    ) -> Result<Seq<Successor>, Request>
        decreases count,
    {
        if count == 0 {
            Ok(Seq::empty())
        } else {
            let k = count - 1;
            match self.steps_upto(turfs, source, from, (count - 1) as nat) {
                Err(missing) => Err(missing),
                Ok(out) => match self.walkable(turfs, source, from, k) {
                    Err(missing) => Err(missing),
                    Ok(true) => Ok(
                        out.push((step_node(from, k), step(k).cost, LayeredAction::Plain)),
                    ),
                    Ok(false) => Ok(out),
                },
            }
        }
    }

    /// The change of layer in one vertical direction, where it can be made.
    pub open spec fn vertical(
        self,
        turfs: LayeredTurfs,
        source: TurfInfo,
        from: LayeredNode,
        dir: i32,
    ) -> Result<Seq<Successor>, Request> {
        let to = LayeredNode { layer: next_layer(from.layer, dir) as i16, ..from };
        if !source.opens_vertically(dir) || !(i16::MIN <= next_layer(from.layer, dir)
            <= i16::MAX) {
            Ok(Seq::empty())
        } else {
            match self.occupiable(turfs, to) {
                Ok(Some(_)) => Ok(seq![(to, STRAIGHT_COST, LayeredAction::Vertical(dir))]),
                Ok(None) => Ok(Seq::empty()),
                Err(missing) => Err(missing),
            }
        }
    }

    /// The changes of layer that can be made; only a flying mover makes any.
    pub open spec fn verticals(
        self,
        turfs: LayeredTurfs,
        source: TurfInfo,
        from: LayeredNode,
    ) -> Result<Seq<Successor>, Request> {
        if !self.is_flying {
            Ok(Seq::empty())
        } else {
            match self.vertical(turfs, source, from, UP) {
                Err(missing) => Err(missing),
                Ok(up) => match self.vertical(turfs, source, from, DOWN) {
                    Err(missing) => Err(missing),
                    Ok(down) => Ok(up + down),
                },
            }
        }
    }

    /// The links that leave from a node.
    pub open spec fn links_at(self, from: LayeredNode) -> Seq<NavLink> {
        match self.topology.z_of(from) {
            Some(z) => if self.links_by_source@.contains_key((from.x, from.y, z)) {
                self.links_by_source@[(from.x, from.y, z)]@
            } else {
                Seq::empty()
            },
            None => Seq::empty(),
        }
    }

    /// The links among the first `count` that can be taken, and how many of them had to be asked
    /// about. A link is asked about where its destination can be occupied; `replies` holds the
    /// answers in the order of the questions.
    pub open spec fn links_upto(
        self,
        turfs: LayeredTurfs,
        replies: Seq<bool>,
        links: Seq<NavLink>,
        count: nat,
    ) -> Result<(Seq<Successor>, nat), Request>
        decreases count,
    {
        if count == 0 {
            Ok((Seq::empty(), 0))
        } else {
            let link = links[count - 1];
            match self.links_upto(turfs, replies, links, (count - 1) as nat) {
                Err(missing) => Err(missing),
                Ok((out, asked)) => match self.topology.node(link.destination) {
                    None => Ok((out, asked)),
                    Some(to) => match self.occupiable(turfs, to) {
                        Err(missing) => Err(missing),
                        Ok(None) => Ok((out, asked)),
                        Ok(Some(_)) => if asked >= replies.len() {
                            Err(Request::Link(link.id))
                        } else if replies[asked as int] {
                            Ok((out.push((to, link.cost, LayeredAction::Link(link.id))), asked + 1))
                        } else {
                            Ok((out, asked + 1))
                        },
                    },
                },
            }
        }
    }

    /// Where a mover can go from a node in one move, at what cost and by which action; or what
    /// has to be found out first.
    pub open spec fn successors_of(
        self,
        turfs: LayeredTurfs,
        replies: Seq<bool>,
        from: LayeredNode,
    ) -> Result<Seq<Successor>, Request> {
        match self.seen(turfs, from) {
            Err(missing) => Err(missing),
            Ok(None) => Ok(Seq::empty()),
            Ok(Some(source)) => match self.steps_upto(turfs, source, from, STEP_COUNT as nat) {
                Err(missing) => Err(missing),
                Ok(steps) => match self.verticals(turfs, source, from) {
                    Err(missing) => Err(missing),
                    Ok(verticals) => match self.links_upto(
                        turfs,
                        replies,
                        self.links_at(from),
                        self.links_at(from).len(),
                    ) {
                        Err(missing) => Err(missing),
                        Ok((links, _)) => Ok(steps + verticals + links),
                    },
                },
            },
        }
    }

    /// Whether the numbers computed for the successors of a node stay within their machine range.
    pub open spec fn room_at(self, turfs: LayeredTurfs, from: LayeredNode) -> bool {
        self.seen(turfs, from) matches Ok(Some(source)) ==> {
            &&& steps_fit(source, from.coord(), self.start.coord(), self.max_range > 0)
            &&& self.vertical_fits(source, from, UP)
            &&& self.vertical_fits(source, from, DOWN)
            &&& self.max_range > 0 ==> self.link_ends_fit(from)
        }
    }

    /// Whether a change of layer stays within the 16-bit layers, and a node that is looked at can
    /// be compared with the start where that matters. Only a flying mover looks, and only through
    /// an open edge.
    pub open spec fn vertical_fits(self, source: TurfInfo, from: LayeredNode, dir: i32) -> bool {
        self.is_flying && source.opens_vertically(dir) ==> {
            &&& i16::MIN <= next_layer(from.layer, dir) <= i16::MAX
            &&& self.max_range > 0 ==> comparable(from.coord(), self.start.coord())
        }
    }

    /// Whether the ends of all links that leave from a node can be compared with the start.
    pub open spec fn link_ends_fit(self, from: LayeredNode) -> bool {
        forall|i: int|
            0 <= i < self.links_at(from).len() ==> self.comparable_end(
                #[trigger] self.links_at(from)[i],
            )
    }

    /// Whether the node that a link leads to can be compared with the start.
    pub open spec fn comparable_end(self, link: NavLink) -> bool {
        self.topology.node(link.destination) matches Some(to) ==> comparable(
            to.coord(),
            self.start.coord(),
        )
    }

    /// Resolves a layered node to its z-level.
    pub fn z_for(&self, node: LayeredNode) -> (z: Option<i16>)
        ensures
            z == self.topology.z_of(node),
    {
        match self.topology.layer_to_z.get((node.group, node.layer)) {
            Some(z) => Some(*z),
            None => None,
        }
    }

    /// Looks up one layered turf among those found so far.
    ///
    /// A search uses one consistent view of each turf, even if it yields and resumes: what has
    /// been looked up once is never looked up again.
    pub fn lookup(&self, node: LayeredNode) -> (info: Result<Option<TurfInfo>, Request>)
        ensures
            info == self.seen(self.cache@, node),
    {
        match self.cache.get(node) {
            Some(hit) => Ok(*hit),
            None => Err(Request::Turf(node)),
        }
    }

    /// What is settled about a node without locating its turf: where its layer has no z-level
    /// there is no turf, and otherwise what the published values settle.
    pub open spec fn settled(self, published: NavPassCache, node: LayeredNode) -> Option<
        Option<TurfInfo>,
    > {
        match self.topology.z_of(node) {
            Some(z) => match published_info(
                published,
                (node.x, node.y, z),
                self.is_flying,
                true,
            ) {
                Some(info) => Some(Some(info)),
                None => None,
            },
            None => Some(None),
        }
    }

    /// Finds out about a node without locating its turf, where that can be done.
    pub fn cached_info(&self, published: &NavPassCache, node: LayeredNode) -> (info: Option<
        Option<TurfInfo>,
    >)
        ensures
            info == self.settled(*published, node),
    {
        match self.z_for(node) {
            Some(z) => match cached_turf_info(
                published,
                (node.x, node.y, z),
                self.is_flying,
                true,
            ) {
                Some(info) => Some(Some(info)),
                None => None,
            },
            None => Some(None),
        }
    }

    /// Keeps what was found at a node; what was known before stays as it is.
    pub fn remember(&mut self, node: LayeredNode, info: Option<TurfInfo>)
        ensures
            final(self).same_rules(*old(self)),
            final(self).cache@ == if old(self).cache@.contains_key(node) {
                old(self).cache@
            } else {
                old(self).cache@.insert(node, info)
            },
    {
        if self.cache.get(node).is_none() {
            self.cache.insert(node, info);
        }
    }

    /// Returns node data when the node is occupiable.
    pub fn occupiable_info(&self, node: LayeredNode) -> (info: Result<Option<TurfInfo>, Request>)
        requires
            self.max_range > 0 ==> comparable(node.coord(), self.start.coord()),
        ensures
            info == self.occupiable(self.cache@, node),
    {
        if self.max_range > 0 && chebyshev_distance(
            (node.x, node.y),
            (self.start.x, self.start.y),
        ) > self.max_range {
            return Ok(None);
        }
        if let Some(avoid) = self.avoid {
            if avoid == node {
                return Ok(None);
            }
        }
        match self.lookup(node) {
            Ok(Some(info)) => if turf_allowed(self.simulated_only, info.simulated) {
                Ok(Some(info))
            } else {
                Ok(None)
            },
            Ok(None) => Ok(None),
            Err(missing) => Err(missing),
        }
    }

    /// Checks whether a layered node can be occupied.
    pub fn can_occupy(&self, node: LayeredNode) -> (ok: Result<bool, Request>)
        requires
            self.max_range > 0 ==> comparable(node.coord(), self.start.coord()),
        ensures
            ok == (match self.occupiable(self.cache@, node) {
                Ok(info) => Ok(info is Some),
                Err(missing) => Err(missing),
            }),
    {
        match self.occupiable_info(node) {
            Ok(info) => Ok(info.is_some()),
            Err(missing) => Err(missing),
        }
    }

    /// The links that leave from a node, if there are any.
    fn links_from(&self, from: LayeredNode) -> (links: Option<&Vec<NavLink>>)
        ensures
            match links {
                Some(links) => links@ == self.links_at(from),
                None => self.links_at(from).len() == 0,
            },
    {
        match self.z_for(from) {
            Some(z) => self.links_by_source.get((from.x, from.y, z)),
            None => None,
        }
    }

    /// Tests whether the ends of all links that leave from a node can be compared with the start.
    fn do_link_ends_fit(&self, from: LayeredNode) -> (ok: bool)
        ensures
            ok == self.link_ends_fit(from),
    {
        let links: &Vec<NavLink> = match self.links_from(from) {
            Some(links) => links,
            None => {
                return true;
            },
        };
        let start = (self.start.x, self.start.y);
        let mut at: usize = 0;
        while at < links.len()
            invariant
                at <= links@.len(),
                links@ == self.links_at(from),
                start == self.start.coord(),
                forall|i: int|
                    0 <= i < at ==> self.comparable_end(#[trigger] self.links_at(from)[i]),
            decreases links@.len() - at,
        {
            let to = links[at].destination;
            assert(links@[at as int] == self.links_at(from)[at as int]);
            if let Some(node) = node_for_xyz(&self.topology, to.0, to.1, to.2) {
                if !are_comparable((node.x, node.y), start) {
                    assert(!self.comparable_end(self.links_at(from)[at as int]));
                    return false;
                }
            }
            assert(self.comparable_end(self.links_at(from)[at as int]));
            at = at + 1;
        }
        true
    }

    /// Tests whether a change of layer in one vertical direction stays within range.
    fn does_vertical_fit(&self, source: TurfInfo, from: LayeredNode, dir: i32) -> (ok: bool)
        requires
            dir == UP || dir == DOWN,
        ensures
            ok == self.vertical_fits(source, from, dir),
    {
        if !self.is_flying || (source.open_edges >> VERTICAL_SHIFT) & dir == 0 {
            return true;
        }
        let last: i16 = if dir == UP { i16::MAX } else { i16::MIN };
        from.layer != last && (self.max_range <= 0 || are_comparable(
            (from.x, from.y),
            (self.start.x, self.start.y),
        ))
    }

    /// Tests whether the numbers computed for the successors of a node stay within their machine
    /// range.
    pub fn has_room_at(&self, from: LayeredNode) -> (ok: bool)
        ensures
            ok == self.room_at(self.cache@, from),
    {
        match self.lookup(from) {
            Ok(Some(source)) => {
                let ranged: bool = self.max_range > 0;
                do_steps_fit(source, (from.x, from.y), (self.start.x, self.start.y), ranged)
                    && self.does_vertical_fit(source, from, UP) && self.does_vertical_fit(
                    source,
                    from,
                    DOWN,
                ) && (!ranged || self.do_link_ends_fit(from))
            },
            _ => true,
        }
    }

    /// Checks whether one can go on from a corner.
    fn corner(&self, first_open: bool, corner: LayeredNode, dir: i32) -> (ok: Result<bool, Request>)
        requires
            first_open && self.max_range > 0 ==> comparable(corner.coord(), self.start.coord()),
        ensures
            ok == self.corner_open(self.cache@, first_open, corner, dir),
    {
        if !first_open {
            return Ok(false);
        }
        match self.occupiable_info(corner) {
            Ok(Some(info)) => Ok(info.open_edges & dir != 0),
            Ok(None) => Ok(false),
            Err(missing) => Err(missing),
        }
    }

    /// Evaluates both cardinal routes around a diagonal.
    pub fn diagonal_routes(&self, from: LayeredNode, to: LayeredNode) -> (routes: Result<
        DiagonalRoutes,
        Request,
    >)
        requires
            self.seen(self.cache@, from) matches Ok(Some(source)) ==> self.routes_fit(
                self.cache@,
                source,
                from,
                to,
            ),
        ensures
            routes == self.routes(self.cache@, from, to),
    {
        let none = DiagonalRoutes { north_south_first: false, east_west_first: false };
        let source = match self.lookup(from) {
            Err(missing) => {
                return Err(missing);
            },
            Ok(None) => {
                return Ok(none);
            },
            Ok(Some(source)) => source,
        };
        let ns: i32 = if to.y > from.y { NORTH } else { SOUTH };
        let ew: i32 = if to.x > from.x { EAST } else { WEST };
        let ns_open: bool = source.open_edges & ns != 0;
        let ew_open: bool = source.open_edges & ew != 0;
        if !ns_open && !ew_open {
            return Ok(none);
        }
        match self.occupiable_info(to) {
            Err(missing) => {
                return Err(missing);
            },
            Ok(None) => {
                return Ok(none);
            },
            Ok(Some(_)) => {},
        }
        let ns_node = LayeredNode { x: from.x, y: to.y, ..from };
        let ew_node = LayeredNode { x: to.x, y: from.y, ..from };
        let north_south_first: bool = match self.corner(ns_open, ns_node, ew) {
            Err(missing) => {
                return Err(missing);
            },
            Ok(first) => first,
        };
        match self.corner(ew_open, ew_node, ns) {
            Err(missing) => Err(missing),
            Ok(east_west_first) => Ok(DiagonalRoutes { north_south_first, east_west_first }),
        }
    }

    /// Adds the walkable steps to a list of successors.
    fn add_steps(&self, source: TurfInfo, from: LayeredNode, out: &mut Vec<Successor>) -> (done:
        Result<(), Request>)
        requires
            self.seen(self.cache@, from) == Ok::<Option<TurfInfo>, Request>(Some(source)),
            steps_fit(source, from.coord(), self.start.coord(), self.max_range > 0),
        ensures
            match self.steps_upto(self.cache@, source, from, STEP_COUNT as nat) {
                Ok(list) => done is Ok && final(out)@ == old(out)@ + list,
                Err(missing) => done == Err::<(), Request>(missing),
            },
    {
        let ghost before = out@;
        let ghost mut list = Seq::<Successor>::empty();
        assert(out@ =~= before + list);
        let mut k: usize = 0;
        while k < STEP_COUNT
            invariant
                k <= STEP_COUNT,
                self.seen(self.cache@, from) == Ok::<Option<TurfInfo>, Request>(Some(source)),
                steps_fit(source, from.coord(), self.start.coord(), self.max_range > 0),
                self.steps_upto(self.cache@, source, from, k as nat) == Ok::<
                    Seq<Successor>,
                    Request,
                >(list),
                before == old(out)@,
                out@ == before + list,
            decreases STEP_COUNT - k,
        {
            let s = step_at(k);
            let to = LayeredNode { x: from.x + s.dx, y: from.y + s.dy, ..from };
            assert(to == step_node(from, k as int) && on_grid(from.coord(), k as int));
            proof {
                let anchor = self.start.coord();
                assert(leads_on(source, from.coord(), k as int) && self.max_range > 0
                    ==> comparable(to.coord(), anchor));
                if self.max_range > 0 && k >= 4 {
                    lemma_corners_fit(source, from.coord(), anchor, k as int);
                }
                lemma_failed_step_persists(*self, self.cache@, source, from, (k + 1) as nat);
            }
            let walkable: bool = if s.dx == 0 || s.dy == 0 {
                if source.open_edges & s.dir != 0 {
                    match self.can_occupy(to) {
                        Ok(ok) => ok,
                        Err(missing) => {
                            return Err(missing);
                        },
                    }
                } else {
                    false
                }
            } else {
                match self.diagonal_routes(from, to) {
                    Ok(routes) => routes.north_south_first || routes.east_west_first,
                    Err(missing) => {
                        return Err(missing);
                    },
                }
            };
            if walkable {
                out.push((to, s.cost, LayeredAction::Plain));
                proof {
                    let item = (to, s.cost, LayeredAction::Plain);
                    assert(out@ =~= before + list.push(item));
                    list = list.push(item);
                }
            }
            k = k + 1;
        }
        Ok(())
    }

    /// Adds the change of layer in one vertical direction to a list of successors.
    fn add_vertical(
        &self,
        source: TurfInfo,
        from: LayeredNode,
        dir: i32,
        out: &mut Vec<Successor>,
    ) -> (done: Result<(), Request>)
        requires
            self.vertical_fits(source, from, dir),
            self.is_flying,
            dir == UP || dir == DOWN,
        ensures
            match self.vertical(self.cache@, source, from, dir) {
                Ok(list) => done is Ok && final(out)@ == old(out)@ + list,
                Err(missing) => done == Err::<(), Request>(missing),
            },
    {
        let ghost before = out@;
        assert(before + Seq::<Successor>::empty() =~= before);
        if (source.open_edges >> VERTICAL_SHIFT) & dir == 0 {
            return Ok(());
        }
        let layer: i16 = if dir == UP { from.layer + 1 } else { from.layer - 1 };
        let to = LayeredNode { layer, ..from };
        match self.can_occupy(to) {
            Ok(true) => {
                out.push((to, STRAIGHT_COST, LayeredAction::Vertical(dir)));
                assert(out@ =~= before + seq![(to, STRAIGHT_COST, LayeredAction::Vertical(dir))]);
                Ok(())
            },
            Ok(false) => Ok(()),
            Err(missing) => Err(missing),
        }
    }

    /// Adds the links that can be taken to a list of successors.
    fn add_links(&self, from: LayeredNode, replies: &Vec<bool>, out: &mut Vec<Successor>) -> (done:
        Result<(), Request>)
        requires
            self.max_range > 0 ==> self.link_ends_fit(from),
        ensures
            match self.links_upto(
                self.cache@,
                replies@,
                self.links_at(from),
                self.links_at(from).len(),
            ) {
                Ok((list, _)) => done is Ok && final(out)@ == old(out)@ + list,
                Err(missing) => done == Err::<(), Request>(missing),
            },
    {
        let ghost before = out@;
        let ghost mut list = Seq::<Successor>::empty();
        assert(out@ =~= before + list);
        let links: &Vec<NavLink> = match self.links_from(from) {
            Some(links) => links,
            None => {
                return Ok(());
            },
        };
        let mut asked: usize = 0;
        let mut at: usize = 0;
        while at < links.len()
            invariant
                at <= links@.len(),
                asked <= at,
                links@ == self.links_at(from),
                self.max_range > 0 ==> self.link_ends_fit(from),
                self.links_upto(self.cache@, replies@, links@, at as nat) == Ok::<
                    (Seq<Successor>, nat),
                    Request,
                >((list, asked as nat)),
                before == old(out)@,
                out@ == before + list,
            decreases links@.len() - at,
        {
            let link = links[at];
            proof {
                lemma_failed_link_persists(
                    *self,
                    self.cache@,
                    replies@,
                    links@,
                    (at + 1) as nat,
                );
            }
            if let Some(to) = node_for_xyz(
                &self.topology,
                link.destination.0,
                link.destination.1,
                link.destination.2,
            ) {
                assert(self.max_range > 0 ==> self.comparable_end(self.links_at(from)[at as int]));
                match self.can_occupy(to) {
                    Err(missing) => {
                        return Err(missing);
                    },
                    Ok(false) => {},
                    Ok(true) => {
                        if asked >= replies.len() {
                            return Err(Request::Link(link.id));
                        }
                        if replies[asked] {
                            out.push((to, link.cost, LayeredAction::Link(link.id)));
                            proof {
                                let item = (to, link.cost, LayeredAction::Link(link.id));
                                assert(out@ =~= before + list.push(item));
                                list = list.push(item);
                            }
                        }
                        asked = asked + 1;
                    },
                }
            }
            at = at + 1;
        }
        Ok(())
    }

    /// Returns horizontal, vertical, and linked successors, or what has to be found out first.
    ///
    /// `replies` holds the answers to the questions about links in the order in which they were
    /// asked for this node.
    pub fn successors(&self, from: LayeredNode, replies: &Vec<bool>) -> (out: Result<
        Vec<Successor>,
        Request,
    >)
        requires
            self.room_at(self.cache@, from),
        ensures
            match out {
                Ok(list) => self.successors_of(self.cache@, replies@, from) == Ok::<
                    Seq<Successor>,
                    Request,
                >(list@),
                Err(missing) => self.successors_of(self.cache@, replies@, from) == Err::<
                    Seq<Successor>,
                    Request,
                >(missing),
            },
    {
        let mut out: Vec<Successor> = Vec::new();
        let source = match self.lookup(from) {
            Err(missing) => {
                return Err(missing);
            },
            Ok(None) => {
                assert(out@ =~= Seq::empty());
                return Ok(out);
            },
            Ok(Some(source)) => source,
        };
        if let Err(missing) = self.add_steps(source, from, &mut out) {
            return Err(missing);
        }
        let ghost steps = out@;
        proof {
            let list = self.steps_upto(self.cache@, source, from, STEP_COUNT as nat)->Ok_0;
            assert(Seq::<Successor>::empty() + list =~= list);
        }
        if self.is_flying {
            if let Err(missing) = self.add_vertical(source, from, UP, &mut out) {
                return Err(missing);
            }
            if let Err(missing) = self.add_vertical(source, from, DOWN, &mut out) {
                return Err(missing);
            }
        }
        proof {
            let list = self.verticals(self.cache@, source, from)->Ok_0;
            assert(out@ =~= steps + list);
        }
        if let Err(missing) = self.add_links(from, replies, &mut out) {
            return Err(missing);
        }
        Ok(out)
    }
}

/// Where the first `count` steps leave a turf to be looked up, so do all of them.
proof fn lemma_failed_step_persists(
    grid: LayeredGrid,
    turfs: LayeredTurfs,
    source: TurfInfo,
    from: LayeredNode,
    count: nat,
)
    requires
        count <= STEP_COUNT,
    ensures
        grid.steps_upto(turfs, source, from, count) matches Err(missing) ==> grid.steps_upto(
            turfs,
            source,
            from,
            STEP_COUNT as nat,
        ) == Err::<Seq<Successor>, Request>(missing),
    decreases STEP_COUNT - count,
{
    if count < STEP_COUNT {
        lemma_failed_step_persists(grid, turfs, source, from, count + 1);
    }
}

/// Where the first `count` links leave something to be found out, so do all of them.
proof fn lemma_failed_link_persists(
    grid: LayeredGrid,
    turfs: LayeredTurfs,
    replies: Seq<bool>,
    links: Seq<NavLink>,
    count: nat,
)
    requires
        count <= links.len(),
    ensures
        grid.links_upto(turfs, replies, links, count) matches Err(missing) ==> grid.links_upto(
            turfs,
            replies,
            links,
            links.len(),
        ) == Err::<(Seq<Successor>, nat), Request>(missing),
    decreases links.len() - count,
{
    if count < links.len() {
        lemma_failed_link_persists(grid, turfs, replies, links, count + 1);
    }
}

proof fn lemma_more_turfs_occupiable(
    grid: LayeredGrid,
    known: LayeredTurfs,
    world: LayeredTurfs,
    node: LayeredNode,
)
    requires
        known.submap_of(world),
    ensures
        grid.occupiable(known, node) is Ok ==> grid.occupiable(world, node) == grid.occupiable(
            known,
            node,
        ),
        grid.seen(known, node) is Ok ==> grid.seen(world, node) == grid.seen(known, node),
{
    assert(known.contains_key(node) ==> world.contains_key(node) && known[node] == world[node]);
}

proof fn lemma_more_turfs_steps(
    grid: LayeredGrid,
    known: LayeredTurfs,
    world: LayeredTurfs,
    source: TurfInfo,
    from: LayeredNode,
    count: nat,
)
    requires
        known.submap_of(world),
        grid.steps_upto(known, source, from, count) is Ok,
    ensures
        grid.steps_upto(world, source, from, count) == grid.steps_upto(known, source, from, count),
    decreases count,
{
    if count > 0 {
        lemma_more_turfs_steps(grid, known, world, source, from, (count - 1) as nat);
        let to = step_node(from, count - 1);
        lemma_more_turfs_occupiable(grid, known, world, from);
        lemma_more_turfs_occupiable(grid, known, world, to);
        lemma_more_turfs_occupiable(grid, known, world, beside(from, from.x, to.y));
        lemma_more_turfs_occupiable(grid, known, world, beside(from, to.x, from.y));
    }
}

proof fn lemma_more_turfs_links(
    grid: LayeredGrid,
    known: LayeredTurfs,
    world: LayeredTurfs,
    replies: Seq<bool>,
    links: Seq<NavLink>,
    count: nat,
)
    requires
        known.submap_of(world),
        grid.links_upto(known, replies, links, count) is Ok,
    ensures
        grid.links_upto(world, replies, links, count) == grid.links_upto(
            known,
            replies,
            links,
            count,
        ),
    decreases count,
{
    if count > 0 {
        lemma_more_turfs_links(grid, known, world, replies, links, (count - 1) as nat);
        if let Some(to) = grid.topology.node(links[count - 1].destination) {
            lemma_more_turfs_occupiable(grid, known, world, to);
        }
    }
}

/// Looking up more turfs never changes where one can go from a node once that is settled.
pub proof fn law_more_turfs_keep_layered_successors(
    grid: LayeredGrid,
    known: LayeredTurfs,
    world: LayeredTurfs,
    replies: Seq<bool>,
    from: LayeredNode,
)
    requires
        known.submap_of(world),
        grid.successors_of(known, replies, from) is Ok,
    ensures
        grid.successors_of(world, replies, from) == grid.successors_of(known, replies, from),
{
    lemma_more_turfs_occupiable(grid, known, world, from);
    if let Ok(Some(source)) = grid.seen(known, from) {
        lemma_more_turfs_steps(grid, known, world, source, from, STEP_COUNT as nat);
        let up = LayeredNode { layer: next_layer(from.layer, UP) as i16, ..from };
        let down = LayeredNode { layer: next_layer(from.layer, DOWN) as i16, ..from };
        lemma_more_turfs_occupiable(grid, known, world, up);
        lemma_more_turfs_occupiable(grid, known, world, down);
        let links = grid.links_at(from);
        lemma_more_turfs_links(grid, known, world, replies, links, links.len());
    }
}

/// Grids whose rules say the same give the same successors.
pub proof fn lemma_equivalent_layered_successors(
    a: LayeredGrid,
    b: LayeredGrid,
    turfs: LayeredTurfs,
    replies: Seq<bool>,
    from: LayeredNode,
)
    requires
        a.equivalent(b),
    ensures
        a.successors_of(turfs, replies, from) == b.successors_of(turfs, replies, from),
        a.occupiable(turfs, from) == b.occupiable(turfs, from),
{
    assert forall|n: LayeredNode| a.occupiable(turfs, n) == b.occupiable(turfs, n) by {}
    if let Some(z) = a.topology.z_of(from) {
        let source = (from.x, from.y, z);
        assert(indexed_at(a.links_by_source@, source) == indexed_at(b.links_by_source@, source));
    }
    if let Ok(Some(source)) = a.seen(turfs, from) {
        lemma_equivalent_steps(a, b, turfs, source, from, STEP_COUNT as nat);
        let links = a.links_at(from);
        lemma_equivalent_links(a, b, turfs, replies, links, links.len());
    }
}

proof fn lemma_equivalent_steps(
    a: LayeredGrid,
    b: LayeredGrid,
    turfs: LayeredTurfs,
    source: TurfInfo,
    from: LayeredNode,
    count: nat,
)
    requires
        a.equivalent(b),
    ensures
        a.steps_upto(turfs, source, from, count) == b.steps_upto(turfs, source, from, count),
    decreases count,
{
    if count > 0 {
        lemma_equivalent_steps(a, b, turfs, source, from, (count - 1) as nat);
    }
}

proof fn lemma_equivalent_links(
    a: LayeredGrid,
    b: LayeredGrid,
    turfs: LayeredTurfs,
    replies: Seq<bool>,
    links: Seq<NavLink>,
    count: nat,
)
    requires
        a.equivalent(b),
    ensures
        a.links_upto(turfs, replies, links, count) == b.links_upto(turfs, replies, links, count),
    decreases count,
{
    if count > 0 {
        lemma_equivalent_links(a, b, turfs, replies, links, (count - 1) as nat);
    }
}

proof fn lemma_steps_are_steps(
    grid: LayeredGrid,
    turfs: LayeredTurfs,
    source: TurfInfo,
    from: LayeredNode,
    count: nat,
)
    requires
        count <= STEP_COUNT,
    ensures
        match grid.steps_upto(turfs, source, from, count) {
            Ok(out) => out.len() <= count && forall|i: int|
                0 <= i < out.len() ==> is_step(from, #[trigger] out[i]) && grid.can_stand(
                    turfs,
                    out[i].0,
                ),
            Err(Request::Turf(missing)) => !turfs.contains_key(missing),
            Err(Request::Link(_)) => false,
        },
    decreases count,
{
    if count > 0 {
        lemma_steps_are_steps(grid, turfs, source, from, (count - 1) as nat);
        let k = count - 1;
        if let Ok(true) = grid.walkable(turfs, source, from, k) {
            let to = step_node(from, k);
            assert(to.coord().0 == from.coord().0 + step(k).dx && to.coord().1 == from.coord().1
                + step(k).dy && step(k).cost as int == step(k).cost);
            assert(is_step(from, (to, step(k).cost, LayeredAction::Plain)));
        }
    }
}

proof fn lemma_links_are_links(
    grid: LayeredGrid,
    turfs: LayeredTurfs,
    replies: Seq<bool>,
    links: Seq<NavLink>,
    count: nat,
)
    requires
        count <= links.len(),
    ensures
        match grid.links_upto(turfs, replies, links, count) {
            Ok((out, asked)) => asked <= count && out.len() <= count && forall|i: int|
                0 <= i < out.len() ==> is_link_among(grid, links, #[trigger] out[i])
                    && grid.can_stand(turfs, out[i].0),
            Err(Request::Turf(missing)) => !turfs.contains_key(missing),
            Err(Request::Link(_)) => true,
        },
    decreases count,
{
    if count > 0 {
        lemma_links_are_links(grid, turfs, replies, links, (count - 1) as nat);
        let link = links[count - 1];
        if let Some(to) = grid.topology.node(link.destination) {
            let item = (to, link.cost, LayeredAction::Link(link.id));
            assert(is_link_of(grid, links[count - 1], item));
            assert(is_link_among(grid, links, item));
        }
    }
}

/// Whether a successor is one of the eight steps away on the same level.
pub open spec fn is_step(from: LayeredNode, item: Successor) -> bool {
    &&& item.0.group == from.group
    &&& item.0.layer == from.layer
    &&& one_step(from.coord(), item.0.coord(), item.1 as int)
    &&& item.2 == LayeredAction::Plain
}

/// Whether a successor is a change of layer.
pub open spec fn is_vertical(from: LayeredNode, item: Successor) -> bool {
    &&& item.0.group == from.group
    &&& item.0.coord() == from.coord()
    &&& item.1 == STRAIGHT_COST
    &&& {
        ||| item.0.layer == from.layer + 1 && item.2 == LayeredAction::Vertical(UP)
        ||| item.0.layer == from.layer - 1 && item.2 == LayeredAction::Vertical(DOWN)
    }
}

/// Whether a successor is the other end of a link.
pub open spec fn is_link_of(grid: LayeredGrid, link: NavLink, item: Successor) -> bool {
    &&& grid.topology.node(link.destination) == Some(item.0)
    &&& item.1 == link.cost
    &&& item.2 == LayeredAction::Link(link.id)
}

/// Whether a successor is the other end of one of some links.
pub open spec fn is_link_among(grid: LayeredGrid, links: Seq<NavLink>, item: Successor) -> bool {
    exists|i: int| 0 <= i < links.len() && is_link_of(grid, #[trigger] links[i], item)
}

impl LayeredGrid {
    /// Whether a successor is a step, a change of layer by a flying mover, or the other end of a
    /// link that leaves from the node.
    pub open spec fn is_move(self, from: LayeredNode, item: Successor) -> bool {
        ||| is_step(from, item)
        ||| self.is_flying && is_vertical(from, item)
        ||| is_link_among(self, self.links_at(from), item)
    }

    /// Whether some move could lead from one node to another at a cost.
    pub open spec fn may_move(self, from: LayeredNode, to: LayeredNode, cost: nat) -> bool {
        exists|item: Successor| #[trigger]
            self.is_move(from, item) && item.0 == to && item.1 == cost
    }

    /// The graph of all moves that could be.
    pub open spec fn moves(self) -> Edges<LayeredNode> {
        |from: LayeredNode, to: LayeredNode, cost: nat| self.may_move(from, to, cost)
    }
}

/// Every successor of a node is a step, a change of layer by a flying mover, or the other end of a
/// link that leaves from the node, and a mover may stand on it.
pub proof fn law_successors_are_moves(
    grid: LayeredGrid,
    turfs: LayeredTurfs,
    replies: Seq<bool>,
    from: LayeredNode,
    index: int,
)
    requires
        grid.successors_of(turfs, replies, from) matches Ok(out) && 0 <= index < out.len(),
    ensures
        grid.is_move(from, grid.successors_of(turfs, replies, from)->Ok_0[index]),
        grid.can_stand(turfs, grid.successors_of(turfs, replies, from)->Ok_0[index].0),
{
    if let Ok(Some(source)) = grid.seen(turfs, from) {
        lemma_steps_are_steps(grid, turfs, source, from, STEP_COUNT as nat);
        let links = grid.links_at(from);
        lemma_links_are_links(grid, turfs, replies, links, links.len());
        let steps = grid.steps_upto(turfs, source, from, STEP_COUNT as nat)->Ok_0;
        let verticals = grid.verticals(turfs, source, from)->Ok_0;
        let others = grid.links_upto(turfs, replies, links, links.len())->Ok_0.0;
        let out = grid.successors_of(turfs, replies, from)->Ok_0;
        if index < steps.len() {
            assert(out[index] == steps[index]);
        } else if index < steps.len() + verticals.len() {
            assert(out[index] == verticals[index - steps.len()]);
        } else {
            assert(out[index] == others[index - steps.len() - verticals.len()]);
        }
    }
}

/// Whatever a mover can go to can be compared with the start, where that matters and the node it
/// comes from has room.
pub proof fn lemma_layered_successors_fit(
    grid: LayeredGrid,
    turfs: LayeredTurfs,
    replies: Seq<bool>,
    from: LayeredNode,
    index: int,
)
    requires
        grid.room_at(turfs, from),
        grid.max_range > 0,
        grid.successors_of(turfs, replies, from) matches Ok(out) && 0 <= index < out.len(),
    ensures
        comparable(
            grid.successors_of(turfs, replies, from)->Ok_0[index].0.coord(),
            grid.start.coord(),
        ),
{
    if let Ok(Some(source)) = grid.seen(turfs, from) {
        lemma_steps_lead_on(grid, turfs, source, from, STEP_COUNT as nat);
        let links = grid.links_at(from);
        lemma_links_are_links(grid, turfs, replies, links, links.len());
        let steps = grid.steps_upto(turfs, source, from, STEP_COUNT as nat)->Ok_0;
        let verticals = grid.verticals(turfs, source, from)->Ok_0;
        let (others, asked) = grid.links_upto(turfs, replies, links, links.len())->Ok_0;
        let out = grid.successors_of(turfs, replies, from)->Ok_0;
        if index < steps.len() {
            assert(out[index] == steps[index]);
        } else if index < steps.len() + verticals.len() {
            assert(out[index] == verticals[index - steps.len()]);
        } else {
            let item = others[index - steps.len() - verticals.len()];
            assert(out[index] == item);
            assert(is_link_among(grid, links, item));
            let i = choose|i: int| 0 <= i < links.len() && is_link_of(grid, #[trigger] links[i], item);
            assert(grid.comparable_end(grid.links_at(from)[i]));
        }
    }
}

proof fn lemma_steps_lead_on(
    grid: LayeredGrid,
    turfs: LayeredTurfs,
    source: TurfInfo,
    from: LayeredNode,
    count: nat,
)
    requires
        count <= STEP_COUNT,
        grid.seen(turfs, from) == Ok::<Option<TurfInfo>, Request>(Some(source)),
        steps_fit(source, from.coord(), grid.start.coord(), true),
    ensures
        grid.steps_upto(turfs, source, from, count) matches Ok(out) ==> forall|i: int|
            0 <= i < out.len() ==> comparable((#[trigger] out[i]).0.coord(), grid.start.coord()),
    decreases count,
{
    if count > 0 {
        lemma_steps_lead_on(grid, turfs, source, from, (count - 1) as nat);
        let k = count - 1;
        if let Ok(true) = grid.walkable(turfs, source, from, k) {
            assert(leads_on(source, from.coord(), k));
            assert(step_node(from, k).coord() == neighbor(from.coord(), k));
        }
    }
}

/// A node has at most ten successors besides those by a link, and whatever turf a look from it
/// asks for is not known.
pub proof fn lemma_layered_successors_bounds(
    grid: LayeredGrid,
    turfs: LayeredTurfs,
    replies: Seq<bool>,
    from: LayeredNode,
)
    ensures
        match grid.successors_of(turfs, replies, from) {
            Ok(out) => out.len() <= STEP_COUNT + 2 + grid.links_at(from).len(),
            Err(Request::Turf(missing)) => !turfs.contains_key(missing),
            Err(Request::Link(_)) => true,
        },
{
    if let Ok(Some(source)) = grid.seen(turfs, from) {
        lemma_steps_are_steps(grid, turfs, source, from, STEP_COUNT as nat);
        let links = grid.links_at(from);
        lemma_links_are_links(grid, turfs, replies, links, links.len());
    }
}

/// A diagonal is legal exactly when at least one of the two cardinal routes through its corners
/// is legal.
pub proof fn law_layered_diagonal_needs_a_cardinal_route(
    grid: LayeredGrid,
    turfs: LayeredTurfs,
    from: LayeredNode,
    to: LayeredNode,
)
    requires
        grid.seen(turfs, from) matches Ok(Some(_)),
        grid.occupiable(turfs, to) is Ok,
        grid.occupiable(turfs, beside(from, from.x, to.y)) is Ok,
        grid.occupiable(turfs, beside(from, to.x, from.y)) is Ok,
    ensures
        grid.routes(turfs, from, to) matches Ok(routes) && {
            let ns = north_south(from.coord(), to.coord());
            let ew = east_west(from.coord(), to.coord());
            &&& routes.north_south_first == layered_two_step_route(
                grid,
                turfs,
                from,
                beside(from, from.x, to.y),
                to,
                ns,
                ew,
            )
            &&& routes.east_west_first == layered_two_step_route(
                grid,
                turfs,
                from,
                beside(from, to.x, from.y),
                to,
                ew,
                ns,
            )
        },
{
}

/// Whether one can walk to a neighbour by way of a corner: first edge, corner, second edge and
/// destination all have to be in order.
pub open spec fn layered_two_step_route(
    grid: LayeredGrid,
    turfs: LayeredTurfs,
    from: LayeredNode,
    corner: LayeredNode,
    to: LayeredNode,
    first: i32,
    second: i32,
) -> bool {
    &&& grid.seen(turfs, from) matches Ok(Some(source)) && source.opens(first)
    &&& grid.occupiable(turfs, corner) matches Ok(Some(info)) && info.opens(second)
    &&& grid.occupiable(turfs, to) matches Ok(Some(_))
}

/// The links among the first `count` that leave from a turf.
pub open spec fn links_leaving(links: Seq<NavLink>, source: TurfCoords, count: nat) -> Seq<NavLink>
    decreases count,
{
    if count == 0 {
        Seq::empty()
    } else {
        let before = links_leaving(links, source, (count - 1) as nat);
        if links[count - 1].source == source {
            before.push(links[count - 1])
        } else {
            before
        }
    }
}

/// What an index holds for a turf.
pub open spec fn indexed_at(index: Map<TurfCoords, Vec<NavLink>>, source: TurfCoords) -> Seq<
    NavLink,
> {
    if index.contains_key(source) {
        index[source]@
    } else {
        Seq::empty()
    }
}

/// Whether an index holds the first `count` links under their source turfs, in order.
pub open spec fn indexes(
    index: Map<TurfCoords, Vec<NavLink>>,
    links: Seq<NavLink>,
    count: nat,
) -> bool {
    forall|source: TurfCoords| #[trigger]
        indexed_at(index, source) == links_leaving(links, source, count)
}

/// Indexes links by their source turf.
pub fn index_links(links: &[NavLink]) -> (index: PackedMap<TurfCoords, Vec<NavLink>>)
    ensures
        indexes(index@, links@, links@.len()),
{
    let mut index: PackedMap<TurfCoords, Vec<NavLink>> = PackedMap::new();
    let mut at: usize = 0;
    while at < links.len()
        invariant
            at <= links@.len(),
            indexes(index@, links@, at as nat),
        decreases links@.len() - at,
    {
        let link = links[at];
        let ghost before = index@;
        let mut list: Vec<NavLink> = match index.remove(link.source) {
            Some(list) => list,
            None => Vec::new(),
        };
        assert(list@ == indexed_at(before, link.source));
        list.push(link);
        index.insert(link.source, list);
        proof {
            assert forall|source: TurfCoords| #[trigger]
                indexed_at(index@, source) == links_leaving(links@, source, (at + 1) as nat) by {
                assert(indexed_at(before, source) == links_leaving(links@, source, at as nat));
            }
        }
        at = at + 1;
    }
    index
}

/// Each link that an index holds for a turf is one of the links and leaves from there.
pub proof fn lemma_leaving_links(links: Seq<NavLink>, source: TurfCoords, count: nat, index: int)
    requires
        count <= links.len(),
        0 <= index < links_leaving(links, source, count).len(),
    ensures
        links_leaving(links, source, count)[index].source == source,
        exists|i: int|
            0 <= i < count && #[trigger] links[i] == links_leaving(links, source, count)[index],
    decreases count,
{
    let before = links_leaving(links, source, (count - 1) as nat);
    if index < before.len() {
        lemma_leaving_links(links, source, (count - 1) as nat, index);
        let i = choose|i: int| 0 <= i < count - 1 && #[trigger] links[i] == before[index];
        assert(links[i] == links_leaving(links, source, count)[index]);
    } else {
        assert(links[count - 1] == links_leaving(links, source, count)[index]);
    }
}

impl LayeredAction {
    /// The number that stands for an action: the direction of a change of layer, the negated
    /// identifier of a link, nothing for a plain step.
    pub open spec fn code_of(self) -> Option<int> {
        match self {
            LayeredAction::Plain => None,
            LayeredAction::Vertical(dir) => Some(dir as int),
            LayeredAction::Link(id) => Some(-(id as int)),
        }
    }

    /// Encodes an action as a number.
    pub fn code(self) -> (code: Option<i128>)
        ensures
            match code {
                Some(number) => self.code_of() == Some(number as int),
                None => self.code_of() is None,
            },
    {
        match self {
            LayeredAction::Plain => None,
            LayeredAction::Vertical(dir) => Some(dir as i128),
            LayeredAction::Link(id) => Some(-(id as i128)),
        }
    }
}

impl LayeredGrid {
    /// The answers to the questions about the first `count` links where they go by the links'
    /// identifiers alone.
    pub open spec fn steady_replies(
        self,
        turfs: LayeredTurfs,
        may_plan: spec_fn(u64) -> bool,
        links: Seq<NavLink>,
        count: nat,
    ) -> Seq<bool>
        decreases count,
    {
        if count == 0 {
            Seq::empty()
        } else {
            let before = self.steady_replies(turfs, may_plan, links, (count - 1) as nat);
            match self.topology.node(links[count - 1].destination) {
                None => before,
                Some(to) => if self.occupiable(turfs, to) matches Ok(Some(_)) {
                    before.push(may_plan(links[count - 1].id))
                } else {
                    before
                },
            }
        }
    }

    /// Where a mover can go from a node if the questions about links are always answered alike.
    pub open spec fn steady_successors(
        self,
        turfs: LayeredTurfs,
        may_plan: spec_fn(u64) -> bool,
        from: LayeredNode,
    ) -> Result<Seq<Successor>, Request> {
        let links = self.links_at(from);
        self.successors_of(
            turfs,
            self.steady_replies(turfs, may_plan, links, links.len()),
            from,
        )
    }
}

/// A plain step has no number, a change of layer that of its direction, and a link that of its
/// identifier below zero.
pub proof fn law_actions_in_numbers(dir: i32, id: u64)
    ensures
        LayeredAction::Plain.code_of() is None,
        LayeredAction::Vertical(dir).code_of() == Some(dir as int),
        LayeredAction::Link(id).code_of() == Some(0 - id as int),
{
}

/// Without locating a turf it is settled that there is none exactly where the layer has no z-level,
/// and otherwise what the published value at the node's world position settles.
pub proof fn law_settled_without_locating(
    grid: LayeredGrid,
    published: NavPassCache,
    node: LayeredNode,
)
    ensures
        ({
            let levels = grid.topology.layer_to_z@;
            let place = (node.group, node.layer);
            if levels.contains_key(place) {
                grid.settled(published, node) == match published_info(
                    published,
                    (node.x, node.y, levels[place]),
                    grid.is_flying,
                    true,
                ) {
                    Some(info) => Some(Some(info)),
                    None => None,
                }
            } else {
                grid.settled(published, node) == Some(None::<TurfInfo>)
            }
        }),
{
}

} // verus!
