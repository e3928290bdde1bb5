//! Coordinates, distances and the lower bounds drawn from them.

use crate::directions::{step, DIAGONAL_COST, STEP_COUNT, STRAIGHT_COST};
use vstd::prelude::*;

verus! {

/// A two-dimensional turf position.
pub type Coord = (i16, i16);

/// A turf position including its z-level.
pub type TurfCoords = (i16, i16, i16);

/// A coordinate paired with its topology layer.
#[derive(Clone, Copy, Debug, PartialEq, Eq, Structural, Hash)]
pub struct LayeredNode {
    /// Connected z-level group identifier.
    pub group: i32,
    /// Layer within the connected group.
    pub layer: i16,
    /// Horizontal x coordinate.
    pub x: i16,
    /// Horizontal y coordinate.
    pub y: i16,
}

impl LayeredNode {
    /// The horizontal position.
    pub open spec fn coord(self) -> Coord {
        (self.x, self.y)
    }
}

/// Absolute value.
pub open spec fn magnitude(n: int) -> int {
    if n < 0 {
        -n
    } else {
        n
    }
}

/// The larger of two integers.
pub open spec fn larger(a: int, b: int) -> int {
    if a < b {
        b
    } else {
        a
    }
}

/// The smaller of two integers.
pub open spec fn smaller(a: int, b: int) -> int {
    if a < b {
        a
    } else {
        b
    }
}

/// Whether both axis differences of two positions are themselves 16-bit numbers.
pub open spec fn comparable(a: Coord, b: Coord) -> bool {
    &&& i16::MIN <= a.0 - b.0 <= i16::MAX
    &&& i16::MIN <= a.1 - b.1 <= i16::MAX
}

/// The larger of the two axis differences.
pub open spec fn chebyshev(a: Coord, b: Coord) -> int {
    larger(magnitude(a.0 - b.0), magnitude(a.1 - b.1))
}

/// Cheapest way to cover `dx` and `dy` squares with straight and diagonal steps.
pub open spec fn octile(dx: int, dy: int) -> int {
    DIAGONAL_COST * smaller(dx, dy) + STRAIGHT_COST * magnitude(dx - dy)
}

/// Octile cost from a position to the square of the given radius around a goal.
pub open spec fn octile_to_range(coord: Coord, goal: Coord, radius: int) -> int {
    octile(
        larger(magnitude(coord.0 - goal.0) - radius, 0),
        larger(magnitude(coord.1 - goal.1) - radius, 0),
    )
}

/// Returns the size of one axis difference.
fn axis_distance(a: i16, b: i16) -> (d: i32)
    requires
        i16::MIN <= a - b <= i16::MAX,
    ensures
        d == magnitude(a - b),
{
    let difference: i16 = a - b;
    if difference < 0 {
        -(difference as i32)
    } else {
        difference as i32
    }
}

/// Returns grid distance using the larger axis delta.
pub fn chebyshev_distance(a: Coord, b: Coord) -> (d: i32)
    requires
        comparable(a, b),
    ensures
        d == chebyshev(a, b),
{
    let dx: i32 = axis_distance(a.0, b.0);
    let dy: i32 = axis_distance(a.1, b.1);
    if dx < dy {
        dy
    } else {
        dx
    }
}

/// Returns the octile cost of covering what lies outside a radius.
fn octile_outside(x: i32, y: i32, radius: i32) -> (cost: u32)
    requires
        0 <= x <= 32768,
        0 <= y <= 32768,
        octile(larger(x - radius, 0), larger(y - radius, 0)) <= u32::MAX,
    ensures
        cost == octile(larger(x - radius, 0), larger(y - radius, 0)),
{
    let dx: u32 = if x > radius { (x - radius) as u32 } else { 0 };
    let dy: u32 = if y > radius { (y - radius) as u32 } else { 0 };
    if dx < dy {
        DIAGONAL_COST * dx + STRAIGHT_COST * (dy - dx)
    } else {
        DIAGONAL_COST * dy + STRAIGHT_COST * (dx - dy)
    }
}

/// Tests whether both axis differences of two positions are themselves 16-bit numbers.
pub fn are_comparable(a: Coord, b: Coord) -> (ok: bool)
    ensures
        ok == comparable(a, b),
{
    let dx: i32 = a.0 as i32 - b.0 as i32;
    let dy: i32 = a.1 as i32 - b.1 as i32;
    -0x8000 <= dx && dx <= 0x7fff && -0x8000 <= dy && dy <= 0x7fff
}

/// Tests whether an octile cost fits 32 bits.
pub fn octile_fits(a: Coord, b: Coord, radius: i32) -> (ok: bool)
    ensures
        ok == (octile_to_range(a, b, radius as int) <= u32::MAX),
{
    let dx: i64 = a.0 as i64 - b.0 as i64;
    let dy: i64 = a.1 as i64 - b.1 as i64;
    let x: i64 = (if dx < 0 { -dx } else { dx }) - radius as i64;
    let y: i64 = (if dy < 0 { -dy } else { dy }) - radius as i64;
    let x: i64 = if x < 0 { 0 } else { x };
    let y: i64 = if y < 0 { 0 } else { y };
    let cost: i64 = if x < y { 14 * x + 10 * (y - x) } else { 14 * y + 10 * (x - y) };
    cost <= 0xffff_ffff
}

/// Estimates remaining octile cost to the target radius.
pub fn heuristic_to_target_range(coord: Coord, goal: Coord, target_distance: i32) -> (cost: u32)
    requires
        comparable(coord, goal),
        octile_to_range(coord, goal, target_distance as int) <= u32::MAX,
    ensures
        cost == octile_to_range(coord, goal, target_distance as int),
{
    let x: i32 = axis_distance(coord.0, goal.0);
    let y: i32 = axis_distance(coord.1, goal.1);
    octile_outside(x, y, target_distance)
}

/// Whether a mover can get from one node to the other without taking a link.
pub open spec fn geometrically_connected(
    from: LayeredNode,
    to: LayeredNode,
    is_flying: bool,
) -> bool {
    from.group == to.group && (is_flying || from.layer == to.layer)
}

/// What a relaxed walk costs: obstacles are ignored, layers count as straight steps.
pub open spec fn relaxed_cost(
    from: LayeredNode,
    to: LayeredNode,
    radius: int,
    is_flying: bool,
) -> int {
    octile_to_range(from.coord(), to.coord(), radius) + if is_flying {
        STRAIGHT_COST * magnitude(from.layer - to.layer)
    } else {
        0
    }
}

/// Returns a relaxed lower-bound cost between layered nodes, or nothing where only a link leads
/// from one to the other.
pub fn relaxed_distance(
    from: LayeredNode,
    to: LayeredNode,
    target_distance: i32,
    is_flying: bool,
) -> (cost: Option<u32>)
    requires
        geometrically_connected(from, to, is_flying) ==> {
            &&& comparable(from.coord(), to.coord())
            &&& octile_to_range(from.coord(), to.coord(), target_distance as int) <= u32::MAX
        },
    ensures
        match cost {
            Some(c) => {
                &&& geometrically_connected(from, to, is_flying)
                &&& c == smaller(
                    relaxed_cost(from, to, target_distance as int, is_flying),
                    u32::MAX as int,
                )
            },
            None => !geometrically_connected(from, to, is_flying),
        },
{
    if from.group != to.group || (!is_flying && from.layer != to.layer) {
        return None;
    }
    let x: i32 = axis_distance(from.x, to.x);
    let y: i32 = axis_distance(from.y, to.y);
    let horizontal: u32 = octile_outside(x, y, target_distance);
    let vertical: u32 = if is_flying {
        let rise: i32 = from.layer as i32 - to.layer as i32;
        let layers: i32 = if rise < 0 { -rise } else { rise };
        layers as u32 * STRAIGHT_COST
    } else {
        0
    };
    Some(horizontal.saturating_add(vertical))
}

/// Whether a position lies in range of the start and is not the avoided one.
pub open spec fn allowed(coord: Coord, start: Coord, max_range: int, avoid: Option<Coord>) -> bool {
    (max_range <= 0 || chebyshev(coord, start) <= max_range) && avoid != Some(coord)
}

/// Checks range and avoidance constraints for a coordinate.
pub fn coordinate_allowed(
    coord: Coord,
    start: Coord,
    max_range: i32,
    avoid: Option<Coord>,
) -> (ok: bool)
    requires
        max_range > 0 ==> comparable(coord, start),
    ensures
        ok == allowed(coord, start, max_range as int, avoid),
{
    let in_range: bool = max_range <= 0 || chebyshev_distance(coord, start) <= max_range;
    let avoided: bool = match avoid {
        Some(turf) => turf.0 == coord.0 && turf.1 == coord.1,
        None => false,
    };
    in_range && !avoided
}

/// Checks whether a turf matches the simulated-only filter.
pub fn turf_allowed(simulated_only: bool, simulated: bool) -> (ok: bool)
    ensures
        ok == (simulated_only ==> simulated),
{
    !simulated_only || simulated
}

/// Whether `to` is one horizontal step away from `from`, at the given cost.
pub open spec fn one_step(from: Coord, to: Coord, cost: int) -> bool {
    exists|k: int|
        0 <= k < STEP_COUNT && to.0 == from.0 + #[trigger] step(k).dx && to.1 == from.1 + step(k).dy
            && cost == step(k).cost
}

/// A step leads somewhere else.
pub proof fn lemma_step_moves(from: Coord, to: Coord, cost: int)
    requires
        one_step(from, to, cost),
    ensures
        from != to,
        cost == STRAIGHT_COST || cost == DIAGONAL_COST,
        -1 <= to.0 - from.0 <= 1,
        -1 <= to.1 - from.1 <= 1,
{
}

/// The octile estimate is zero exactly inside the target radius.
pub proof fn law_estimate_is_zero_in_range(coord: Coord, goal: Coord, radius: int)
    ensures
        octile_to_range(coord, goal, radius) >= 0,
        octile_to_range(coord, goal, radius) == 0 <==> chebyshev(coord, goal) <= radius,
{
}

/// No step lowers the octile estimate by more than it costs, whatever the radius.
pub proof fn law_step_lowers_estimate_by_at_most_its_cost(
    from: Coord,
    to: Coord,
    cost: int,
    goal: Coord,
    radius: int,
)
    requires
        one_step(from, to, cost),
    ensures
        octile_to_range(from, goal, radius) <= cost + octile_to_range(to, goal, radius),
{
}

/// How far two numbers lie apart.
pub open spec fn apart(a: int, b: int) -> int {
    if a < b {
        b - a
    } else {
        a - b
    }
}

/// What is left of a distance outside a radius.
pub open spec fn outside(distance: int, radius: int) -> int {
    if distance > radius {
        distance - radius
    } else {
        0
    }
}

/// Ten for each straight step and fourteen for each diagonal one, on the shortest way over a number
/// of squares along either axis.
pub open spec fn fewest_steps_cost(dx: int, dy: int) -> int {
    if dx < dy {
        14 * dx + 10 * (dy - dx)
    } else {
        14 * dy + 10 * (dx - dy)
    }
}

/// The distance between two positions is how far they lie apart along the axis along which they lie
/// further apart. The estimate of what is left counts the squares outside the target radius, along
/// either axis; between layers it adds ten for each.
pub proof fn law_distances_in_numbers(
    a: Coord,
    b: Coord,
    radius: int,
    from: LayeredNode,
    to: LayeredNode,
    is_flying: bool,
)
    ensures
        chebyshev(a, b) == if apart(a.0 as int, b.0 as int) < apart(a.1 as int, b.1 as int) {
            apart(a.1 as int, b.1 as int)
        } else {
            apart(a.0 as int, b.0 as int)
        },
        octile_to_range(a, b, radius) == fewest_steps_cost(
            outside(apart(a.0 as int, b.0 as int), radius),
            outside(apart(a.1 as int, b.1 as int), radius),
        ),
        relaxed_cost(from, to, radius, is_flying) == fewest_steps_cost(
            outside(apart(from.x as int, to.x as int), radius),
            outside(apart(from.y as int, to.y as int), radius),
        ) + if is_flying {
            10 * apart(from.layer as int, to.layer as int)
        } else {
            0
        },
        geometrically_connected(from, to, is_flying) <==> from.group == to.group && (from.layer
            == to.layer || is_flying),
{
}

/// A position is allowed exactly where it is not the one to avoid and, if there is a range, lies no
/// further from the start than that along either axis.
pub proof fn law_allowed_positions(
    coord: Coord,
    start: Coord,
    max_range: int,
    avoid: Option<Coord>,
)
    ensures
        allowed(coord, start, max_range, avoid) <==> {
            &&& avoid != Some(coord)
            &&& max_range > 0 ==> apart(coord.0 as int, start.0 as int) <= max_range && apart(
                coord.1 as int,
                start.1 as int,
            ) <= max_range
        },
{
}

} // verus!
