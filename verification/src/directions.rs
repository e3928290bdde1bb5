//! Direction bits and the steps a mover can take.

use vstd::prelude::*;

verus! {

/// North direction bit.
pub const NORTH: i32 = 1;

/// South direction bit.
pub const SOUTH: i32 = 2;

/// East direction bit.
pub const EAST: i32 = 4;

/// West direction bit.
pub const WEST: i32 = 8;

/// Upward direction bit.
pub const UP: i32 = 16;

/// Downward direction bit.
pub const DOWN: i32 = 32;

/// Cost of one step along an axis, between layers included.
pub const STRAIGHT_COST: u32 = 10;

/// Cost of one diagonal step.
pub const DIAGONAL_COST: u32 = 14;

/// One horizontal step: its direction bits, its displacement and its cost.
#[derive(Clone, Copy, Debug, PartialEq, Eq, Structural)]
pub struct Step {
    /// Direction bits of the step.
    pub dir: i32,
    /// Displacement along the x axis.
    pub dx: i16,
    /// Displacement along the y axis.
    pub dy: i16,
    /// Movement cost.
    pub cost: u32,
}

/// Number of horizontal steps.
pub const STEP_COUNT: usize = 8;

/// The horizontal steps in the order in which a search tries them: the four cardinal ones first.
pub open spec fn step(index: int) -> Step {
    if index == 0 {
        Step { dir: NORTH, dx: 0, dy: 1, cost: STRAIGHT_COST }
    } else if index == 1 {
        Step { dir: SOUTH, dx: 0, dy: (-1i16) as i16, cost: STRAIGHT_COST }
    } else if index == 2 {
        Step { dir: EAST, dx: 1, dy: 0, cost: STRAIGHT_COST }
    } else if index == 3 {
        Step { dir: WEST, dx: (-1i16) as i16, dy: 0, cost: STRAIGHT_COST }
    } else if index == 4 {
        Step { dir: 5, dx: 1, dy: 1, cost: DIAGONAL_COST }
    } else if index == 5 {
        Step { dir: 6, dx: 1, dy: (-1i16) as i16, cost: DIAGONAL_COST }
    } else if index == 6 {
        Step { dir: 9, dx: (-1i16) as i16, dy: 1, cost: DIAGONAL_COST }
    } else {
        Step { dir: 10, dx: (-1i16) as i16, dy: (-1i16) as i16, cost: DIAGONAL_COST }
    }
}

/// Returns one of the horizontal steps.
pub fn step_at(index: usize) -> (s: Step)
    requires
        index < STEP_COUNT,
    ensures
        s == step(index as int),
{
    match index {
        0 => Step { dir: NORTH, dx: 0, dy: 1, cost: STRAIGHT_COST },
        1 => Step { dir: SOUTH, dx: 0, dy: -1, cost: STRAIGHT_COST },
        2 => Step { dir: EAST, dx: 1, dy: 0, cost: STRAIGHT_COST },
        3 => Step { dir: WEST, dx: -1, dy: 0, cost: STRAIGHT_COST },
        4 => Step { dir: 5, dx: 1, dy: 1, cost: DIAGONAL_COST },
        5 => Step { dir: 6, dx: 1, dy: -1, cost: DIAGONAL_COST },
        6 => Step { dir: 9, dx: -1, dy: 1, cost: DIAGONAL_COST },
        _ => Step { dir: 10, dx: -1, dy: -1, cost: DIAGONAL_COST },
    }
}

/// The bits of a diagonal step are those of its two cardinal parts.
pub proof fn law_diagonal_bits(index: int)
    requires
        4 <= index < STEP_COUNT,
    ensures
        step(index).dir == (if step(index).dy > 0 {
            NORTH
        } else {
            SOUTH
        }) | (if step(index).dx > 0 {
            EAST
        } else {
            WEST
        }),
{
    assert(1i32 | 4i32 == 5i32 && 2i32 | 4i32 == 6i32 && 1i32 | 8i32 == 9i32 && 2i32 | 8i32
        == 10i32) by (bit_vector);
}

/// The direction that leads back.
pub open spec fn opposite(dir: i32) -> i32 {
    if dir == NORTH {
        SOUTH
    } else if dir == SOUTH {
        NORTH
    } else if dir == EAST {
        WEST
    } else if dir == WEST {
        EAST
    } else if dir == UP {
        DOWN
    } else if dir == DOWN {
        UP
    } else {
        dir
    }
}

/// Returns the opposite cardinal or vertical direction, and anything else unchanged.
pub fn reverse_dir(dir: i32) -> (reversed: i32)
    ensures
        reversed == opposite(dir),
{
    match dir {
        NORTH => SOUTH,
        SOUTH => NORTH,
        EAST => WEST,
        WEST => EAST,
        UP => DOWN,
        DOWN => UP,
        other => other,
    }
}

/// Reversing a direction twice gives it back.
pub proof fn law_opposite_is_an_involution(dir: i32)
    ensures
        opposite(opposite(dir)) == dir,
{
}

/// The eight steps with their numbers: the four cardinal ones cost ten, the diagonal ones fourteen,
/// and the bits of a diagonal step are those of its two parts.
pub proof fn law_steps_in_numbers()
    ensures
        step(0) == (Step { dir: 1, dx: 0, dy: 1, cost: 10 }),
        step(1) == (Step { dir: 2, dx: 0, dy: -1i16 as i16, cost: 10 }),
        step(2) == (Step { dir: 4, dx: 1, dy: 0, cost: 10 }),
        step(3) == (Step { dir: 8, dx: -1i16 as i16, dy: 0, cost: 10 }),
        step(4) == (Step { dir: 5, dx: 1, dy: 1, cost: 14 }),
        step(5) == (Step { dir: 6, dx: 1, dy: -1i16 as i16, cost: 14 }),
        step(6) == (Step { dir: 9, dx: -1i16 as i16, dy: 1, cost: 14 }),
        step(7) == (Step { dir: 10, dx: -1i16 as i16, dy: -1i16 as i16, cost: 14 }),
        STEP_COUNT == 8,
        UP == 16,
        DOWN == 32,
{
}

/// North and south, east and west, up and down lead back from each other; anything else stays as it
/// is.
pub proof fn law_directions_lead_back(dir: i32)
    ensures
        opposite(1) == 2 && opposite(2) == 1,
        opposite(4) == 8 && opposite(8) == 4,
        opposite(16) == 32 && opposite(32) == 16,
        dir != 1 && dir != 2 && dir != 4 && dir != 8 && dir != 16 && dir != 32 ==> opposite(dir)
            == dir,
{
}

} // verus!
