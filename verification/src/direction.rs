use vstd::prelude::*;

verus! {

/// The 8 possible directions in which a word can run through the puzzle.
///
/// Clone and Copy are derived so that move is not the default action when
/// using assignment.
#[derive(Debug, Clone, Copy)]
pub enum Direction {
    Right,
    UpRight,
    Up,
    UpLeft,
    Left,
    DownLeft,
    Down,
    DownRight,
}

/// The x increment of one step in direction `d`; x grows rightward.
pub open spec fn spec_dx(d: Direction) -> int {
    match d {
        Direction::Right => 1,
        Direction::UpRight => 1,
        Direction::Up => 0,
        Direction::UpLeft => -1,
        Direction::Left => -1,
        Direction::DownLeft => -1,
        Direction::Down => 0,
        Direction::DownRight => 1,
    }
}

/// The y increment of one step in direction `d`; y grows downward
/// (screen/row-major convention).
pub open spec fn spec_dy(d: Direction) -> int {
    match d {
        Direction::Right => 0,
        Direction::UpRight => -1,
        Direction::Up => -1,
        Direction::UpLeft => -1,
        Direction::Left => 0,
        Direction::DownLeft => 1,
        Direction::Down => 1,
        Direction::DownRight => 1,
    }
}

impl Direction {
    /// The x and y increment values associated with each direction.
    pub fn incrementors(&self) -> (r: (i8, i8))
        ensures
            r.0 == spec_dx(*self),
            r.1 == spec_dy(*self),
    {
        match self {
            Direction::Right => (1, 0),
            Direction::UpRight => (1, -1),
            Direction::Up => (0, -1),
            Direction::UpLeft => (-1, -1),
            Direction::Left => (-1, 0),
            Direction::DownLeft => (-1, 1),
            Direction::Down => (0, 1),
            Direction::DownRight => (1, 1),
        }
    }
}

/// Every direction steps by at most one cell on each axis: the increment
/// pair of each of the 8 variants lies in {-1, 0, 1} x {-1, 0, 1}.
pub proof fn lemma_incrementors_unit(d: Direction)
    ensures
        -1 <= spec_dx(d) <= 1,
        -1 <= spec_dy(d) <= 1,
{
}

} // verus!
