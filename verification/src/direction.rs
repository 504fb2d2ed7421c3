use vstd::prelude::*;

verus! {

/// A move, named by the way the blank cell travels across the board.
#[derive(Debug, PartialEq, Eq, Clone, Copy, Hash, Structural)]
pub enum Direction {
    Up,
    Down,
    Left,
    Right,
}

impl Direction {
    /// The change of the blank's row-major cell index under this move.
    pub open spec fn offset(self) -> int {
        match self {
            Direction::Up => -3,
            Direction::Down => 3,
            Direction::Left => -1,
            Direction::Right => 1,
        }
    }

    /// The move that undoes this one.
    pub open spec fn reversed(self) -> Direction {
        match self {
            Direction::Up => Direction::Down,
            Direction::Down => Direction::Up,
            Direction::Left => Direction::Right,
            Direction::Right => Direction::Left,
        }
    }

    /// The letters of the direction's name.
    pub open spec fn label(self) -> Seq<char> {
        match self {
            Direction::Up => "Up"@,
            Direction::Down => "Down"@,
            Direction::Left => "Left"@,
            Direction::Right => "Right"@,
        }
    }

    /// Returns the move that undoes this one.
    pub fn opposite(self) -> (r: Direction)
        ensures
            r == self.reversed(),
            r.offset() == -self.offset(),
    {
        match self {
            Direction::Up => Direction::Down,
            Direction::Down => Direction::Up,
            Direction::Left => Direction::Right,
            Direction::Right => Direction::Left,
        }
    }

    /// Returns the direction's name as text.
    pub fn name(&self) -> (s: String)
        ensures
            s@ == self.label(),
    {
        match self {
            Direction::Up => "Up".to_owned(),
            Direction::Down => "Down".to_owned(),
            Direction::Left => "Left".to_owned(),
            Direction::Right => "Right".to_owned(),
        }
    }
}

} // verus!
