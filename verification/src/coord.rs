//! Cell addresses and the four movement directions.

use vstd::prelude::*;

verus! {

/// One of the four directions a move can press the tiles toward.
#[derive(Clone, Copy, Debug, PartialEq, Eq, Structural)]
pub enum Direction {
    Up,
    Down,
    Left,
    Right,
}

impl Direction {
    /// The direction pointing the opposite way.
    pub open spec fn opposite_spec(self) -> Direction {
        match self {
            Direction::Up => Direction::Down,
            Direction::Down => Direction::Up,
            Direction::Left => Direction::Right,
            Direction::Right => Direction::Left,
        }
    }

    pub fn opposite(self) -> (r: Direction)
        ensures
            r == self.opposite_spec(),
    {
        match self {
            Direction::Up => Direction::Down,
            Direction::Down => Direction::Up,
            Direction::Left => Direction::Right,
            Direction::Right => Direction::Left,
        }
    }

    /// The next direction in the cyclic rotation Up -> Left -> Down -> Right -> Up;
    /// used only to walk from one line head to the next.
    pub open spec fn perpendicular_positive_spec(self) -> Direction {
        match self {
            Direction::Up => Direction::Left,
            Direction::Left => Direction::Down,
            Direction::Down => Direction::Right,
            Direction::Right => Direction::Up,
        }
    }

    pub fn perpendicular_positive(self) -> (r: Direction)
        ensures
            r == self.perpendicular_positive_spec(),
    {
        match self {
            Direction::Up => Direction::Left,
            Direction::Left => Direction::Down,
            Direction::Down => Direction::Right,
            Direction::Right => Direction::Up,
        }
    }
}

/// The address of one board cell.
#[derive(Clone, Copy, Debug, PartialEq, Eq, Structural)]
pub struct Position {
    pub row: u8,
    pub column: u8,
}

impl Position {
    /// A valid address: both coordinates below 6.
    pub open spec fn wf(self) -> bool {
        self.row < 6 && self.column < 6
    }

    /// The cell's index in the row-major flat ordering of the grid.
    pub open spec fn flat(self) -> int {
        self.row * 6 + self.column
    }

    /// Row-major index of the cell in the 36-entry grid.
    pub fn index(self) -> (r: usize)
        requires
            self.wf(),
        ensures
            r == self.flat(),
            r < 36,
    {
        6 * (self.row as usize) + (self.column as usize)
    }

    /// The address sitting at the given row-major index.
    pub fn from_index(index: u64) -> (r: Position)
        requires
            index < 36,
        ensures
            r.wf(),
            r.flat() == index,
    {
        proof {
            vstd::arithmetic::div_mod::lemma_fundamental_div_mod(index as int, 6);
            vstd::arithmetic::div_mod::lemma_mod_bound(index as int, 6);
            vstd::arithmetic::div_mod::lemma_div_nonincreasing(index as int, 6);
            vstd::arithmetic::div_mod::lemma_div_is_ordered(index as int, 35, 6);
        }
        Position { row: (index / 6) as u8, column: (index % 6) as u8 }
    }

    /// The adjacent cell one step in `pointing`, or nothing at that edge.
    pub open spec fn neighbor_spec(self, pointing: Direction) -> Option<Position> {
        match pointing {
            Direction::Up => if self.row == 0 {
                None
            } else {
                Some(Position { row: (self.row - 1) as u8, column: self.column })
            },
            Direction::Down => if self.row == 5 {
                None
            } else {
                Some(Position { row: (self.row + 1) as u8, column: self.column })
            },
            Direction::Left => if self.column == 0 {
                None
            } else {
                Some(Position { row: self.row, column: (self.column - 1) as u8 })
            },
            Direction::Right => if self.column == 5 {
                None
            } else {
                Some(Position { row: self.row, column: (self.column + 1) as u8 })
            },
        }
    }

    /// Neighbor lookup. The second clause is the boundary guarantee: the lookup
    /// comes back empty exactly when the cell already sits at the board edge in
    /// that direction.
    pub fn neighbor(self, pointing: Direction) -> (r: Option<Position>)
        requires
            self.wf(),
        ensures
            r == self.neighbor_spec(pointing),
            (r is None) <==> (match pointing {
                Direction::Up => self.row == 0,
                Direction::Down => self.row == 5,
                Direction::Left => self.column == 0,
                Direction::Right => self.column == 5,
            }),
            r is Some ==> r->Some_0.wf(),
    {
        match pointing {
            Direction::Up => if self.row == 0 {
                None
            } else {
                Some(Position { row: self.row - 1, column: self.column })
            },
            Direction::Down => if self.row == 5 {
                None
            } else {
                Some(Position { row: self.row + 1, column: self.column })
            },
            Direction::Left => if self.column == 0 {
                None
            } else {
                Some(Position { row: self.row, column: self.column - 1 })
            },
            Direction::Right => if self.column == 5 {
                None
            } else {
                Some(Position { row: self.row, column: self.column + 1 })
            },
        }
    }
}

/// The flat index determines the address: no two valid cells share one.
pub proof fn lemma_flat_injective(a: Position, b: Position)
    requires
        a.wf(),
        b.wf(),
        a.flat() == b.flat(),
    ensures
        a == b,
{
    vstd::arithmetic::div_mod::lemma_fundamental_div_mod_converse_div(
        a.flat(), 6, a.row as int, a.column as int);
    vstd::arithmetic::div_mod::lemma_fundamental_div_mod_converse_mod(
        a.flat(), 6, a.row as int, a.column as int);
    vstd::arithmetic::div_mod::lemma_fundamental_div_mod_converse_div(
        b.flat(), 6, b.row as int, b.column as int);
    vstd::arithmetic::div_mod::lemma_fundamental_div_mod_converse_mod(
        b.flat(), 6, b.row as int, b.column as int);
}

} // verus!
