use vstd::prelude::*;

verus! {

/// Number of columns of the world.
pub const COLS: u16 = 40;

/// Number of rows of the world.
pub const ROWS: u16 = 40;

/// One of the four axis-aligned moves.
#[derive(Hash, PartialEq, Eq, Structural, Debug, Clone, Copy)]
pub enum Direction {
    Up,
    Down,
    Left,
    Right,
}

/// A cell of the world, by column and row.
#[derive(Debug, PartialEq, Eq, Structural, Hash, Clone, Copy)]
pub struct Location {
    pub col: u16,
    pub row: u16,
}

/// The location lies on the world.
pub open spec fn in_bounds(l: Location) -> bool {
    l.col < COLS && l.row < ROWS
}

/// Moving from `l` in direction `d` stays on the world.
pub open spec fn valid_move(l: Location, d: Direction) -> bool {
    match d {
        Direction::Up => l.row > 0,
        Direction::Down => l.row + 1 < ROWS,
        Direction::Left => l.col > 0,
        Direction::Right => l.col + 1 < COLS,
    }
}

/// The neighbour of `l` in direction `d`; `l` itself where the move would
/// leave the world.
pub open spec fn step(l: Location, d: Direction) -> Location {
    if !valid_move(l, d) {
        l
    } else {
        match d {
            Direction::Up => Location { col: l.col, row: (l.row - 1) as u16 },
            Direction::Down => Location { col: l.col, row: (l.row + 1) as u16 },
            Direction::Left => Location { col: (l.col - 1) as u16, row: l.row },
            Direction::Right => Location { col: (l.col + 1) as u16, row: l.row },
        }
    }
}

/// Absolute difference of two integers.
pub open spec fn abs_diff(a: int, b: int) -> nat {
    if a >= b {
        (a - b) as nat
    } else {
        (b - a) as nat
    }
}

/// Manhattan distance between two locations.
pub open spec fn manhattan(a: Location, b: Location) -> nat {
    abs_diff(a.col as int, b.col as int) + abs_diff(a.row as int, b.row as int)
}

impl Location {
    pub fn new(c: u16, r: u16) -> (l: Location)
        ensures
            l.col == c,
            l.row == r,
    {
        Location { col: c, row: r }
    }

    /// The neighbour in direction `d`, or `self` at the edge of the world.
    pub fn next_location(self, d: Direction) -> (l: Location)
        ensures
            l == step(self, d),
    {
        match d {
            Direction::Up => {
                if self.row > 0 {
                    Location::new(self.col, self.row - 1)
                } else {
                    self
                }
            },
            Direction::Down => {
                if self.row < ROWS - 1 {
                    Location::new(self.col, self.row + 1)
                } else {
                    self
                }
            },
            Direction::Left => {
                if self.col > 0 {
                    Location::new(self.col - 1, self.row)
                } else {
                    self
                }
            },
            Direction::Right => {
                if self.col < COLS - 1 {
                    Location::new(self.col + 1, self.row)
                } else {
                    self
                }
            },
        }
    }

    /// Whether a move in direction `d` stays on the world; exactly when
    /// `next_location` returns another cell.
    pub fn is_valid_move(self, d: Direction) -> (b: bool)
        ensures
            b == valid_move(self, d),
            b == (step(self, d) != self),
    {
        match d {
            Direction::Up => self.row > 0,
            Direction::Down => self.row < ROWS - 1,
            Direction::Left => self.col > 0,
            Direction::Right => self.col < COLS - 1,
        }
    }

    /// Manhattan distance to `other`.
    pub fn distance(self, other: Location) -> (d: u32)
        ensures
            d == manhattan(self, other),
    {
        let col_diff: u16 = if self.col > other.col {
            self.col - other.col
        } else {
            other.col - self.col
        };
        let row_diff: u16 = if self.row > other.row {
            self.row - other.row
        } else {
            other.row - self.row
        };
        col_diff as u32 + row_diff as u32
    }
}

} // verus!
