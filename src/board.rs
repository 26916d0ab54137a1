//! The 4x4 grid of tile exponents, its mathematical model and the four move directions.

use crate::row::{at_most_limit, below_limit, slid, slide_score};
use vstd::prelude::*;

verus! {

/// A push direction.
#[derive(Clone, Copy, Debug, PartialEq, Eq, Structural)]
pub enum Direction {
    Left,
    Right,
    Up,
    Down,
}

/// One cell as the host sees it: its fixed position and its exponent (`0` is empty, `n` shows `2^n`).
#[derive(Clone, Copy, Debug, PartialEq, Eq, Structural)]
pub struct Tile {
    pub row: u8,
    pub col: u8,
    pub value: u8,
}

/// The grid of exponents, rows first.
#[derive(Clone, Copy, Debug)]
pub struct Board {
    pub cells: [[u8; 4]; 4],
}

impl View for Board {
    type V = Seq<Seq<u8>>;

    open spec fn view(&self) -> Seq<Seq<u8>> {
        Seq::new(4, |r: int| self.cells[r]@)
    }
}

/// Four rows of four cells.
pub open spec fn is_grid(g: Seq<Seq<u8>>) -> bool {
    g.len() == 4 && forall|r: int| 0 <= r < 4 ==> #[trigger] g[r].len() == 4
}

/// Every exponent of the grid may still take part in a merge.
pub open spec fn grid_below_limit(g: Seq<Seq<u8>>) -> bool {
    forall|r: int| 0 <= r < 4 ==> below_limit(#[trigger] g[r])
}

/// Every exponent of the grid is at most the limit.
pub open spec fn grid_at_most_limit(g: Seq<Seq<u8>>) -> bool {
    forall|r: int| 0 <= r < 4 ==> at_most_limit(#[trigger] g[r])
}

/// The grid with every cell empty.
pub open spec fn empty_grid() -> Seq<Seq<u8>> {
    Seq::new(4, |r: int| Seq::new(4, |c: int| 0u8))
}

/// Each row mirrored: column `c` goes to column `3 - c`.
pub open spec fn flipped(g: Seq<Seq<u8>>) -> Seq<Seq<u8>> {
    Seq::new(4, |r: int| Seq::new(4, |c: int| g[r][3 - c]))
}

/// The grid mirrored across its main diagonal.
pub open spec fn transposed(g: Seq<Seq<u8>>) -> Seq<Seq<u8>> {
    Seq::new(4, |r: int| Seq::new(4, |c: int| g[c][r]))
}

/// Every row pushed toward column 0.
pub open spec fn slide_left(g: Seq<Seq<u8>>) -> Seq<Seq<u8>> {
    Seq::new(4, |r: int| slid(g[r]))
}

/// The points of pushing every row toward column 0.
pub open spec fn left_score(g: Seq<Seq<u8>>) -> nat {
    slide_score(g[0]) + slide_score(g[1]) + slide_score(g[2]) + slide_score(g[3])
}

/// The symmetry that turns a push in direction `d` into a push to the left.
pub open spec fn to_left(g: Seq<Seq<u8>>, d: Direction) -> Seq<Seq<u8>> {
    match d {
        Direction::Left => g,
        Direction::Right => flipped(g),
        Direction::Up => transposed(g),
        Direction::Down => flipped(transposed(g)),
    }
}

/// The symmetry that maps a left push back to direction `d`.
pub open spec fn from_left(g: Seq<Seq<u8>>, d: Direction) -> Seq<Seq<u8>> {
    match d {
        Direction::Left => g,
        Direction::Right => flipped(g),
        Direction::Up => transposed(g),
        Direction::Down => transposed(flipped(g)),
    }
}

/// The grid after a move in direction `d`.
pub open spec fn moved(g: Seq<Seq<u8>>, d: Direction) -> Seq<Seq<u8>> {
    from_left(slide_left(to_left(g, d)), d)
}

/// The points earned by a move in direction `d`.
pub open spec fn move_score(g: Seq<Seq<u8>>, d: Direction) -> nat {
    left_score(to_left(g, d))
}

/// No move in any direction changes the grid.
pub open spec fn terminal(g: Seq<Seq<u8>>) -> bool {
    forall|d: Direction| moved(g, d) == g
}

/// The direction at position `i` of the order Left, Right, Up, Down.
pub open spec fn direction_at(i: int) -> Direction {
    if i == 0 {
        Direction::Left
    } else if i == 1 {
        Direction::Right
    } else if i == 2 {
        Direction::Up
    } else {
        Direction::Down
    }
}

impl Board {
    /// The empty grid.
    pub fn new() -> (b: Board)
        ensures
            b@ == empty_grid(),
    {
        let b = Board { cells: [[0u8; 4]; 4] };
        assert(b@ =~~= empty_grid());
        b
    }

    /// A grid with the given exponents, `values[row][col]`.
    pub fn from_values(values: [[u8; 4]; 4]) -> (b: Board)
        ensures
            forall|r: int, c: int| 0 <= r < 4 && 0 <= c < 4 ==> b@[r][c] == values[r][c],
    {
        Board { cells: values }
    }

    /// The exponents, `[row][col]`.
    pub fn values(&self) -> (v: [[u8; 4]; 4])
        ensures
            forall|r: int, c: int| 0 <= r < 4 && 0 <= c < 4 ==> self@[r][c] == v[r][c],
    {
        self.cells
    }

    /// The exponent at `(row, col)`.
    pub fn value(&self, row: usize, col: usize) -> (v: u8)
        requires
            row < 4,
            col < 4,
        ensures
            v == self@[row as int][col as int],
    {
        self.cells[row][col]
    }

    /// The tile at `(row, col)`.
    pub fn tile(&self, row: usize, col: usize) -> (t: Tile)
        requires
            row < 4,
            col < 4,
        ensures
            t.row == row,
            t.col == col,
            t.value == self@[row as int][col as int],
    {
        Tile { row: row as u8, col: col as u8, value: self.cells[row][col] }
    }

    /// Empties every cell.
    pub fn clear(&mut self)
        ensures
            final(self)@ == empty_grid(),
    {
        self.cells = [[0u8; 4]; 4];
        assert(self@ =~~= empty_grid());
    }

    /// Whether every exponent may still take part in a merge, so that a move may be applied.
    pub fn within_limit(&self) -> (r: bool)
        ensures
            r == grid_below_limit(self@),
    {
        for i in 0..4usize
            invariant
                forall|r: int| 0 <= r < i ==> below_limit(#[trigger] self@[r]),
        {
            for j in 0..4usize
                invariant
                    i < 4,
                    forall|r: int| 0 <= r < i ==> below_limit(#[trigger] self@[r]),
                    forall|c: int| 0 <= c < j ==> self@[i as int][c] < crate::row::MAX_EXPONENT,
            {
                if self.cells[i][j] >= crate::row::MAX_EXPONENT {
                    assert(!below_limit(self@[i as int]));
                    return false;
                }
            }
        }
        true
    }
}

} // verus!
