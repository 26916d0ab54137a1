//! Applying a move: every direction is reduced to a push to the left by a symmetry of the grid.

use crate::board::{
    flipped, from_left, grid_at_most_limit, grid_below_limit, is_grid, left_score, move_score,
    moved, slide_left, terminal, to_left, transposed, Board, Direction,
};
use crate::row::{below_limit, slide_row, same_row, slid, slide_score, MAX_EXPONENT};
use vstd::prelude::*;

verus! {

/// The model of a board has four rows of four cells.
pub proof fn lemma_board_is_grid(b: Board)
    ensures
        is_grid(b@),
{
}

/// Mirroring keeps the shape and the exponent bounds, and undoes itself.
pub proof fn lemma_symmetries(g: Seq<Seq<u8>>)
    requires
        is_grid(g),
    ensures
        is_grid(flipped(g)),
        is_grid(transposed(g)),
        is_grid(slide_left(g)),
        flipped(flipped(g)) == g,
        transposed(transposed(g)) == g,
        grid_below_limit(g) ==> grid_below_limit(flipped(g)),
        grid_below_limit(g) ==> grid_below_limit(transposed(g)),
        grid_at_most_limit(g) ==> grid_at_most_limit(flipped(g)),
        grid_at_most_limit(g) ==> grid_at_most_limit(transposed(g)),
{
    assert(flipped(flipped(g)) =~~= g);
    assert(transposed(transposed(g)) =~~= g);
    assert forall|r: int| 0 <= r < 4 implies #[trigger] slide_left(g)[r].len() == 4 by {
        crate::row::lemma_slid_len(g[r]);
    }
    if grid_below_limit(g) {
        assert forall|r: int| 0 <= r < 4 implies below_limit(#[trigger] flipped(g)[r]) by {
            assert(below_limit(g[r]));
        }
        assert forall|r: int| 0 <= r < 4 implies below_limit(#[trigger] transposed(g)[r]) by {
            assert forall|c: int| 0 <= c < 4 implies transposed(g)[r][c] < MAX_EXPONENT by {
                assert(below_limit(g[c]));
            }
        }
    }
}

/// The two symmetries of a direction undo each other.
pub proof fn lemma_to_from_left(g: Seq<Seq<u8>>, d: Direction)
    requires
        is_grid(g),
    ensures
        is_grid(to_left(g, d)),
        is_grid(from_left(g, d)),
        from_left(to_left(g, d), d) == g,
        to_left(from_left(g, d), d) == g,
        grid_below_limit(g) ==> grid_below_limit(to_left(g, d)),
        grid_at_most_limit(g) ==> grid_at_most_limit(from_left(g, d)),
{
    lemma_symmetries(g);
    lemma_symmetries(flipped(g));
    lemma_symmetries(transposed(g));
    lemma_symmetries(flipped(transposed(g)));
    lemma_symmetries(transposed(flipped(g)));
}

/// The points of pushing the first `n` rows toward column 0.
pub open spec fn score_upto(g: Seq<Seq<u8>>, n: nat) -> nat
    decreases n,
{
    if n == 0 {
        0
    } else {
        score_upto(g, (n - 1) as nat) + slide_score(g[n - 1])
    }
}

impl Board {
    /// Mirrors every row.
    fn flip(&mut self)
        ensures
            final(self)@ == flipped(old(self)@),
    {
        for r in 0..4usize
            invariant
                forall|i: int| 0 <= i < r ==> self.cells[i]@ == flipped(old(self)@)[i],
                forall|i: int| r <= i < 4 ==> self.cells[i] == old(self).cells[i],
        {
            let row = self.cells[r];
            self.cells[r] = [row[3], row[2], row[1], row[0]];
            assert(self.cells[r as int]@ =~= flipped(old(self)@)[r as int]);
        }
        assert(self@ =~~= flipped(old(self)@));
    }

    /// Mirrors the grid across its main diagonal.
    fn transpose(&mut self)
        ensures
            final(self)@ == transposed(old(self)@),
    {
        let c = self.cells;
        self.cells = [
            [c[0][0], c[1][0], c[2][0], c[3][0]],
            [c[0][1], c[1][1], c[2][1], c[3][1]],
            [c[0][2], c[1][2], c[2][2], c[3][2]],
            [c[0][3], c[1][3], c[2][3], c[3][3]],
        ];
        assert(self@ =~~= transposed(old(self)@));
    }

    /// Pushes every row toward column 0. Returns the points earned and whether a value changed.
    fn push_left(&mut self) -> (r: (u64, bool))
        requires
            grid_below_limit(old(self)@),
        ensures
            final(self)@ == slide_left(old(self)@),
            r.0 == left_score(old(self)@),
            r.1 == (final(self)@ != old(self)@),
            grid_at_most_limit(final(self)@),
    {
        let ghost g = self@;
        let mut score: u64 = 0;
        let mut changed = false;
        for r in 0..4usize
            invariant
                g == old(self)@,
                grid_below_limit(g),
                forall|i: int| 0 <= i < r ==> self.cells[i]@ == slid(g[i]),
                forall|i: int| 0 <= i < r ==> crate::row::at_most_limit(#[trigger] self.cells[i]@),
                forall|i: int| r <= i < 4 ==> self.cells[i] == old(self).cells[i],
                score <= r * 0x400000000,
                score == score_upto(g, r as nat),
                changed == (exists|i: int| 0 <= i < r && self.cells[i]@ != g[i]),
        {
            let row = self.cells[r];
            assert(row@ == g[r as int]);
            assert(below_limit(g[r as int]));
            let (new_row, gained) = slide_row(row);
            proof {
                crate::row::lemma_tiles_of_facts(row@);
                crate::row::lemma_combine_facts(crate::row::tiles_of(row@));
                vstd::arithmetic::power2::lemma2_to64();
                let m = vstd::arithmetic::power2::pow2(MAX_EXPONENT as nat);
                assert((crate::row::tiles_of(row@).len() as int) * m <= 4 * m) by (nonlinear_arith)
                    requires crate::row::tiles_of(row@).len() <= 4, m >= 0;
            }
            let same = same_row(&new_row, &row);
            self.cells[r] = new_row;
            score = score + gained;
            changed = changed || !same;
        }
        assert(left_score(g) == score_upto(g, 4)) by {
            reveal_with_fuel(score_upto, 5);
        }
        assert(self@ =~~= slide_left(g));
        proof {
            if changed {
                let i = choose|i: int| 0 <= i < 4 && self.cells[i]@ != g[i];
                assert(self@[i] != g[i]);
            } else {
                assert(self@ =~~= g);
            }
        }
        (score, changed)
    }

    /// Applies a move in direction `d`. Returns the points earned (the sum of `2^v` over every
    /// merge that produced exponent `v`) and whether any cell changed.
    pub fn execute_move(&mut self, d: Direction) -> (r: (u64, bool))
        requires
            grid_below_limit(old(self)@),
        ensures
            final(self)@ == moved(old(self)@, d),
            r.0 == move_score(old(self)@, d),
            r.1 == (final(self)@ != old(self)@),
            grid_at_most_limit(final(self)@),
    {
        let ghost g = self@;
        proof {
            lemma_board_is_grid(*self);
            lemma_to_from_left(g, d);
        }
        let r = match d {
            Direction::Left => self.push_left(),
            Direction::Right => {
                self.flip();
                let r = self.push_left();
                self.flip();
                r
            },
            Direction::Up => {
                self.transpose();
                let r = self.push_left();
                self.transpose();
                r
            },
            Direction::Down => {
                self.transpose();
                self.flip();
                let r = self.push_left();
                self.flip();
                self.transpose();
                r
            },
        };
        proof {
            let l = slide_left(to_left(g, d));
            lemma_symmetries(to_left(g, d));
            lemma_to_from_left(l, d);
            if self@ == g {
                assert(to_left(self@, d) == to_left(g, d));
            }
        }
        r
    }

    /// Whether no move in any direction changes the grid. The board itself is left as it is.
    pub fn is_terminal(&self) -> (r: bool)
        requires
            grid_below_limit(self@),
        ensures
            r == terminal(self@),
    {
        let mut copy = *self;
        let (_, changed) = copy.execute_move(Direction::Left);
        if changed {
            return false;
        }
        let mut copy = *self;
        let (_, changed) = copy.execute_move(Direction::Right);
        if changed {
            return false;
        }
        let mut copy = *self;
        let (_, changed) = copy.execute_move(Direction::Up);
        if changed {
            return false;
        }
        let mut copy = *self;
        let (_, changed) = copy.execute_move(Direction::Down);
        if changed {
            return false;
        }
        assert forall|d: Direction| moved(self@, d) == self@ by {
            match d {
                Direction::Left => {},
                Direction::Right => {},
                Direction::Up => {},
                Direction::Down => {},
            }
        }
        true
    }
}

} // verus!
