//! Placing a new tile in an empty cell, and the random source that picks it.

use crate::board::Board;
use vstd::prelude::*;

verus! {

/// Why a tile could not be placed.
#[derive(Clone, Copy, Debug, PartialEq, Eq, Structural)]
pub enum SpawnError {
    /// Every cell is occupied.
    BoardFull,
}

/// Relies on `macroquad::rand::gen_range` (quad-rand's global generator): for integer types it
/// scales a 32-bit draw in `[0, 1)` onto `[low, high)` and truncates, so for a small range the
/// result lies in `[low, high)`.
#[verifier::external_body]
pub(crate) fn random_below(n: usize) -> (r: usize)
    requires
        0 < n <= 16,
    ensures
        r < n,
{
    macroquad::rand::gen_range::<usize>(0, n)
}

/// The cell at flat position `p`, rows first.
pub open spec fn cell_at(g: Seq<Seq<u8>>, p: int) -> u8 {
    g[p / 4][p % 4]
}

/// The flat positions below `n` whose cell is empty, in increasing order.
pub open spec fn empties_below(g: Seq<Seq<u8>>, n: nat) -> Seq<int>
    decreases n,
{
    if n == 0 {
        Seq::<int>::empty()
    } else {
        let e = empties_below(g, (n - 1) as nat);
        if cell_at(g, n - 1) == 0 {
            e.push(n - 1)
        } else {
            e
        }
    }
}

/// The flat positions of the empty cells, in increasing order.
pub open spec fn empty_cells(g: Seq<Seq<u8>>) -> Seq<int> {
    empties_below(g, 16)
}

/// The number of occupied cells.
pub open spec fn occupied(g: Seq<Seq<u8>>) -> int {
    16 - empty_cells(g).len()
}

/// The grid with value `v` written at flat position `p`.
pub open spec fn placed(g: Seq<Seq<u8>>, p: int, v: u8) -> Seq<Seq<u8>> {
    g.update(p / 4, g[p / 4].update(p % 4, v))
}

/// The exponent a new tile gets from a roll in `[0, 10)`: `2` for a roll of `0`, else `1`.
pub open spec fn spawn_value(roll: int) -> u8 {
    if roll == 0 {
        2
    } else {
        1
    }
}

/// The empty positions below `n` begin the empty positions below `m`; each lies below
/// `m` and names an empty cell.
pub proof fn lemma_empties_prefix(g: Seq<Seq<u8>>, n: nat, m: nat)
    requires
        n <= m,
    ensures
        empties_below(g, n).len() <= empties_below(g, m).len(),
        empties_below(g, m).len() <= m,
        forall|i: int|
            0 <= i < empties_below(g, n).len() ==> #[trigger] empties_below(g, m)[i]
                == empties_below(g, n)[i],
        forall|i: int|
            0 <= i < empties_below(g, m).len() ==> 0 <= #[trigger] empties_below(g, m)[i] < m,
        forall|i: int|
            0 <= i < empties_below(g, m).len() ==> cell_at(g, #[trigger] empties_below(g, m)[i])
                == 0,
    decreases m,
{
    if m > 0 {
        if n < m {
            lemma_empties_prefix(g, n, (m - 1) as nat);
        } else {
            lemma_empties_prefix(g, (m - 1) as nat, (m - 1) as nat);
        }
    }
}

/// Filling empty position `p` removes it, and only it, from the empty positions below `n`.
proof fn lemma_placed_below(g: Seq<Seq<u8>>, p: int, v: u8, n: nat)
    requires
        crate::board::is_grid(g),
        0 <= p < 16,
        cell_at(g, p) == 0,
        v != 0,
        n <= 16,
    ensures
        empties_below(placed(g, p, v), n).len() + (if p < n { 1int } else { 0 })
            == empties_below(g, n).len(),
    decreases n,
{
    if n > 0 {
        lemma_placed_below(g, p, v, (n - 1) as nat);
        let q = n - 1;
        if q != p {
            assert(q / 4 != p / 4 || q % 4 != p % 4);
            assert(cell_at(placed(g, p, v), q) == cell_at(g, q));
        } else {
            assert(cell_at(placed(g, p, v), q) == v);
        }
    }
}

/// Writing a nonzero exponent into an empty cell adds exactly one occupied cell.
pub proof fn lemma_placed_adds_one(g: Seq<Seq<u8>>, k: int, v: u8)
    requires
        crate::board::is_grid(g),
        0 <= k < empty_cells(g).len(),
        v != 0,
    ensures
        occupied(placed(g, empty_cells(g)[k], v)) == occupied(g) + 1,
        placed(g, empty_cells(g)[k], v)[empty_cells(g)[k] / 4][empty_cells(g)[k] % 4] == v,
{
    lemma_empties_prefix(g, 16, 16);
    lemma_placed_below(g, empty_cells(g)[k], v, 16);
}

impl Board {
    /// The number of empty cells.
    pub fn count_empty(&self) -> (r: usize)
        ensures
            r == empty_cells(self@).len(),
    {
        let mut count: usize = 0;
        for p in 0..16usize
            invariant
                count == empties_below(self@, p as nat).len(),
                count <= p,
        {
            if self.cells[p / 4][p % 4] == 0 {
                count = count + 1;
            }
        }
        count
    }

    /// Writes the exponent for `roll` into the `k`-th empty cell, counted rows first.
    pub fn spawn_at(&mut self, k: usize, roll: usize)
        requires
            k < empty_cells(old(self)@).len(),
        ensures
            final(self)@ == placed(old(self)@, empty_cells(old(self)@)[k as int], spawn_value(roll as int)),
    {
        let ghost g = self@;
        let value: u8 = if roll == 0 { 2 } else { 1 };
        let mut seen: usize = 0;
        for p in 0..16usize
            invariant
                g == self@,
                g == old(self)@,
                k < empty_cells(g).len(),
                seen == empties_below(g, p as nat).len(),
                seen <= k,
                value == spawn_value(roll as int),
        {
            if self.cells[p / 4][p % 4] == 0 {
                if seen == k {
                    proof {
                        lemma_empties_prefix(g, (p + 1) as nat, 16);
                        assert(cell_at(g, p as int) == 0);
                        assert(empties_below(g, (p + 1) as nat)[k as int] == p);
                        assert(empty_cells(g)[k as int] == p);
                    }
                    let r = p / 4;
                    let mut row = self.cells[r];
                    row[p % 4] = value;
                    self.cells[r] = row;
                    assert(self@ =~~= placed(g, p as int, value));
                    assert(value == spawn_value(roll as int));
                    assert(self@ == placed(g, empty_cells(g)[k as int], spawn_value(roll as int)));
                    return;
                }
                seen = seen + 1;
            }
        }
    }

    /// Places a new tile in an empty cell chosen uniformly at random: exponent `2` with
    /// probability 1/10, else `1`. Fails, leaving the board as it is, when no cell is empty.
    pub fn spawn_tile(&mut self) -> (r: Result<(), SpawnError>)
        ensures
            r is Err <==> empty_cells(old(self)@).len() == 0,
            r is Err ==> final(self)@ == old(self)@,
            r is Ok ==> exists|k: int, roll: int|
                0 <= k < empty_cells(old(self)@).len() && 0 <= roll < 10 && final(self)@ == placed(
                    old(self)@,
                    empty_cells(old(self)@)[k],
                    spawn_value(roll),
                ),
            r is Ok ==> occupied(final(self)@) == occupied(old(self)@) + 1,
    {
        proof {
            crate::moves::lemma_board_is_grid(*self);
        }
        let n = self.count_empty();
        if n == 0 {
            return Err(SpawnError::BoardFull);
        }
        proof {
            lemma_empties_prefix(self@, 16, 16);
        }
        let k = random_below(n);
        let roll = random_below(10);
        let ghost g = self@;
        self.spawn_at(k, roll);
        proof {
            crate::moves::lemma_board_is_grid(*self);
            lemma_placed_adds_one(g, k as int, spawn_value(roll as int));
        }
        Ok(())
    }
}

} // verus!
