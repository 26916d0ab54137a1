//! Properties of moves that relate several calls or hold of every grid.

use crate::board::{
    flipped, from_left, grid_below_limit, is_grid, move_score, moved, slide_left, terminal,
    to_left, transposed, Direction,
};
use crate::moves::{lemma_symmetries, lemma_to_from_left};
use crate::row::{
    all_zero, combine, has_pair, lemma_combine_facts, lemma_slid_settled,
    lemma_tiles_of_append, lemma_tiles_of_facts, lemma_tiles_of_nonzero, lemma_tiles_of_zero,
    pad_zeros, slid, tiles_of,
};
use vstd::prelude::*;

verus! {

/// Right, Up and Down are Left conjugated by a symmetry: mirror the grid (rows for Right, the
/// diagonal for Up, the diagonal then rows for Down), push left, and mirror back. The points
/// earned are those of the left push of the mirrored grid.
pub proof fn lemma_symmetry_round_trip(g: Seq<Seq<u8>>)
    ensures
        moved(g, Direction::Right) == flipped(moved(flipped(g), Direction::Left)),
        moved(g, Direction::Up) == transposed(moved(transposed(g), Direction::Left)),
        moved(g, Direction::Down) == transposed(
            flipped(moved(flipped(transposed(g)), Direction::Left)),
        ),
        move_score(g, Direction::Right) == move_score(flipped(g), Direction::Left),
        move_score(g, Direction::Up) == move_score(transposed(g), Direction::Left),
        move_score(g, Direction::Down) == move_score(flipped(transposed(g)), Direction::Left),
{
}

/// A push to the left never moves a tile rightward: for every row and every column `c`, the
/// tiles at columns `c` and beyond are no more after the move than before. A row without
/// tiles stays as it is.
pub proof fn lemma_left_never_moves_right(g: Seq<Seq<u8>>, r: int, c: int)
    requires
        is_grid(g),
        grid_below_limit(g),
        0 <= r < 4,
        0 <= c <= 4,
    ensures
        tiles_of(moved(g, Direction::Left)[r].subrange(c, 4)).len() <= tiles_of(
            g[r].subrange(c, 4),
        ).len(),
        all_zero(g[r]) ==> moved(g, Direction::Left)[r] == g[r],
{
    let s = g[r];
    let t = tiles_of(s);
    let m = combine(t);
    let n = slid(s);
    assert(moved(g, Direction::Left)[r] == n);
    lemma_tiles_of_facts(s);
    lemma_combine_facts(t);
    // Before: at most `c` tiles stand left of column `c`.
    assert(s == s.subrange(0, c) + s.subrange(c, 4));
    lemma_tiles_of_append(s.subrange(0, c), s.subrange(c, 4));
    lemma_tiles_of_facts(s.subrange(0, c));
    // After: the tiles are packed at the front.
    if c <= m.len() {
        let z = Seq::new((4 - m.len()) as nat, |i: int| 0u8);
        assert(n.subrange(c, 4) == m.subrange(c, m.len() as int) + z);
        lemma_tiles_of_append(m.subrange(c, m.len() as int), z);
        lemma_tiles_of_nonzero(m.subrange(c, m.len() as int));
        lemma_tiles_of_zero(z);
        assert(m.subrange(c, m.len() as int) + Seq::<u8>::empty() == m.subrange(
            c,
            m.len() as int,
        ));
    } else {
        lemma_tiles_of_zero(n.subrange(c, 4));
    }
    if all_zero(s) {
        lemma_tiles_of_zero(s);
        assert(n == s);
    }
}

/// Repeating a move without a new tile in between changes nothing exactly when the first
/// move left no two equal tiles next to each other along the direction of the move.
pub proof fn lemma_repeat_move_settled(g: Seq<Seq<u8>>, d: Direction)
    requires
        is_grid(g),
        grid_below_limit(g),
    ensures
        moved(moved(g, d), d) == moved(g, d) <==> forall|r: int|
            0 <= r < 4 ==> !has_pair(#[trigger] to_left(moved(g, d), d)[r]),
{
    lemma_to_from_left(g, d);
    let x = to_left(g, d);
    let l = slide_left(x);
    lemma_symmetries(x);
    lemma_to_from_left(l, d);
    lemma_symmetries(l);
    assert(to_left(moved(g, d), d) == l);
    assert forall|r: int| 0 <= r < 4 implies (#[trigger] slid(l[r]) == l[r] <==> !has_pair(l[r])) by {
        assert(crate::row::below_limit(x[r]));
        lemma_tiles_of_facts(x[r]);
        lemma_combine_facts(tiles_of(x[r]));
        lemma_slid_settled(l[r], combine(tiles_of(x[r])));
    }
    if forall|r: int| 0 <= r < 4 ==> !has_pair(#[trigger] l[r]) {
        assert(slide_left(l) =~~= l);
    } else {
        let r = choose|r: int| 0 <= r < 4 && has_pair(#[trigger] l[r]);
        assert(slide_left(l)[r] != l[r]);
        lemma_to_from_left(slide_left(l), d);
        if moved(moved(g, d), d) == moved(g, d) {
            assert(to_left(from_left(slide_left(l), d), d) == to_left(from_left(l, d), d));
        }
    }
}

/// A full grid with no two equal neighbours in any row or column admits no move.
pub proof fn lemma_full_without_pairs_is_terminal(g: Seq<Seq<u8>>)
    requires
        is_grid(g),
        forall|r: int, c: int| 0 <= r < 4 && 0 <= c < 4 ==> #[trigger] g[r][c] != 0,
        forall|r: int, c: int| 0 <= r < 4 && 0 <= c < 3 ==> #[trigger] g[r][c] != g[r][c + 1],
        forall|r: int, c: int| 0 <= r < 3 && 0 <= c < 4 ==> #[trigger] g[r][c] != g[r + 1][c],
    ensures
        terminal(g),
{
    assert forall|d: Direction| moved(g, d) == g by {
        lemma_to_from_left(g, d);
        let x = to_left(g, d);
        assert forall|r: int| 0 <= r < 4 implies #[trigger] slid(x[r]) == x[r] by {
            assert forall|c: int| 0 <= c < 4 implies #[trigger] x[r][c] != 0 by {
                assert(g[r][c] != 0 && g[r][3 - c] != 0 && g[c][r] != 0 && g[3 - c][r] != 0);
            }
            assert(!has_pair(x[r])) by {
                assert forall|c: int| 0 <= c < 3 implies #[trigger] x[r][c] != x[r][c + 1] by {
                    assert(g[r][c] != g[r][c + 1]);
                    assert(g[r][2 - c] != g[r][3 - c]);
                    assert(g[c][r] != g[c + 1][r]);
                    assert(g[2 - c][r] != g[3 - c][r]);
                }
            }
            assert(pad_zeros(x[r], 4) == x[r]);
            lemma_slid_settled(x[r], x[r]);
        }
        assert(slide_left(x) =~~= x);
    }
}

/// A grid on which some move changes something is not terminal.
pub proof fn lemma_changing_move_not_terminal(g: Seq<Seq<u8>>, d: Direction)
    requires
        moved(g, d) != g,
    ensures
        !terminal(g),
{
}

} // verus!
