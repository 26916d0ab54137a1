//! Move selection by random rollouts: each legal first move is followed by many random
//! games, and the direction with the highest total score is chosen.

use crate::board::{direction_at, grid_below_limit, move_score, moved, Board, Direction};
use crate::spawn::random_below;
use vstd::prelude::*;

verus! {

/// The estimate for one first move.
#[derive(Clone, Copy, Debug, PartialEq, Eq, Structural)]
pub enum Candidate {
    /// The move changes nothing and is never chosen while a legal move exists.
    Illegal,
    /// The score of the first move plus the scores of all rollouts after it.
    Scored(u64),
}

/// Candidate `i` is the first of the highest scored candidates.
pub open spec fn is_best(c: Seq<Candidate>, i: int) -> bool {
    &&& 0 <= i < c.len()
    &&& c[i] is Scored
    &&& forall|j: int|
        0 <= j < i && (#[trigger] c[j]) is Scored ==> c[j]->Scored_0 < c[i]->Scored_0
    &&& forall|j: int|
        i < j < c.len() && (#[trigger] c[j]) is Scored ==> c[j]->Scored_0 <= c[i]->Scored_0
}

/// Some candidate is scored.
pub open spec fn any_scored(c: Seq<Candidate>) -> bool {
    exists|j: int| 0 <= j < c.len() && (#[trigger] c[j]) is Scored
}

/// Candidate `i` stands for a move that changes the grid exactly when it is scored.
pub open spec fn legality_matches(c: Seq<Candidate>, g: Seq<Seq<u8>>) -> bool {
    c.len() == 4 && forall|i: int|
        0 <= i < 4 ==> ((#[trigger] c[i]) is Illegal <==> moved(g, direction_at(i)) == g)
}

/// The direction at position `i` of the order Left, Right, Up, Down.
pub fn direction_of_index(i: usize) -> (d: Direction)
    requires
        i < 4,
    ensures
        d == direction_at(i as int),
{
    if i == 0 {
        Direction::Left
    } else if i == 1 {
        Direction::Right
    } else if i == 2 {
        Direction::Up
    } else {
        Direction::Down
    }
}

/// The index of the first candidate with the strictly highest score, scanning Left, Right, Up,
/// Down; `0` when every candidate is illegal.
pub fn best_candidate(c: &[Candidate; 4]) -> (r: usize)
    ensures
        r < 4,
        any_scored(c@) ==> is_best(c@, r as int),
        !any_scored(c@) ==> r == 0,
{
    let mut best_idx: usize = 0;
    let mut best: Option<u64> = None;
    for i in 0..4usize
        invariant
            best_idx < 4,
            best is None <==> (forall|j: int| 0 <= j < i ==> (#[trigger] c@[j]) is Illegal),
            best is None ==> best_idx == 0,
            best is Some ==> best_idx < i && c@[best_idx as int] == Candidate::Scored(best->Some_0),
            best is Some ==> forall|j: int|
                0 <= j < best_idx && (#[trigger] c@[j]) is Scored ==> c@[j]->Scored_0
                    < best->Some_0,
            best is Some ==> forall|j: int|
                best_idx < j < i && (#[trigger] c@[j]) is Scored ==> c@[j]->Scored_0
                    <= best->Some_0,
    {
        match c[i] {
            Candidate::Scored(s) => {
                let better = match best {
                    None => true,
                    Some(b) => s > b,
                };
                if better {
                    best = Some(s);
                    best_idx = i;
                }
            },
            Candidate::Illegal => {},
        }
    }
    proof {
        if any_scored(c@) {
            let j = choose|j: int| 0 <= j < 4 && (#[trigger] c@[j]) is Scored;
            assert(c@[j] is Scored);
        }
    }
    best_idx
}

/// One random game from `start`: up to `depth - 1` moves in uniformly random directions, each
/// followed by a new tile, ending early at the first move that changes nothing. Returns the
/// points earned.
fn rollout(start: &Board, depth: u32) -> (r: u64) {
    let mut board = *start;
    let mut total: u64 = 0;
    let mut move_number: u32 = 1;
    while move_number < depth
        decreases depth - move_number,
    {
        if !board.within_limit() {
            return total;
        }
        let d = direction_of_index(random_below(4));
        let (score, changed) = board.execute_move(d);
        if !changed {
            return total;
        }
        let _ = board.spawn_tile();
        total = total.saturating_add(score);
        move_number = move_number + 1;
    }
    total
}

/// The estimate of each first move, in the order Left, Right, Up, Down: illegal when the move
/// changes nothing, else its score plus the scores of `rollouts` random games of at most
/// `depth` moves played after it and a new tile.
pub fn score_candidates(board: &Board, depth: u32, rollouts: u32) -> (c: [Candidate; 4])
    requires
        grid_below_limit(board@),
    ensures
        legality_matches(c@, board@),
        forall|i: int|
            0 <= i < 4 && (#[trigger] c@[i]) is Scored ==> c@[i]->Scored_0 >= move_score(
                board@,
                direction_at(i),
            ),
{
    let mut c: [Candidate; 4] = [Candidate::Illegal; 4];
    for i in 0..4usize
        invariant
            grid_below_limit(board@),
            forall|j: int|
                0 <= j < i ==> ((#[trigger] c@[j]) is Illegal <==> moved(board@, direction_at(j))
                    == board@),
            forall|j: int|
                0 <= j < i && (#[trigger] c@[j]) is Scored ==> c@[j]->Scored_0 >= move_score(
                    board@,
                    direction_at(j),
                ),
    {
        let d = direction_of_index(i);
        let mut first = *board;
        let (score, changed) = first.execute_move(d);
        if changed {
            let _ = first.spawn_tile();
            let mut total: u64 = score;
            for _k in 0..rollouts
                invariant
                    total >= score,
            {
                total = total.saturating_add(rollout(&first, depth));
            }
            c[i] = Candidate::Scored(total);
        } else {
            c[i] = Candidate::Illegal;
        }
    }
    assert(legality_matches(c@, board@));
    c
}

/// Picks a direction by random rollouts (see `score_candidates`): the first of the highest
/// estimates, in the order Left, Right, Up, Down. Whenever some move changes the board, the
/// direction returned does.
pub fn select_move(board: &Board, depth: u32, rollouts: u32) -> (d: Direction)
    requires
        grid_below_limit(board@),
    ensures
        exists|c: Seq<Candidate>, i: int|
            #[trigger] legality_matches(c, board@) && #[trigger] direction_at(i) == d && 0 <= i < 4 && (any_scored(c)
                ==> is_best(c, i)) && (!any_scored(c) ==> i == 0),
        (exists|e: Direction| moved(board@, e) != board@) ==> moved(board@, d) != board@,
{
    let c = score_candidates(board, depth, rollouts);
    let i = best_candidate(&c);
    let d = direction_of_index(i);
    proof {
        if exists|e: Direction| moved(board@, e) != board@ {
            let e = choose|e: Direction| moved(board@, e) != board@;
            let k: int = match e {
                Direction::Left => 0,
                Direction::Right => 1,
                Direction::Up => 2,
                Direction::Down => 3,
            };
            assert(direction_at(k) == e);
            assert(c@[k] is Scored);
            assert(any_scored(c@));
        }
        assert(legality_matches(c@, board@) && d == direction_at(i as int) && 0 <= i < 4);
    }
    d
}

} // verus!
