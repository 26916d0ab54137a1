use tile_merge::board::{Board, Direction, Tile};
use tile_merge::policy::{best_candidate, select_move, score_candidates, Candidate};
use tile_merge::policy::Candidate::{Illegal, Scored};
use tile_merge::row::{compress_row, merge_row, pow2_u64, same_row, slide_row};
use tile_merge::spawn::SpawnError;

fn board(values: [[u8; 4]; 4]) -> Board {
    Board::from_values(values)
}

fn nonzero_count(b: &Board) -> usize {
    let mut n = 0;
    for r in 0..4 {
        for c in 0..4 {
            if b.value(r, c) != 0 {
                n += 1;
            }
        }
    }
    n
}

fn mirrored_rows(v: [[u8; 4]; 4]) -> [[u8; 4]; 4] {
    let mut out = [[0u8; 4]; 4];
    for r in 0..4 {
        for c in 0..4 {
            out[r][c] = v[r][3 - c];
        }
    }
    out
}

fn mirrored_diagonal(v: [[u8; 4]; 4]) -> [[u8; 4]; 4] {
    let mut out = [[0u8; 4]; 4];
    for r in 0..4 {
        for c in 0..4 {
            out[r][c] = v[c][r];
        }
    }
    out
}

fn left_of(v: [[u8; 4]; 4]) -> ([[u8; 4]; 4], u64) {
    let mut b = board(v);
    let (score, _) = b.execute_move(Direction::Left);
    (b.values(), score)
}

#[test]
fn pair_in_first_row_merges_left() {
    let mut b = board([[1, 1, 0, 0], [0; 4], [0; 4], [0; 4]]);
    let (score, changed) = b.execute_move(Direction::Left);
    assert_eq!(b.values(), [[2, 0, 0, 0], [0; 4], [0; 4], [0; 4]]);
    assert_eq!(score, 4);
    assert!(changed);
}

#[test]
fn two_pairs_score_sum_of_merges() {
    let mut b = board([[1, 1, 2, 2], [0; 4], [0; 4], [0; 4]]);
    let (score, changed) = b.execute_move(Direction::Left);
    assert_eq!(b.values()[0], [2, 3, 0, 0]);
    assert_eq!(score, 12);
    assert!(changed);
}

#[test]
fn merged_tile_does_not_merge_again() {
    let mut b = board([[1, 1, 2, 0], [2, 2, 2, 2], [3, 3, 3, 0], [0, 1, 0, 1]]);
    let (score, changed) = b.execute_move(Direction::Left);
    assert_eq!(
        b.values(),
        [[2, 2, 0, 0], [3, 3, 0, 0], [4, 3, 0, 0], [2, 0, 0, 0]]
    );
    assert_eq!(score, 4 + 8 + 8 + 16 + 4);
    assert!(changed);
}

#[test]
fn move_right_up_down_exact() {
    let start = [[1, 1, 0, 2], [0, 0, 3, 0], [1, 0, 3, 0], [1, 2, 0, 2]];
    let mut b = board(start);
    let (s, ch) = b.execute_move(Direction::Right);
    assert_eq!(b.values(), [[0, 0, 2, 2], [0, 0, 0, 3], [0, 0, 1, 3], [0, 0, 1, 3]]);
    assert_eq!((s, ch), (4 + 8, true));

    let mut b = board(start);
    let (s, ch) = b.execute_move(Direction::Up);
    assert_eq!(b.values(), [[2, 1, 4, 3], [1, 2, 0, 0], [0, 0, 0, 0], [0, 0, 0, 0]]);
    assert_eq!((s, ch), (4 + 16 + 8, true));

    let mut b = board(start);
    let (s, ch) = b.execute_move(Direction::Down);
    assert_eq!(b.values(), [[0, 0, 0, 0], [0, 0, 0, 0], [1, 1, 0, 0], [2, 2, 4, 3]]);
    assert_eq!((s, ch), (4 + 16 + 8, true));
}

#[test]
fn empty_and_settled_rows_do_not_change() {
    let mut b = board([[0; 4], [1, 2, 3, 4], [0; 4], [0; 4]]);
    let (score, changed) = b.execute_move(Direction::Left);
    assert_eq!(b.values(), [[0; 4], [1, 2, 3, 4], [0; 4], [0; 4]]);
    assert_eq!(score, 0);
    assert!(!changed);
}

#[test]
fn left_never_moves_a_tile_rightward() {
    let start = [[0, 3, 0, 3], [2, 0, 0, 1], [0, 0, 0, 5], [4, 4, 4, 4]];
    let (after, _) = left_of(start);
    for r in 0..4 {
        for c in 0..=4 {
            let before_right = start[r][c..].iter().filter(|v| **v != 0).count();
            let after_right = after[r][c..].iter().filter(|v| **v != 0).count();
            assert!(after_right <= before_right);
        }
    }
}

#[test]
fn second_move_is_a_no_op() {
    let mut b = board([[1, 0, 1, 0], [0, 2, 0, 3], [4, 0, 0, 4], [0, 0, 0, 0]]);
    let (_, first) = b.execute_move(Direction::Left);
    assert!(first);
    let settled = b.values();
    let (score, second) = b.execute_move(Direction::Left);
    assert!(!second);
    assert_eq!(score, 0);
    assert_eq!(b.values(), settled);
}

#[test]
fn second_move_merges_when_pairs_remain() {
    let mut b = board([[1, 1, 2, 0], [0; 4], [0; 4], [0; 4]]);
    b.execute_move(Direction::Left);
    assert_eq!(b.values()[0], [2, 2, 0, 0]);
    let (score, changed) = b.execute_move(Direction::Left);
    assert!(changed);
    assert_eq!(score, 8);
    assert_eq!(b.values()[0], [3, 0, 0, 0]);
}

#[test]
fn directions_are_mirrored_left_moves() {
    let start = [[1, 1, 0, 2], [2, 0, 2, 3], [1, 5, 5, 0], [1, 2, 0, 2]];
    let mut b = board(start);
    let (score, _) = b.execute_move(Direction::Right);
    let (l, ls) = left_of(mirrored_rows(start));
    assert_eq!(b.values(), mirrored_rows(l));
    assert_eq!(score, ls);

    let mut b = board(start);
    let (score, _) = b.execute_move(Direction::Up);
    let (l, ls) = left_of(mirrored_diagonal(start));
    assert_eq!(b.values(), mirrored_diagonal(l));
    assert_eq!(score, ls);

    let mut b = board(start);
    let (score, _) = b.execute_move(Direction::Down);
    let (l, ls) = left_of(mirrored_rows(mirrored_diagonal(start)));
    assert_eq!(b.values(), mirrored_diagonal(mirrored_rows(l)));
    assert_eq!(score, ls);
}

#[test]
fn full_board_without_pairs_is_terminal() {
    let b = board([[1, 2, 1, 2], [2, 1, 2, 1], [1, 2, 1, 2], [2, 1, 2, 1]]);
    assert!(b.is_terminal());
}

#[test]
fn board_with_a_legal_move_is_not_terminal() {
    let full_with_pair = board([[1, 2, 1, 2], [2, 1, 2, 1], [1, 2, 1, 2], [2, 1, 2, 2]]);
    assert!(!full_with_pair.is_terminal());
    let with_gap = board([[1, 2, 1, 2], [2, 1, 2, 1], [1, 2, 1, 2], [2, 1, 2, 0]]);
    assert!(!with_gap.is_terminal());
    assert_eq!(with_gap.value(3, 3), 0);
}

#[test]
fn empty_board_is_terminal() {
    assert!(Board::new().is_terminal());
}

#[test]
fn spawn_adds_one_tile_of_exponent_one_or_two() {
    let mut b = board([[1, 0, 2, 0], [0; 4], [3, 3, 0, 0], [0; 4]]);
    let before = b.values();
    let n = nonzero_count(&b);
    assert_eq!(b.count_empty(), 16 - n);
    assert_eq!(b.spawn_tile(), Ok(()));
    assert_eq!(nonzero_count(&b), n + 1);
    let after = b.values();
    let mut changed = 0;
    for r in 0..4 {
        for c in 0..4 {
            if before[r][c] != after[r][c] {
                changed += 1;
                assert_eq!(before[r][c], 0);
                assert!(after[r][c] == 1 || after[r][c] == 2);
            }
        }
    }
    assert_eq!(changed, 1);
}

#[test]
fn spawn_fills_the_last_empty_cell() {
    let mut b = board([[1, 2, 1, 2], [2, 1, 2, 1], [1, 2, 0, 2], [2, 1, 2, 1]]);
    assert_eq!(b.spawn_tile(), Ok(()));
    assert!(b.value(2, 2) == 1 || b.value(2, 2) == 2);
    assert_eq!(b.count_empty(), 0);
}

#[test]
fn spawn_on_full_board_fails() {
    let start = [[1, 2, 1, 2], [2, 1, 2, 1], [1, 2, 1, 2], [2, 1, 2, 1]];
    let mut b = board(start);
    assert_eq!(b.spawn_tile(), Err(SpawnError::BoardFull));
    assert_eq!(b.values(), start);
}

#[test]
fn spawn_value_is_two_about_one_time_in_ten() {
    macroquad::rand::srand(20240917);
    let trials = 20000;
    let mut twos = 0;
    for _ in 0..trials {
        let mut b = Board::new();
        b.spawn_tile().unwrap();
        let mut found = 0;
        for r in 0..4 {
            for c in 0..4 {
                if b.value(r, c) != 0 {
                    found = b.value(r, c);
                }
            }
        }
        assert!(found == 1 || found == 2);
        if found == 2 {
            twos += 1;
        }
    }
    let share = twos as f64 / trials as f64;
    assert!(share > 0.08 && share < 0.12, "share of exponent two: {}", share);
}

#[test]
fn spawn_at_picks_the_kth_empty_cell() {
    let mut b = board([[1, 0, 2, 0], [0, 1, 1, 1], [1; 4], [1; 4]]);
    b.spawn_at(2, 0);
    assert_eq!(b.values()[1], [2, 1, 1, 1]);
    let mut b = board([[1, 0, 2, 0], [0, 1, 1, 1], [1; 4], [1; 4]]);
    b.spawn_at(0, 7);
    assert_eq!(b.values()[0], [1, 1, 2, 0]);
}

#[test]
fn clear_empties_every_cell() {
    let mut b = board([[1, 2, 3, 4], [5, 6, 7, 8], [1, 2, 3, 4], [5, 6, 7, 8]]);
    b.clear();
    assert_eq!(b.values(), [[0; 4]; 4]);
    assert_eq!(b.count_empty(), 16);
}

#[test]
fn tiles_keep_their_positions() {
    let b = board([[0, 0, 0, 0], [0, 0, 7, 0], [0; 4], [0; 4]]);
    assert_eq!(b.tile(1, 2), Tile { row: 1, col: 2, value: 7 });
    assert_eq!(b.tile(3, 0), Tile { row: 3, col: 0, value: 0 });
}

#[test]
fn limit_check() {
    assert!(board([[31, 0, 0, 0], [0; 4], [0; 4], [0; 4]]).within_limit());
    assert!(!board([[32, 0, 0, 0], [0; 4], [0; 4], [0; 4]]).within_limit());
    let mut b = board([[31, 31, 0, 0], [0; 4], [0; 4], [0; 4]]);
    let (score, _) = b.execute_move(Direction::Left);
    assert_eq!(b.value(0, 0), 32);
    assert_eq!(score, 1u64 << 32);
}

#[test]
fn best_candidate_takes_first_highest() {
    assert_eq!(best_candidate(&[Scored(5), Scored(9), Scored(9), Illegal]), 1);
    assert_eq!(best_candidate(&[Illegal, Scored(0), Illegal, Scored(0)]), 1);
    assert_eq!(best_candidate(&[Illegal, Illegal, Illegal, Scored(3)]), 3);
    assert_eq!(best_candidate(&[Scored(0), Scored(0), Scored(0), Scored(0)]), 0);
    assert_eq!(best_candidate(&[Illegal; 4]), 0);
}

#[test]
fn select_move_takes_the_only_legal_direction() {
    let b = board([[1, 0, 0, 0], [2, 0, 0, 0], [3, 0, 0, 0], [4, 0, 0, 0]]);
    assert_eq!(select_move(&b, 20, 10), Direction::Right);
    assert_eq!(b.values()[0], [1, 0, 0, 0]);
}

#[test]
fn select_move_returns_a_changing_direction() {
    macroquad::rand::srand(7);
    let start = [[1, 2, 1, 2], [2, 1, 2, 1], [1, 2, 1, 2], [0, 1, 2, 1]];
    let b = board(start);
    let d = select_move(&b, 30, 20);
    let mut copy = b;
    let (_, changed) = copy.execute_move(d);
    assert!(changed);
    assert!(d == Direction::Down || d == Direction::Left);
}

#[test]
fn candidates_mark_illegal_moves() {
    let b = board([[1, 0, 0, 0], [2, 0, 0, 0], [3, 0, 0, 0], [4, 0, 0, 0]]);
    let c = score_candidates(&b, 5, 3);
    assert_eq!(c[0], Candidate::Illegal);
    assert!(matches!(c[1], Candidate::Scored(_)));
    assert_eq!(c[2], Candidate::Illegal);
    assert_eq!(c[3], Candidate::Illegal);
}

#[test]
fn row_steps() {
    let (packed, k) = compress_row([0, 3, 0, 3]);
    assert_eq!((packed, k), ([3, 3, 0, 0], 2));
    assert_eq!(merge_row(packed, k), ([4, 0, 0, 0], 16));
    assert_eq!(slide_row([2, 0, 2, 2]), ([3, 2, 0, 0], 8));
    assert_eq!(pow2_u64(0), 1);
    assert_eq!(pow2_u64(10), 1024);
    assert!(same_row(&[1, 2, 3, 4], &[1, 2, 3, 4]));
    assert!(!same_row(&[1, 2, 3, 4], &[1, 2, 4, 3]));
}
