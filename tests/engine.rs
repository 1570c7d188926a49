use rand::rngs::StdRng;
use rand::SeedableRng;
use sudoku::generator::{build_puzzle, generate, GenerateError};
use sudoku::grid::{get_block_values, is_valid, Board};
use sudoku::solver::{fill_rest, seed_diagonals, solve_seeded};
use sudoku::state::{GridState, SetValueError};

const SOLVED: Board = [
    [5, 3, 4, 6, 7, 8, 9, 1, 2],
    [6, 7, 2, 1, 9, 5, 3, 4, 8],
    [1, 9, 8, 3, 4, 2, 5, 6, 7],
    [8, 5, 9, 7, 6, 1, 4, 2, 3],
    [4, 2, 6, 8, 5, 3, 7, 9, 1],
    [7, 1, 3, 9, 2, 4, 8, 5, 6],
    [9, 6, 1, 5, 3, 7, 2, 8, 4],
    [2, 8, 7, 4, 1, 9, 6, 3, 5],
    [3, 4, 5, 2, 8, 6, 1, 7, 9],
];

const ORDERED: [u8; 9] = [1, 2, 3, 4, 5, 6, 7, 8, 9];

fn is_permutation(values: [u8; 9]) -> bool {
    let mut seen = [false; 10];
    for v in values {
        if v == 0 || v > 9 || seen[v as usize] {
            return false;
        }
        seen[v as usize] = true;
    }
    true
}

fn assert_solution(b: &Board) {
    for r in 0..9 {
        assert!(is_permutation(b[r]), "row {}", r);
    }
    for c in 0..9 {
        let col: [u8; 9] = core::array::from_fn(|r| b[r][c]);
        assert!(is_permutation(col), "column {}", c);
    }
    for k in 0..9 {
        assert!(is_permutation(get_block_values(b, 3 * (k / 3), 3 * (k % 3))), "block {}", k);
    }
}

fn snapshot(s: &GridState) -> Vec<(u8, bool, bool)> {
    let mut out = Vec::new();
    for r in 0..9 {
        for c in 0..9 {
            out.push((s.get_value(r, c), s.get_given_flag(r, c), s.get_validity(r, c)));
        }
    }
    out
}

fn empty_count(s: &GridState) -> usize {
    snapshot(s).iter().filter(|cell| cell.0 == 0).count()
}

#[test]
fn is_valid_rejects_value_in_row() {
    let mut b: Board = [[0; 9]; 9];
    b[4][8] = 7;
    assert!(!is_valid(&b, 4, 0, 7));
    assert!(is_valid(&b, 4, 0, 6));
}

#[test]
fn is_valid_rejects_value_in_column() {
    let mut b: Board = [[0; 9]; 9];
    b[8][2] = 3;
    assert!(!is_valid(&b, 0, 2, 3));
    assert!(is_valid(&b, 0, 3, 3));
}

#[test]
fn is_valid_rejects_value_in_block() {
    let mut b: Board = [[0; 9]; 9];
    b[5][5] = 9;
    assert!(!is_valid(&b, 3, 3, 9));
    assert!(is_valid(&b, 2, 2, 9));
}

#[test]
fn is_valid_ignores_the_cell_itself() {
    let mut b: Board = [[0; 9]; 9];
    b[0][0] = 5;
    assert!(is_valid(&b, 0, 0, 5));
    assert!(is_valid(&SOLVED, 0, 0, 5));
    assert!(!is_valid(&SOLVED, 0, 0, 3));
}

#[test]
fn block_values_read_row_by_row() {
    assert_eq!(get_block_values(&SOLVED, 4, 7), [4, 2, 3, 7, 9, 1, 8, 5, 6]);
    assert_eq!(get_block_values(&SOLVED, 0, 0), [5, 3, 4, 6, 7, 2, 1, 9, 8]);
}

#[test]
fn fill_rest_completes_empty_grid() {
    let mut b: Board = [[0; 9]; 9];
    assert!(fill_rest(&mut b, 0, 0));
    assert_solution(&b);
    assert_eq!(b[0], [1, 2, 3, 4, 5, 6, 7, 8, 9]);
    assert_eq!(b[1], [4, 5, 6, 7, 8, 9, 1, 2, 3]);
    assert_eq!(b[2], [7, 8, 9, 1, 2, 3, 4, 5, 6]);
}

#[test]
fn fill_rest_keeps_filled_cells() {
    let mut b: Board = SOLVED;
    for c in 0..9 {
        b[4][c] = 0;
    }
    b[0][0] = 0;
    assert!(fill_rest(&mut b, 0, 0));
    assert_eq!(b, SOLVED);
}

#[test]
fn fill_rest_failure_leaves_grid_unchanged() {
    let mut b: Board = [[0; 9]; 9];
    for c in 0..8 {
        b[0][c] = c as u8 + 1;
    }
    b[1][8] = 9;
    let before = b;
    assert!(!fill_rest(&mut b, 0, 0));
    assert_eq!(b, before);
}

#[test]
fn seed_diagonals_fills_only_diagonal_blocks() {
    let digits = [[9, 8, 7, 6, 5, 4, 3, 2, 1], ORDERED, [2, 4, 6, 8, 1, 3, 5, 7, 9]];
    let b = seed_diagonals(&digits);
    assert_eq!(b[0], [9, 8, 7, 0, 0, 0, 0, 0, 0]);
    assert_eq!(b[2], [3, 2, 1, 0, 0, 0, 0, 0, 0]);
    assert_eq!(b[4], [0, 0, 0, 4, 5, 6, 0, 0, 0]);
    assert_eq!(b[8], [0, 0, 0, 0, 0, 0, 5, 7, 9]);
    let filled = b.iter().flatten().filter(|v| **v != 0).count();
    assert_eq!(filled, 27);
}

#[test]
fn solve_seeded_keeps_seeds() {
    let digits = [[9, 8, 7, 6, 5, 4, 3, 2, 1], ORDERED, [2, 4, 6, 8, 1, 3, 5, 7, 9]];
    let seeds = seed_diagonals(&digits);
    let solution = solve_seeded(&digits).expect("a diagonal seeding is always completable");
    assert_solution(&solution);
    for r in 0..9 {
        for c in 0..9 {
            if seeds[r][c] != 0 {
                assert_eq!(solution[r][c], seeds[r][c]);
            }
        }
    }
}

#[test]
fn carve_clears_listed_cells() {
    let s = GridState::carve(&SOLVED, &vec![0, 5, 80]);
    assert_eq!(empty_count(&s), 3);
    assert_eq!(s.get_value(0, 0), 0);
    assert!(!s.get_given_flag(0, 5));
    assert_eq!(s.get_value(8, 8), 0);
    assert_eq!(s.get_value(0, 1), 3);
    assert!(s.get_given_flag(0, 1));
    for cell in snapshot(&s) {
        assert!(cell.2);
        assert_eq!(cell.0 == 0, !cell.1);
    }
}

#[test]
fn scenario_two_carved_cells_in_row_zero() {
    let mut s = GridState::carve(&SOLVED, &vec![0, 5]);
    assert_eq!(s.set_value(0, 0, 5), Ok(true));
    assert_eq!(s.set_value(0, 0, 3), Ok(false));
    assert_eq!(s.get_value(0, 0), 3);
    assert!(!s.get_validity(0, 0));
}

#[test]
fn set_value_on_given_cell_is_refused() {
    let mut s = GridState::carve(&SOLVED, &vec![0]);
    let before = snapshot(&s);
    assert_eq!(s.set_value(0, 1, 4), Err(SetValueError::InvalidOperation));
    assert_eq!(s.set_value(0, 1, 0), Err(SetValueError::InvalidOperation));
    assert_eq!(snapshot(&s), before);
}

#[test]
fn set_value_out_of_range_is_refused() {
    let mut s = GridState::carve(&SOLVED, &vec![0]);
    let before = snapshot(&s);
    assert_eq!(s.set_value(9, 0, 1), Err(SetValueError::InvalidArgument));
    assert_eq!(s.set_value(0, 9, 1), Err(SetValueError::InvalidArgument));
    assert_eq!(s.set_value(0, 0, 10), Err(SetValueError::InvalidArgument));
    assert_eq!(snapshot(&s), before);
}

#[test]
fn clearing_an_empty_cell_changes_nothing() {
    let mut s = GridState::carve(&SOLVED, &vec![0, 5]);
    let before = snapshot(&s);
    assert_eq!(s.set_value(0, 5, 0), Ok(true));
    assert_eq!(snapshot(&s), before);
}

#[test]
fn clearing_an_invalid_cell_makes_it_valid() {
    let mut s = GridState::carve(&SOLVED, &vec![0]);
    assert_eq!(s.set_value(0, 0, 9), Ok(false));
    assert_eq!(s.set_value(0, 0, 0), Ok(true));
    assert!(s.get_validity(0, 0));
    assert_eq!(s.get_value(0, 0), 0);
}

#[test]
fn solved_after_refilling_every_cell() {
    let mut s = GridState::carve(&SOLVED, &vec![0, 5, 40]);
    assert!(!s.is_solved());
    assert_eq!(s.set_value(0, 0, 5), Ok(true));
    assert_eq!(s.set_value(0, 5, 8), Ok(true));
    assert!(!s.is_solved());
    assert_eq!(s.set_value(4, 4, 5), Ok(true));
    assert!(s.is_solved());
}

#[test]
fn not_solved_with_an_invalid_flag() {
    let mut s = GridState::carve(&SOLVED, &vec![0]);
    assert_eq!(s.set_value(0, 0, 3), Ok(false));
    assert!(!s.is_solved());
    assert_eq!(s.set_value(0, 0, 5), Ok(true));
    assert!(s.is_solved());
}

#[test]
fn not_solved_with_one_empty_cell() {
    let s = GridState::carve(&SOLVED, &vec![80]);
    assert!(!s.is_solved());
    let full = GridState::carve(&SOLVED, &vec![]);
    assert!(full.is_solved());
}

#[test]
fn build_puzzle_clears_requested_cells() {
    let digits = [ORDERED, ORDERED, ORDERED];
    let s = build_puzzle(&digits, &vec![10, 20, 30, 40]).expect("completable");
    assert_eq!(empty_count(&s), 4);
    assert_eq!(s.get_value(1, 1), 0);
    assert_eq!(s.get_value(0, 0), 1);
    assert_eq!(s.get_value(4, 4), 0);
}

#[test]
fn generate_clears_exactly_k_cells() {
    let mut rng = StdRng::seed_from_u64(7);
    let s = generate(&mut rng, 45).expect("generation succeeds");
    assert_eq!(empty_count(&s), 45);
    for cell in snapshot(&s) {
        assert_eq!(cell.0 == 0, !cell.1);
        assert!(cell.0 <= 9);
        assert!(cell.2);
    }
}

#[test]
fn generate_with_no_removal_is_solved() {
    let mut rng = StdRng::seed_from_u64(11);
    let s = generate(&mut rng, 0).expect("generation succeeds");
    assert!(s.is_solved());
    let mut b: Board = [[0; 9]; 9];
    for r in 0..9 {
        for c in 0..9 {
            b[r][c] = s.get_value(r, c);
        }
    }
    assert_solution(&b);
}

#[test]
fn generate_can_clear_every_cell() {
    let mut rng = StdRng::seed_from_u64(3);
    let s = generate(&mut rng, 81).expect("generation succeeds");
    assert_eq!(empty_count(&s), 81);
}

#[test]
fn generate_rejects_too_many_removals() {
    let mut rng = StdRng::seed_from_u64(3);
    assert!(matches!(generate(&mut rng, 82), Err(GenerateError::InvalidRemovalCount)));
}

#[test]
fn generate_shuffles_diagonal_blocks() {
    let mut rng = StdRng::seed_from_u64(42);
    let s = generate(&mut rng, 0).expect("generation succeeds");
    let mut shuffled = false;
    for d in 0..3 {
        let mut block = [0u8; 9];
        for t in 0..9 {
            block[t] = s.get_value(3 * d + t / 3, 3 * d + t % 3);
        }
        assert!(is_permutation(block));
        shuffled |= block != ORDERED;
    }
    assert!(shuffled);
}

#[test]
fn generate_differs_between_seeds() {
    let a = generate(&mut StdRng::seed_from_u64(1), 40).expect("generation succeeds");
    let b = generate(&mut StdRng::seed_from_u64(2), 40).expect("generation succeeds");
    assert_ne!(snapshot(&a), snapshot(&b));
}

#[test]
fn build_puzzle_is_deterministic() {
    let digits = [[9, 8, 7, 6, 5, 4, 3, 2, 1], ORDERED, [2, 4, 6, 8, 1, 3, 5, 7, 9]];
    let a = build_puzzle(&digits, &vec![3, 14, 77]).expect("completable");
    let b = build_puzzle(&digits, &vec![3, 14, 77]).expect("completable");
    assert_eq!(snapshot(&a), snapshot(&b));
}

#[test]
fn solve_seeded_gives_first_completion_in_row_major_order() {
    let digits = [ORDERED, ORDERED, ORDERED];
    let solution = solve_seeded(&digits).expect("completable");
    assert_solution(&solution);
    // Columns 3..6 of the middle block hold 1 4 7 / 2 5 8 / 3 6 9, and likewise for
    // columns 6..9 of the last block, so the smallest choices for row 0 are these.
    assert_eq!(solution[0], [1, 2, 3, 5, 4, 7, 6, 9, 8]);
}
