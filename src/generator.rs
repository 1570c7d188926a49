use vstd::prelude::*;
use rand::rngs::StdRng;
use crate::grid::{Board, all_digits, in_grid, is_digit_permutation, is_solution, lemma_reordered_digits};
use crate::random::{sample_indices, shuffle_digits};
use crate::solver::{keeps_seeds, row_major_less, seeds_completable, solve_seeded};
use crate::state::GridState;

verus! {

/// The number of cells of the grid.
pub const CELL_COUNT: usize = 81;

/// The number of cells that a new game clears when the caller names no other.
pub const DEFAULT_REMOVALS: usize = 45;

/// Why no puzzle was produced.
#[derive(Clone, Copy, Debug, PartialEq, Eq, Structural)]
pub enum GenerateError {
    /// More cells were to be cleared than the grid has.
    InvalidRemovalCount,
    /// The search found no completion of the seeded grid.
    SearchExhausted,
}

/// Builds a puzzle from the three diagonal blocks `digits` and the flat indices `removed`
/// of the cells to clear: the blocks are seeded, the grid is completed by the backtracking
/// search to the first solution in row-major order that keeps the seeds, and the listed
/// cells are cleared.
pub fn build_puzzle(digits: &[[u8; 9]; 3], removed: &Vec<usize>) -> (r: Result<GridState, GenerateError>)
    requires
        forall|d: int| 0 <= d < 3 ==> is_digit_permutation(#[trigger] digits[d]@),
        removed@.no_duplicates(),
        forall|i: int| 0 <= i < removed@.len() ==> #[trigger] removed@[i] < 81,
    ensures
        r is Err <==> !seeds_completable(*digits),
        r is Err ==> r == Err::<GridState, GenerateError>(GenerateError::SearchExhausted),
        r matches Ok(s) ==> {
            &&& s.wf()
            &&& s.empty_cells().finite()
            &&& s.empty_cells().len() == removed@.len()
            &&& exists|sol: Board| {
                &&& is_solution(sol)
                &&& keeps_seeds(*digits, sol)
                &&& forall|t: Board| is_solution(t) && #[trigger] keeps_seeds(*digits, t) ==> !row_major_less(t, sol)
                &&& s.carved_from(sol, removed@)
            }
        },
{
    match solve_seeded(digits) {
        Some(solution) => {
            let s = GridState::carve(&solution, removed);
            proof {
                s.lemma_carved_empty_count(solution, removed@);
            }
            Ok(s)
        },
        None => Err(GenerateError::SearchExhausted),
    }
}

/// Generates a puzzle with `k` empty cells: each diagonal block is seeded with a shuffle
/// of 1..=9 drawn from `rng`, the grid is completed by backtracking, and `k` distinct cells
/// drawn from `rng` are cleared. Every other cell is given with its solved value.
pub fn generate(rng: &mut StdRng, k: usize) -> (r: Result<GridState, GenerateError>)
    ensures
        k > CELL_COUNT <==> r == Err::<GridState, GenerateError>(GenerateError::InvalidRemovalCount),
        r == Err::<GridState, GenerateError>(GenerateError::SearchExhausted) ==> exists|d: [[u8; 9]; 3]|
            (forall|t: int| 0 <= t < 3 ==> is_digit_permutation(#[trigger] d[t]@)) && !seeds_completable(d),
        r matches Ok(s) ==> {
            &&& s.wf()
            &&& s.empty_cells().finite()
            &&& s.empty_cells().len() == k
            &&& forall|i: int, j: int| #[trigger] in_grid(i, j) ==> (s.value(i, j) == 0 <==> !s.is_given(i, j))
            &&& forall|i: int, j: int| #[trigger] in_grid(i, j) ==> s.validity(i, j)
            &&& exists|sol: Board| is_solution(sol) && forall|i: int, j: int| #[trigger] in_grid(i, j) && s.is_given(i, j) ==> s.value(i, j) == sol[i][j]
        },
{
    if k > CELL_COUNT {
        return Err(GenerateError::InvalidRemovalCount);
    }
    let mut first: [u8; 9] = [1, 2, 3, 4, 5, 6, 7, 8, 9];
    let mut second: [u8; 9] = [1, 2, 3, 4, 5, 6, 7, 8, 9];
    let mut third: [u8; 9] = [1, 2, 3, 4, 5, 6, 7, 8, 9];
    assert(first@ =~= all_digits());
    assert(second@ =~= all_digits());
    assert(third@ =~= all_digits());
    shuffle_digits(&mut first, rng);
    shuffle_digits(&mut second, rng);
    shuffle_digits(&mut third, rng);
    proof {
        lemma_reordered_digits(first@);
        lemma_reordered_digits(second@);
        lemma_reordered_digits(third@);
    }
    let digits: [[u8; 9]; 3] = [first, second, third];
    assert forall|d: int| 0 <= d < 3 implies is_digit_permutation(#[trigger] digits[d]@) by {
        if d == 0 {
            assert(digits[d] == first);
        } else if d == 1 {
            assert(digits[d] == second);
        } else {
            assert(digits[d] == third);
        }
    }
    let removed = sample_indices(rng, CELL_COUNT, k);
    let r = build_puzzle(&digits, &removed);
    if let Ok(s) = &r {
        assert forall|i: int, j: int| #[trigger] in_grid(i, j) implies (s.value(i, j) == 0 <==> !s.is_given(i, j)) && s.validity(i, j) by {
            s.lemma_carved_empty_count(choose|sol: Board| is_solution(sol) && s.carved_from(sol, removed@), removed@);
        }
    }
    r
}

} // verus!
