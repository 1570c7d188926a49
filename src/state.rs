use vstd::prelude::*;
use crate::grid::{
    Board, digits_in_range, in_grid, is_full, is_solution, is_valid, occurs_elsewhere, peers,
};

verus! {

/// Why `GridState::set_value` refused to change the grid.
#[derive(Clone, Copy, Debug, PartialEq, Eq, Structural)]
pub enum SetValueError {
    /// The cell belongs to the generated puzzle and cannot be edited.
    InvalidOperation,
    /// The row, the column or the value is out of range.
    InvalidArgument,
}

/// The grid of a game in progress: the value of each cell, whether it was given by the
/// puzzle, and whether its value was free of conflicts when it was last written.
pub struct GridState {
    values: Board,
    given: [[bool; 9]; 9],
    valid: [[bool; 9]; 9],
}

impl GridState {
    pub closed spec fn board(&self) -> Board {
        self.values
    }

    pub open spec fn value(&self, r: int, c: int) -> u8 {
        self.board()[r][c]
    }

    pub closed spec fn is_given(&self, r: int, c: int) -> bool {
        self.given[r][c]
    }

    pub closed spec fn validity(&self, r: int, c: int) -> bool {
        self.valid[r][c]
    }

    /// Values are digits; given cells are filled and valid; empty cells are valid; and of two
    /// peers that hold the same digit, at least one is flagged invalid.
    pub closed spec fn wf(&self) -> bool {
        &&& digits_in_range(self.values)
        &&& forall|r: int, c: int| #[trigger] in_grid(r, c) && self.given[r][c]
            ==> self.values[r][c] != 0 && self.valid[r][c]
        &&& forall|r: int, c: int| #[trigger] in_grid(r, c) && self.values[r][c] == 0
            ==> self.valid[r][c]
        &&& forall|r1: int, c1: int, r2: int, c2: int|
            #![trigger self.values[r1][c1], self.values[r2][c2]]
            in_grid(r1, c1) && in_grid(r2, c2) && peers(r1, c1, r2, c2) && self.values[r1][c1] != 0
                && self.values[r1][c1] == self.values[r2][c2]
                ==> !self.valid[r1][c1] || !self.valid[r2][c2]
    }

    /// The flat indices `9 * row + col` of the empty cells.
    pub open spec fn empty_cells(&self) -> Set<int> {
        Set::new(|i: int| 0 <= i < 81 && self.value(i / 9, i % 9) == 0)
    }

    /// The state is `solution` with the cells at the flat indices `removed` cleared: those
    /// are empty and editable, every other cell is given with its solved value, and every
    /// flag is valid.
    pub open spec fn carved_from(&self, solution: Board, removed: Seq<usize>) -> bool {
        forall|r: int, c: int| #[trigger] in_grid(r, c) ==> {
            &&& self.value(r, c) == if removed.contains((9 * r + c) as usize) {
                0
            } else {
                solution[r][c]
            }
            &&& self.is_given(r, c) == !removed.contains((9 * r + c) as usize)
            &&& self.validity(r, c)
        }
    }

    /// Every cell is filled and flagged valid.
    pub open spec fn solved(&self) -> bool {
        forall|r: int, c: int| #[trigger] in_grid(r, c) ==> self.value(r, c) != 0 && self.validity(r, c)
    }

    /// The puzzle left from `solution` once the cells whose flat indices are listed in
    /// `removed` are cleared: those cells are empty and editable, every other cell is given
    /// with its solved value, and every flag is valid.
    pub fn carve(solution: &Board, removed: &Vec<usize>) -> (s: GridState)
        requires
            is_solution(*solution),
            forall|i: int| 0 <= i < removed@.len() ==> #[trigger] removed@[i] < 81,
        ensures
            s.wf(),
            s.carved_from(*solution, removed@),
    {
        let mut values: Board = *solution;
        let mut given: [[bool; 9]; 9] = [[true; 9]; 9];
        let valid: [[bool; 9]; 9] = [[true; 9]; 9];
        let mut t: usize = 0;
        while t < removed.len()
            invariant
                t <= removed@.len(),
                forall|i: int| 0 <= i < removed@.len() ==> #[trigger] removed@[i] < 81,
                forall|r: int, c: int| #[trigger] in_grid(r, c) ==> {
                    &&& values[r][c] == if removed@.take(t as int).contains((9 * r + c) as usize) {
                        0
                    } else {
                        solution[r][c]
                    }
                    &&& given[r][c] == !removed@.take(t as int).contains((9 * r + c) as usize)
                },
            decreases removed@.len() - t,
        {
            let idx = removed[t];
            let r: usize = idx / 9;
            let c: usize = idx % 9;
            values[r][c] = 0;
            given[r][c] = false;
            proof {
                assert(removed@.take(t + 1) == removed@.take(t as int).push(idx));
                assert forall|i: int, j: int| #[trigger] in_grid(i, j) implies {
                    &&& values[i][j] == if removed@.take(t + 1).contains((9 * i + j) as usize) {
                        0
                    } else {
                        solution[i][j]
                    }
                    &&& given[i][j] == !removed@.take(t + 1).contains((9 * i + j) as usize)
                } by {
                    assert(in_grid(i, j));
                    if i == r && j == c {
                        assert(removed@.take(t + 1)[t as int] == idx);
                    } else {
                        assert((9 * i + j) as usize != idx);
                    }
                }
            }
            t += 1;
        }
        assert(removed@.take(removed@.len() as int) == removed@);
        let s = GridState { values, given, valid };
        assert forall|r: int, c: int| #[trigger] in_grid(r, c) implies values[r][c] <= 9 by {
            assert(in_grid(r, c));
        }
        assert forall|r1: int, c1: int, r2: int, c2: int|
            in_grid(r1, c1) && in_grid(r2, c2) && peers(r1, c1, r2, c2) && values[r1][c1] != 0
                && #[trigger] values[r1][c1] == #[trigger] values[r2][c2]
            implies !valid[r1][c1] || !valid[r2][c2] by {
            assert(in_grid(r1, c1) && in_grid(r2, c2));
            assert(solution[r1][c1] != solution[r2][c2]);
        }
        s
    }
    /// Writes `value` at `(row, col)`, 0 clearing the cell, and returns the cell's new
    /// validity flag: true for an empty cell, else whether `value` is absent from the other
    /// cells of its row, column and block. Given cells and out-of-range arguments are refused
    /// and leave the state as it was.
    pub fn set_value(&mut self, row: usize, col: usize, value: u8) -> (r: Result<bool, SetValueError>)
        requires
            old(self).wf(),
        ensures
            final(self).wf(),
            row >= 9 || col >= 9 || value > 9 ==> r == Err::<bool, SetValueError>(
                SetValueError::InvalidArgument,
            ),
            row < 9 && col < 9 && value <= 9 && old(self).is_given(row as int, col as int) ==> r
                == Err::<bool, SetValueError>(SetValueError::InvalidOperation),
            r is Err ==> *final(self) == *old(self),
            row < 9 && col < 9 && value == 0 && !old(self).is_given(row as int, col as int)
                && old(self).value(row as int, col as int) == 0 ==> r == Ok::<bool, SetValueError>(
                true,
            ) && *final(self) == *old(self),
            row < 9 && col < 9 && value <= 9 && !old(self).is_given(row as int, col as int) ==> {
                &&& r == Ok::<bool, SetValueError>(
                    value == 0 || !occurs_elsewhere(old(self).board(), row as int, col as int, value),
                )
                &&& final(self).value(row as int, col as int) == value
                &&& final(self).validity(row as int, col as int) == r->Ok_0
                &&& forall|i: int, j: int| #[trigger] in_grid(i, j) && !(i == row && j == col) ==> {
                    &&& final(self).value(i, j) == old(self).value(i, j)
                    &&& final(self).validity(i, j) == old(self).validity(i, j)
                }
                &&& forall|i: int, j: int| #[trigger] in_grid(i, j) ==> final(self).is_given(i, j)
                    == old(self).is_given(i, j)
            },
    {
        if row >= 9 || col >= 9 || value > 9 {
            return Err(SetValueError::InvalidArgument);
        }
        if self.given[row][col] {
            return Err(SetValueError::InvalidOperation);
        }
        let ghost before = *self;
        let flag = value == 0 || is_valid(&self.values, row, col, value);
        self.values[row][col] = value;
        self.valid[row][col] = flag;
        proof {
            if value == 0 && before.values[row as int][col as int] == 0 {
                assert(in_grid(row as int, col as int));
                assert forall|i: int| 0 <= i < 9 implies #[trigger] self.values[i] =~= before.values[i] && self.valid[i] =~= before.valid[i] by {}
                assert(self.values =~= before.values);
                assert(self.valid =~= before.valid);
                assert(*self == before);
            }
            let v = self.values;
            assert forall|i: int, j: int| #[trigger] in_grid(i, j) && !(i == row && j == col) implies v[i][j] == before.values[i][j] && self.valid[i][j] == before.valid[i][j] by {}
            assert forall|r: int, c: int| #[trigger] in_grid(r, c) implies v[r][c] <= 9 by {
                assert(in_grid(r, c));
            }
            assert forall|r1: int, c1: int, r2: int, c2: int|
                in_grid(r1, c1) && in_grid(r2, c2) && peers(r1, c1, r2, c2) && v[r1][c1] != 0
                    && #[trigger] v[r1][c1] == #[trigger] v[r2][c2]
                implies !self.valid[r1][c1] || !self.valid[r2][c2] by {
                if r1 == row && c1 == col {
                    if flag {
                        assert(in_grid(r2, c2) && peers(row as int, col as int, r2, c2));
                    }
                } else if r2 == row && c2 == col {
                    if flag {
                        assert(in_grid(r1, c1) && peers(row as int, col as int, r1, c1));
                    }
                } else {
                    assert(in_grid(r1, c1) && in_grid(r2, c2));
                    assert(before.values[r1][c1] == before.values[r2][c2]);
                }
            }
        }
        Ok(flag)
    }

    /// Whether every cell is filled and flagged valid.
    pub fn is_solved(&self) -> (r: bool)
        ensures
            r == self.solved(),
    {
        let mut i: usize = 0;
        while i < 9
            invariant
                i <= 9,
                forall|r: int, c: int| #[trigger] in_grid(r, c) && r < i ==> self.value(r, c) != 0 && self.validity(r, c),
            decreases 9 - i,
        {
            let mut j: usize = 0;
            while j < 9
                invariant
                    i < 9,
                    j <= 9,
                    forall|r: int, c: int| #[trigger] in_grid(r, c) && (r < i || (r == i && c < j)) ==> self.value(r, c) != 0 && self.validity(r, c),
                decreases 9 - j,
            {
                if self.values[i][j] == 0 || !self.valid[i][j] {
                    assert(in_grid(i as int, j as int));
                    return false;
                }
                j += 1;
            }
            i += 1;
        }
        true
    }

    /// The value at `(row, col)`, 0 when the cell is empty.
    pub fn get_value(&self, row: usize, col: usize) -> (v: u8)
        requires
            row < 9,
            col < 9,
        ensures
            v == self.value(row as int, col as int),
    {
        self.values[row][col]
    }

    /// Whether `(row, col)` was given by the puzzle.
    pub fn get_given_flag(&self, row: usize, col: usize) -> (g: bool)
        requires
            row < 9,
            col < 9,
        ensures
            g == self.is_given(row as int, col as int),
    {
        self.given[row][col]
    }

    /// The validity flag of `(row, col)`.
    pub fn get_validity(&self, row: usize, col: usize) -> (v: bool)
        requires
            row < 9,
            col < 9,
        ensures
            v == self.validity(row as int, col as int),
    {
        self.valid[row][col]
    }

    /// In a state carved from a full grid by removing the distinct flat indices `removed`,
    /// exactly `removed.len()` cells are empty, the empty cells are the editable ones, and
    /// every given cell is filled.
    pub proof fn lemma_carved_empty_count(&self, solution: Board, removed: Seq<usize>)
        requires
            is_full(solution),
            removed.no_duplicates(),
            forall|i: int| 0 <= i < removed.len() ==> #[trigger] removed[i] < 81,
            self.carved_from(solution, removed),
        ensures
            self.empty_cells().finite(),
            self.empty_cells().len() == removed.len(),
            forall|r: int, c: int| #[trigger] in_grid(r, c) ==> (self.value(r, c) == 0 <==> !self.is_given(r, c)),
    {
        let idx = removed.map_values(|u: usize| u as int);
        assert(idx.no_duplicates()) by {
            assert forall|a: int, b: int| 0 <= a < idx.len() && 0 <= b < idx.len() && a != b implies idx[a] != idx[b] by {
                assert(removed[a] != removed[b]);
            }
        }
        assert(self.empty_cells() =~= idx.to_set()) by {
            assert forall|i: int| self.empty_cells().contains(i) implies idx.to_set().contains(i) by {
                assert(in_grid(i / 9, i % 9));
                assert(9 * (i / 9) + i % 9 == i);
                let k = choose|k: int| 0 <= k < removed.len() && removed[k] == i as usize;
                assert(idx[k] == i);
            }
            assert forall|i: int| idx.to_set().contains(i) implies self.empty_cells().contains(i) by {
                let k = choose|k: int| 0 <= k < idx.len() && idx[k] == i;
                assert(removed[k] < 81);
                assert(in_grid(i / 9, i % 9));
                assert(9 * (i / 9) + i % 9 == i);
                assert(removed.contains((9 * (i / 9) + i % 9) as usize));
            }
        }
        idx.unique_seq_to_set();
        assert forall|r: int, c: int| #[trigger] in_grid(r, c) implies (self.value(r, c) == 0 <==> !self.is_given(r, c)) by {
            assert(in_grid(r, c));
        }
    }

    /// What well-formedness says of the cells: values are digits, given cells are filled and
    /// flagged valid, empty cells are flagged valid, and of two peers that hold the same digit
    /// at least one is flagged invalid.
    pub proof fn lemma_wf_cells(&self)
        requires
            self.wf(),
        ensures
            forall|r: int, c: int| #[trigger] in_grid(r, c) ==> self.value(r, c) <= 9,
            forall|r: int, c: int| #[trigger] in_grid(r, c) && self.is_given(r, c) ==> self.value(r, c) != 0 && self.validity(r, c),
            forall|r: int, c: int| #[trigger] in_grid(r, c) && self.value(r, c) == 0 ==> self.validity(r, c),
            forall|r1: int, c1: int, r2: int, c2: int|
                #![trigger self.value(r1, c1), self.value(r2, c2)]
                in_grid(r1, c1) && in_grid(r2, c2) && peers(r1, c1, r2, c2) && self.value(r1, c1) != 0
                    && self.value(r1, c1) == self.value(r2, c2)
                    ==> !self.validity(r1, c1) || !self.validity(r2, c2),
    {
    }

    /// In a freshly carved puzzle, writing back the solved value of a cleared cell conflicts
    /// with no other cell, while a value that a given peer holds conflicts with it.
    pub proof fn lemma_carved_entry_validity(&self, solution: Board, removed: Seq<usize>, r: int, c: int, v: u8)
        requires
            is_solution(solution),
            self.carved_from(solution, removed),
            in_grid(r, c),
            removed.contains((9 * r + c) as usize),
        ensures
            !occurs_elsewhere(self.board(), r, c, solution[r][c]),
            (exists|i: int, j: int| #[trigger] in_grid(i, j) && peers(r, c, i, j) && self.is_given(i, j) && self.value(i, j) == v)
                ==> occurs_elsewhere(self.board(), r, c, v),
    {
        let b = self.board();
        assert forall|i: int, j: int| #[trigger] in_grid(i, j) && peers(r, c, i, j) implies b[i][j] != solution[r][c] by {
            assert(in_grid(r, c) && in_grid(i, j));
            assert(solution[r][c] != solution[i][j]);
        }
    }

    /// A well-formed state that is solved holds a solution: since the later written of two
    /// equal peers is always flagged invalid, all flags valid means no conflicts remain.
    pub proof fn lemma_solved_is_solution(&self)
        requires
            self.wf(),
            self.solved(),
        ensures
            is_solution(self.board()),
    {
        let b = self.values;
        assert forall|r: int, c: int| #[trigger] in_grid(r, c) implies 1 <= b[r][c] <= 9 by {
            assert(in_grid(r, c));
        }
        assert forall|r1: int, c1: int, r2: int, c2: int|
            in_grid(r1, c1) && in_grid(r2, c2) && peers(r1, c1, r2, c2) && b[r1][c1] != 0 implies
            #[trigger] b[r1][c1] != #[trigger] b[r2][c2] by {
            assert(in_grid(r1, c1) && in_grid(r2, c2));
        }
    }
}

} // verus!
