use vstd::prelude::*;

verus! {

/// A 9x9 grid of digits; 0 marks an empty cell.
pub type Board = [[u8; 9]; 9];

pub open spec fn in_grid(r: int, c: int) -> bool {
    0 <= r < 9 && 0 <= c < 9
}

/// Two cells lie in the same 3x3 block.
pub open spec fn same_block(r1: int, c1: int, r2: int, c2: int) -> bool {
    r1 / 3 == r2 / 3 && c1 / 3 == c2 / 3
}

/// Two distinct cells share a row, a column or a block.
pub open spec fn peers(r1: int, c1: int, r2: int, c2: int) -> bool {
    &&& !(r1 == r2 && c1 == c2)
    &&& (r1 == r2 || c1 == c2 || same_block(r1, c1, r2, c2))
}

/// `v` stands in some cell other than `(r, c)` of its row, column or block.
pub open spec fn occurs_elsewhere(b: Board, r: int, c: int, v: u8) -> bool {
    exists|i: int, j: int| #[trigger] in_grid(i, j) && peers(r, c, i, j) && b[i][j] == v
}

/// Every cell holds a digit in 0..=9.
pub open spec fn digits_in_range(b: Board) -> bool {
    forall|r: int, c: int| #[trigger] in_grid(r, c) ==> b[r][c] <= 9
}

/// No nonzero value is repeated among peers.
pub open spec fn consistent(b: Board) -> bool {
    forall|r1: int, c1: int, r2: int, c2: int|
        #![trigger b[r1][c1], b[r2][c2]]
        in_grid(r1, c1) && in_grid(r2, c2) && peers(r1, c1, r2, c2) && b[r1][c1] != 0
            ==> b[r1][c1] != b[r2][c2]
}

/// Every cell holds a digit in 1..=9.
pub open spec fn is_full(b: Board) -> bool {
    forall|r: int, c: int| #[trigger] in_grid(r, c) ==> 1 <= b[r][c] <= 9
}

/// A completely and consistently filled grid.
pub open spec fn is_solution(b: Board) -> bool {
    is_full(b) && consistent(b)
}

/// The nine values of the block whose top-left corner is `(3 * (r / 3), 3 * (c / 3))`,
/// read row by row.
pub fn get_block_values(board: &Board, row: usize, col: usize) -> (block: [u8; 9])
    requires
        row < 9,
        col < 9,
    ensures
        forall|i: int, j: int|
            0 <= i < 3 && 0 <= j < 3 ==> #[trigger] block[3 * i + j] == board[3 * (row / 3) + i][3
                * (col / 3) + j],
{
    let mut block: [u8; 9] = [0; 9];
    let row_start: usize = 3 * (row / 3);
    let col_start: usize = 3 * (col / 3);
    let mut i: usize = 0;
    while i < 3
        invariant
            i <= 3,
            row_start == 3 * (row / 3),
            col_start == 3 * (col / 3),
            row_start + 3 <= 9,
            col_start + 3 <= 9,
            forall|a: int, b: int|
                0 <= a < i && 0 <= b < 3 ==> #[trigger] block[3 * a + b]
                    == board[row_start + a][col_start + b],
        decreases 3 - i,
    {
        let mut j: usize = 0;
        while j < 3
            invariant
                i < 3,
                j <= 3,
                row_start + 3 <= 9,
                col_start + 3 <= 9,
                forall|a: int, b: int|
                    0 <= a < i && 0 <= b < 3 ==> #[trigger] block[3 * a + b]
                        == board[row_start + a][col_start + b],
                forall|b: int|
                    0 <= b < j ==> #[trigger] block[3 * i + b] == board[row_start + i][col_start
                        + b],
            decreases 3 - j,
        {
            block[3 * i + j] = board[row_start + i][col_start + j];
            j += 1;
        }
        i += 1;
    }
    block
}

/// Whether `value` may be written at `(row, col)`: it is false exactly when `value` already
/// stands in another cell of the row, the column or the block. The cell itself is not looked at.
pub fn is_valid(board: &Board, row: usize, col: usize, value: u8) -> (r: bool)
    requires
        row < 9,
        col < 9,
    ensures
        r == !occurs_elsewhere(*board, row as int, col as int, value),
{
    let mut k: usize = 0;
    while k < 9
        invariant
            row < 9,
            col < 9,
            k <= 9,
            forall|j: int| 0 <= j < k && j != col ==> board[row as int][j] != value,
            forall|i: int| 0 <= i < k && i != row ==> board[i][col as int] != value,
        decreases 9 - k,
    {
        if k != col && board[row][k] == value {
            assert(in_grid(row as int, k as int) && peers(row as int, col as int, row as int, k as int));
            return false;
        }
        if k != row && board[k][col] == value {
            assert(in_grid(k as int, col as int) && peers(row as int, col as int, k as int, col as int));
            return false;
        }
        k += 1;
    }
    let block = get_block_values(board, row, col);
    let own: usize = 3 * (row % 3) + col % 3;
    let mut t: usize = 0;
    while t < 9
        invariant
            row < 9,
            col < 9,
            own == 3 * (row % 3) + col % 3,
            t <= 9,
            forall|i: int, j: int|
                0 <= i < 3 && 0 <= j < 3 ==> #[trigger] block[3 * i + j] == board[3 * (row / 3) + i][3
                    * (col / 3) + j],
            forall|s: int| 0 <= s < t && s != own ==> block[s] != value,
        decreases 9 - t,
    {
        if t != own && block[t] == value {
            let bi: usize = t / 3;
            let bj: usize = t % 3;
            assert(block[3 * (bi as int) + (bj as int)] == block[t as int]);
            let gi: usize = 3 * (row / 3) + bi;
            let gj: usize = 3 * (col / 3) + bj;
            assert(in_grid(gi as int, gj as int) && peers(row as int, col as int, gi as int, gj as int));
            return false;
        }
        t += 1;
    }
    assert forall|i: int, j: int|
        #[trigger] in_grid(i, j) && peers(row as int, col as int, i, j) implies board[i][j] != value by {
        if i != row && j != col {
            let a = i - 3 * (row / 3);
            let b = j - 3 * (col / 3);
            assert(0 <= a < 3 && 0 <= b < 3);
            assert(block[3 * a + b] == board[i][j]);
            assert(3 * a + b != own);
        }
    }
    true
}

} // verus!

verus! {

/// The digits 1 to 9 in ascending order.
pub open spec fn all_digits() -> Seq<u8> {
    seq![1u8, 2u8, 3u8, 4u8, 5u8, 6u8, 7u8, 8u8, 9u8]
}

/// `s` lists nine distinct digits, each in 1..=9.
pub open spec fn is_digit_permutation(s: Seq<u8>) -> bool {
    &&& s.len() == 9
    &&& s.no_duplicates()
    &&& forall|i: int| 0 <= i < 9 ==> 1 <= #[trigger] s[i] <= 9
}

/// A reordering of 1..=9 lists nine distinct digits.
pub proof fn lemma_reordered_digits(s: Seq<u8>)
    requires
        s.to_multiset() == all_digits().to_multiset(),
    ensures
        is_digit_permutation(s),
{
    let d = all_digits();
    s.to_multiset_ensures();
    d.to_multiset_ensures();
    assert(d.no_duplicates()) by {
        assert forall|i: int, j: int| 0 <= i < 9 && 0 <= j < 9 && i != j implies d[i] != d[j] by {}
    }
    d.lemma_multiset_has_no_duplicates();
    s.lemma_multiset_has_no_duplicates_conv();
    assert(s.len() == d.len());
    assert forall|i: int| 0 <= i < 9 implies 1 <= #[trigger] s[i] <= 9 by {
        assert(s.contains(s[i]));
        assert(s.to_multiset().count(s[i]) > 0);
        assert(d.contains(s[i]));
    }
}

/// Nine distinct digits in 1..=9 cover every digit.
pub proof fn lemma_permutation_covers_digits(s: Seq<u8>)
    requires
        is_digit_permutation(s),
    ensures
        forall|v: u8| 1 <= v <= 9 ==> #[trigger] s.contains(v),
{
    let d = all_digits();
    assert(d.no_duplicates()) by {
        assert forall|i: int, j: int| 0 <= i < 9 && 0 <= j < 9 && i != j implies d[i] != d[j] by {}
    }
    s.unique_seq_to_set();
    d.unique_seq_to_set();
    assert(s.to_set().subset_of(d.to_set())) by {
        assert forall|v: u8| s.to_set().contains(v) implies d.to_set().contains(v) by {
            let i = choose|i: int| 0 <= i < s.len() && s[i] == v;
            assert(d[(v - 1) as int] == v);
        }
    }
    vstd::set_lib::lemma_subset_equality(s.to_set(), d.to_set());
    assert forall|v: u8| 1 <= v <= 9 implies #[trigger] s.contains(v) by {
        assert(d[(v - 1) as int] == v);
        assert(d.to_set().contains(v));
    }
}

} // verus!

verus! {

/// Row `r` of `b`, left to right.
pub open spec fn row_values(b: Board, r: int) -> Seq<u8> {
    Seq::new(9, |c: int| b[r][c])
}

/// Column `c` of `b`, top to bottom.
pub open spec fn col_values(b: Board, c: int) -> Seq<u8> {
    Seq::new(9, |r: int| b[r][c])
}

/// Block `k` of `b` (blocks numbered row by row), read row by row.
pub open spec fn block_values(b: Board, k: int) -> Seq<u8> {
    Seq::new(9, |t: int| b[3 * (k / 3) + t / 3][3 * (k % 3) + t % 3])
}

proof fn lemma_unit_permutation(b: Board, s: Seq<u8>, rs: spec_fn(int) -> int, cs: spec_fn(int) -> int)
    requires
        is_solution(b),
        s.len() == 9,
        forall|t: int| 0 <= t < 9 ==> in_grid(#[trigger] rs(t), cs(t)) && s[t] == b[rs(t)][cs(t)],
        forall|t1: int, t2: int|
            0 <= t1 < 9 && 0 <= t2 < 9 && t1 != t2 ==> peers(#[trigger] rs(t1), cs(t1), #[trigger] rs(t2), cs(t2)),
    ensures
        is_digit_permutation(s),
        forall|v: u8| 1 <= v <= 9 ==> #[trigger] s.contains(v),
{
    assert forall|t: int| 0 <= t < 9 implies 1 <= #[trigger] s[t] <= 9 by {
        assert(in_grid(rs(t), cs(t)));
    }
    assert forall|t1: int, t2: int| 0 <= t1 < s.len() && 0 <= t2 < s.len() && t1 != t2 implies s[t1] != s[t2] by {
        assert(in_grid(rs(t1), cs(t1)) && in_grid(rs(t2), cs(t2)));
        assert(peers(rs(t1), cs(t1), rs(t2), cs(t2)));
        assert(b[rs(t1)][cs(t1)] != 0);
    }
    lemma_permutation_covers_digits(s);
}

/// In a solution every row, every column and every block lists each digit 1..=9 exactly once.
pub proof fn lemma_solution_units_are_permutations(b: Board)
    requires
        is_solution(b),
    ensures
        forall|r: int| 0 <= r < 9 ==> is_digit_permutation(#[trigger] row_values(b, r)),
        forall|c: int| 0 <= c < 9 ==> is_digit_permutation(#[trigger] col_values(b, c)),
        forall|k: int| 0 <= k < 9 ==> is_digit_permutation(#[trigger] block_values(b, k)),
        forall|r: int, v: u8| 0 <= r < 9 && 1 <= v <= 9 ==> #[trigger] row_values(b, r).contains(v),
        forall|c: int, v: u8| 0 <= c < 9 && 1 <= v <= 9 ==> #[trigger] col_values(b, c).contains(v),
        forall|k: int, v: u8| 0 <= k < 9 && 1 <= v <= 9 ==> #[trigger] block_values(b, k).contains(v),
{
    assert forall|r: int| 0 <= r < 9 implies is_digit_permutation(#[trigger] row_values(b, r)) && forall|v: u8| 1 <= v <= 9 ==> #[trigger] row_values(b, r).contains(v) by {
        lemma_unit_permutation(b, row_values(b, r), |t: int| r, |t: int| t);
    }
    assert forall|c: int| 0 <= c < 9 implies is_digit_permutation(#[trigger] col_values(b, c)) && forall|v: u8| 1 <= v <= 9 ==> #[trigger] col_values(b, c).contains(v) by {
        lemma_unit_permutation(b, col_values(b, c), |t: int| t, |t: int| c);
    }
    assert forall|k: int| 0 <= k < 9 implies is_digit_permutation(#[trigger] block_values(b, k)) && forall|v: u8| 1 <= v <= 9 ==> #[trigger] block_values(b, k).contains(v) by {
        let rs = |t: int| 3 * (k / 3) + t / 3;
        let cs = |t: int| 3 * (k % 3) + t % 3;
        assert forall|t1: int, t2: int|
            0 <= t1 < 9 && 0 <= t2 < 9 && t1 != t2 implies peers(#[trigger] rs(t1), cs(t1), #[trigger] rs(t2), cs(t2)) by {
            assert(rs(t1) / 3 == k / 3 && rs(t2) / 3 == k / 3);
            assert(cs(t1) / 3 == k % 3 && cs(t2) / 3 == k % 3);
        }
        lemma_unit_permutation(b, block_values(b, k), rs, cs);
    }
}

} // verus!
