use vstd::prelude::*;
use crate::grid::{
    Board, consistent, digits_in_range, in_grid, is_digit_permutation, is_full, is_solution,
    is_valid, occurs_elsewhere, peers,
};

verus! {

/// Every cell that is filled in `b` holds the same value in `s`.
pub open spec fn extends(s: Board, b: Board) -> bool {
    forall|r: int, c: int| #[trigger] in_grid(r, c) && b[r][c] != 0 ==> s[r][c] == b[r][c]
}

/// Every cell before position `p` in row-major order is filled.
pub open spec fn filled_before(b: Board, p: int) -> bool {
    forall|r: int, c: int| #[trigger] in_grid(r, c) && 9 * r + c < p ==> b[r][c] != 0
}

/// The value of the cell at flat index `p`, that is `(p / 9, p % 9)`.
pub open spec fn cell_at(b: Board, p: int) -> u8 {
    b[p / 9][p % 9]
}

/// `s` comes before `t` in row-major order: at the first cell where they differ, the value
/// in `s` is the smaller one.
pub open spec fn row_major_less(s: Board, t: Board) -> bool {
    exists|p: int|
        0 <= p < 81 && #[trigger] cell_at(s, p) < cell_at(t, p) && forall|q: int|
            0 <= q < p ==> #[trigger] cell_at(s, q) == cell_at(t, q)
}

/// Some solution agrees with every filled cell of `b`.
pub open spec fn completable(b: Board) -> bool {
    exists|s: Board| is_solution(s) && #[trigger] extends(s, b)
}

proof fn lemma_place_keeps_consistent(b: Board, nb: Board, x: int, y: int, n: u8)
    requires
        in_grid(x, y),
        consistent(b),
        b[x][y] == 0,
        n != 0,
        !occurs_elsewhere(b, x, y, n),
        nb[x][y] == n,
        forall|r: int, c: int| #[trigger] in_grid(r, c) && !(r == x && c == y) ==> nb[r][c] == b[r][c],
    ensures
        consistent(nb),
{
    assert forall|r1: int, c1: int, r2: int, c2: int|
        in_grid(r1, c1) && in_grid(r2, c2) && peers(r1, c1, r2, c2) && nb[r1][c1] != 0 implies
        #[trigger] nb[r1][c1] != #[trigger] nb[r2][c2] by {
        if r1 == x && c1 == y {
            assert(in_grid(r2, c2));
        } else if r2 == x && c2 == y {
            assert(in_grid(r1, c1) && peers(x, y, r1, c1));
        } else {
            assert(in_grid(r1, c1) && in_grid(r2, c2));
        }
    }
}

/// Completes the grid by depth-first search over the empty cells from `(x, y)` on, in
/// row-major order, trying 1 to 9 in turn at each and undoing a placement that leads nowhere.
/// Returns whether a completion was found. On success the grid is the first solution in
/// row-major order among those that keep every filled cell; on failure the grid is unchanged
/// and no solution keeps its filled cells.
pub fn fill_rest(board: &mut Board, x: usize, y: usize) -> (r: bool)
    requires
        x <= 8,
        y <= 9,
        digits_in_range(*old(board)),
        consistent(*old(board)),
        filled_before(*old(board), 9 * x + y),
    ensures
        r ==> is_solution(*final(board)) && extends(*final(board), *old(board)),
        r ==> forall|s: Board| is_solution(s) && #[trigger] extends(s, *old(board)) ==> !row_major_less(s, *final(board)),
        !r ==> *final(board) == *old(board) && !completable(*old(board)),
    decreases 81 - (9 * x + y),
{
    let ghost b0 = *board;
    if x == 8 && y == 9 {
        assert(is_full(*board)) by {
            assert forall|r: int, c: int| #[trigger] in_grid(r, c) implies 1 <= b0[r][c] <= 9 by {
                assert(in_grid(r, c) && 9 * r + c < 81);
            }
        }
        assert forall|s: Board| is_solution(s) && #[trigger] extends(s, b0) implies !row_major_less(s, b0) by {
            if row_major_less(s, b0) {
                let p = choose|p: int|
                    0 <= p < 81 && #[trigger] cell_at(s, p) < cell_at(b0, p) && forall|q: int|
                        0 <= q < p ==> #[trigger] cell_at(s, q) == cell_at(b0, q);
                assert(in_grid(p / 9, p % 9));
            }
        }
        return true;
    }
    let (row, col) = if y == 9 {
        (x + 1, 0)
    } else {
        (x, y)
    };
    if board[row][col] != 0 {
        assert(filled_before(*board, 9 * row + col + 1)) by {
            assert forall|r: int, c: int| #[trigger] in_grid(r, c) && 9 * r + c < 9 * row + col + 1 implies b0[r][c] != 0 by {
                if 9 * r + c == 9 * row + col {
                    assert(r == row && c == col);
                }
            }
        }
        return fill_rest(board, row, col + 1);
    }
    assert forall|s: Board| is_solution(s) && #[trigger] extends(s, b0) implies s[row as int][col as int] >= 1 by {
        assert(in_grid(row as int, col as int));
    }
    let mut n: u8 = 1;
    while n <= 9
        invariant
            row < 9,
            col < 9,
            x <= 8,
            y <= 9,
            9 * row + col >= 9 * x + y,
            1 <= n <= 10,
            *board == b0,
            b0 == *old(board),
            b0[row as int][col as int] == 0,
            digits_in_range(b0),
            consistent(b0),
            filled_before(b0, 9 * row + col),
            forall|s: Board| is_solution(s) && #[trigger] extends(s, b0) ==> s[row as int][col as int] >= n,
        decreases 10 - n,
    {
        if is_valid(board, row, col, n) {
            board[row][col] = n;
            let ghost b1 = *board;
            proof {
                assert forall|r: int, c: int| #[trigger] in_grid(r, c) && !(r == row && c == col) implies b1[r][c] == b0[r][c] by {}
                lemma_place_keeps_consistent(b0, b1, row as int, col as int, n);
                assert(digits_in_range(b1)) by {
                    assert forall|r: int, c: int| #[trigger] in_grid(r, c) implies b1[r][c] <= 9 by {
                        assert(in_grid(r, c));
                    }
                }
                assert(filled_before(b1, 9 * row + col + 1)) by {
                    assert forall|r: int, c: int| #[trigger] in_grid(r, c) && 9 * r + c < 9 * row + col + 1 implies b1[r][c] != 0 by {
                        if 9 * r + c == 9 * row + col {
                            assert(r == row && c == col);
                        } else {
                            assert(in_grid(r, c));
                        }
                    }
                }
            }
            if fill_rest(board, row, col + 1) {
                assert(extends(*board, b0)) by {
                    assert forall|r: int, c: int| #[trigger] in_grid(r, c) && b0[r][c] != 0 implies board[r][c] == b0[r][c] by {
                        assert(in_grid(r, c) && b1[r][c] != 0);
                    }
                }
                let ghost fin = *board;
                assert forall|s: Board| is_solution(s) && #[trigger] extends(s, b0) implies !row_major_less(s, fin) by {
                    if row_major_less(s, fin) {
                        let p = choose|p: int|
                            0 <= p < 81 && #[trigger] cell_at(s, p) < cell_at(fin, p) && forall|q: int|
                                0 <= q < p ==> #[trigger] cell_at(s, q) == cell_at(fin, q);
                        let here = 9 * row + col;
                        assert(here / 9 == row && here % 9 == col);
                        assert(in_grid(row as int, col as int) && b1[row as int][col as int] != 0);
                        if s[row as int][col as int] == n {
                            assert(extends(s, b1)) by {
                                assert forall|r: int, c: int| #[trigger] in_grid(r, c) && b1[r][c] != 0 implies s[r][c] == b1[r][c] by {
                                    assert(in_grid(r, c));
                                }
                            }
                        } else {
                            assert(in_grid(p / 9, p % 9));
                            assert(9 * (p / 9) + p % 9 == p);
                            if p < here {
                                assert(b0[p / 9][p % 9] != 0);
                            } else if p > here {
                                assert(cell_at(s, here) == cell_at(fin, here));
                            }
                        }
                    }
                }
                return true;
            }
            board[row][col] = 0;
            proof {
                assert forall|s: Board| is_solution(s) && #[trigger] extends(s, b0) implies s[row as int][col as int] >= n + 1 by {
                    if s[row as int][col as int] == n {
                        assert(extends(s, b1)) by {
                            assert forall|r: int, c: int| #[trigger] in_grid(r, c) && b1[r][c] != 0 implies s[r][c] == b1[r][c] by {
                                assert(in_grid(r, c));
                            }
                        }
                        assert(completable(b1));
                    }
                }
                assert forall|i: int| 0 <= i < 9 implies #[trigger] board[i] =~= b0[i] by {}
                assert(*board =~= b0);
            }
        } else {
            proof {
                assert forall|s: Board| is_solution(s) && #[trigger] extends(s, b0) implies s[row as int][col as int] >= n + 1 by {
                    if s[row as int][col as int] == n {
                        let (i, j) = choose|i: int, j: int| #[trigger] in_grid(i, j) && peers(row as int, col as int, i, j) && b0[i][j] == n;
                        assert(in_grid(i, j) && b0[i][j] != 0);
                        assert(s[i][j] == n);
                        assert(in_grid(row as int, col as int));
                    }
                }
            }
        }
        n += 1;
    }
    proof {
        assert forall|s: Board| is_solution(s) implies !#[trigger] extends(s, b0) by {
            if extends(s, b0) {
                assert(in_grid(row as int, col as int));
            }
        }
    }
    false
}

} // verus!

verus! {

/// The value that diagonal seeding puts at `(r, c)`: block `d` on the diagonal receives
/// `digits[d]` row by row, every other cell stays empty.
pub open spec fn seeded_value(digits: [[u8; 9]; 3], r: int, c: int) -> u8 {
    if r / 3 == c / 3 {
        digits[r / 3][3 * (r % 3) + c % 3]
    } else {
        0
    }
}

/// Writes `digits[d]` row by row into the diagonal block `d`, for `d` in 0..3, on an
/// otherwise empty grid.
pub fn seed_diagonals(digits: &[[u8; 9]; 3]) -> (b: Board)
    requires
        forall|d: int| 0 <= d < 3 ==> is_digit_permutation(#[trigger] digits[d]@),
    ensures
        forall|r: int, c: int| #[trigger] in_grid(r, c) ==> b[r][c] == seeded_value(*digits, r, c),
        digits_in_range(b),
        consistent(b),
{
    let mut b: Board = [[0; 9]; 9];
    let mut d: usize = 0;
    while d < 3
        invariant
            d <= 3,
            forall|r: int, c: int| #[trigger] in_grid(r, c) ==> b[r][c] == if r / 3 == c / 3 && r / 3 < d {
                seeded_value(*digits, r, c)
            } else {
                0
            },
        decreases 3 - d,
    {
        let mut t: usize = 0;
        while t < 9
            invariant
                d < 3,
                t <= 9,
                forall|r: int, c: int| #[trigger] in_grid(r, c) ==> b[r][c] == if r / 3 == c / 3 && (r / 3
                    < d || (r / 3 == d && 3 * (r % 3) + c % 3 < t)) {
                    seeded_value(*digits, r, c)
                } else {
                    0
                },
            decreases 9 - t,
        {
            let r: usize = 3 * d + t / 3;
            let c: usize = 3 * d + t % 3;
            b[r][c] = digits[d][t];
            t += 1;
        }
        d += 1;
    }
    assert forall|r: int, c: int| #[trigger] in_grid(r, c) implies b[r][c] <= 9 by {
        if r / 3 == c / 3 {
            assert(is_digit_permutation(digits[r / 3]@));
            assert(digits[r / 3]@[3 * (r % 3) + c % 3] <= 9);
        }
    }
    assert forall|r1: int, c1: int, r2: int, c2: int|
        in_grid(r1, c1) && in_grid(r2, c2) && peers(r1, c1, r2, c2) && b[r1][c1] != 0 implies
        #[trigger] b[r1][c1] != #[trigger] b[r2][c2] by {
        assert(in_grid(r1, c1) && in_grid(r2, c2));
        if b[r2][c2] != 0 {
            let s = digits[r1 / 3]@;
            assert(is_digit_permutation(s));
            assert(r1 / 3 == r2 / 3 && c1 / 3 == c2 / 3);
            let t1 = 3 * (r1 % 3) + c1 % 3;
            let t2 = 3 * (r2 % 3) + c2 % 3;
            assert(t1 != t2);
            assert(s[t1] != s[t2]);
        }
    }
    b
}

/// Every cell that diagonal seeding fills from `digits` holds the same value in `s`.
pub open spec fn keeps_seeds(digits: [[u8; 9]; 3], s: Board) -> bool {
    forall|i: int, j: int| #[trigger] in_grid(i, j) && seeded_value(digits, i, j) != 0 ==> s[i][j]
        == seeded_value(digits, i, j)
}

/// Some solution keeps every cell that diagonal seeding fills from `digits`.
pub open spec fn seeds_completable(digits: [[u8; 9]; 3]) -> bool {
    exists|s: Board| is_solution(s) && #[trigger] keeps_seeds(digits, s)
}

/// Seeds the diagonal blocks from `digits` and completes the grid by `fill_rest`. Returns
/// the first solution in row-major order that keeps the seeded cells, or `None` when no
/// solution keeps them.
pub fn solve_seeded(digits: &[[u8; 9]; 3]) -> (r: Option<Board>)
    requires
        forall|d: int| 0 <= d < 3 ==> is_digit_permutation(#[trigger] digits[d]@),
    ensures
        r matches Some(s) ==> {
            &&& is_solution(s)
            &&& keeps_seeds(*digits, s)
            &&& forall|t: Board| is_solution(t) && #[trigger] keeps_seeds(*digits, t) ==> !row_major_less(t, s)
        },
        r is None <==> !seeds_completable(*digits),
{
    let mut board = seed_diagonals(digits);
    let ghost b0 = board;
    proof {
        assert forall|t: Board| #[trigger] keeps_seeds(*digits, t) implies extends(t, b0) by {
            assert forall|i: int, j: int| #[trigger] in_grid(i, j) && b0[i][j] != 0 implies t[i][j] == b0[i][j] by {
                assert(in_grid(i, j));
            }
        }
    }
    if fill_rest(&mut board, 0, 0) {
        assert(keeps_seeds(*digits, board)) by {
            assert forall|i: int, j: int| #[trigger] in_grid(i, j) && seeded_value(*digits, i, j) != 0 implies board[i][j] == seeded_value(*digits, i, j) by {
                assert(in_grid(i, j) && b0[i][j] != 0);
            }
        }
        Some(board)
    } else {
        proof {
            assert forall|s: Board| is_solution(s) implies !#[trigger] keeps_seeds(*digits, s) by {
                if keeps_seeds(*digits, s) {
                    assert(extends(s, b0));
                    assert(completable(b0));
                }
            }
        }
        None
    }
}

} // verus!
