//! The 9×9 value matrix, the Sudoku constraint and its validator.

use vstd::prelude::*;

verus! {

/// Side length of the board.
pub const SIZE: usize = 9;

/// A 9×9 matrix of integers, viewed row by row.
pub open spec fn is_square(g: Seq<Seq<int>>) -> bool {
    &&& g.len() == 9
    &&& forall|r: int| 0 <= r < 9 ==> (#[trigger] g[r]).len() == 9
}

/// The mathematical view of a matrix of `usize` values.
pub open spec fn grid_of(m: Seq<Vec<usize>>) -> Seq<Seq<int>> {
    Seq::new(m.len(), |r: int| Seq::new(m[r]@.len(), |c: int| m[r]@[c] as int))
}

/// Row `r` of the box with index `b`, for the `k`-th cell of that box.
pub open spec fn box_row(b: int, k: int) -> int {
    3 * (b / 3) + k / 3
}

/// Column of the `k`-th cell of the box with index `b`.
pub open spec fn box_col(b: int, k: int) -> int {
    3 * (b % 3) + k % 3
}

/// The index of the box that holds the cell at row `r`, column `c`.
pub open spec fn box_index(r: int, c: int) -> int {
    3 * (r / 3) + c / 3
}

/// The values of row `r`.
pub open spec fn row_of(g: Seq<Seq<int>>, r: int) -> Seq<int> {
    Seq::new(9, |c: int| g[r][c])
}

/// The values of column `c`, top to bottom.
pub open spec fn col_of(g: Seq<Seq<int>>, c: int) -> Seq<int> {
    Seq::new(9, |r: int| g[r][c])
}

/// The values of box `b`, row by row.
pub open spec fn box_of(g: Seq<Seq<int>>, b: int) -> Seq<int> {
    Seq::new(9, |k: int| g[box_row(b, k)][box_col(b, k)])
}

/// No non-zero value occurs twice in `s`; zeros never collide.
pub open spec fn no_repeat(s: Seq<int>) -> bool {
    forall|i: int, j: int| 0 <= i < j < s.len() && #[trigger] s[i] != 0 ==> s[i] != #[trigger] s[j]
}

/// No row, column or 3×3 box holds two equal non-zero values.
pub open spec fn is_valid(g: Seq<Seq<int>>) -> bool {
    &&& forall|r: int| 0 <= r < 9 ==> no_repeat(#[trigger] row_of(g, r))
    &&& forall|c: int| 0 <= c < 9 ==> no_repeat(#[trigger] col_of(g, c))
    &&& forall|b: int| 0 <= b < 9 ==> no_repeat(#[trigger] box_of(g, b))
}

/// Every cell holds a digit 1–9.
pub open spec fn is_complete(g: Seq<Seq<int>>) -> bool {
    forall|r: int, c: int| 0 <= r < 9 && 0 <= c < 9 ==> 1 <= #[trigger] g[r][c] <= 9
}

/// A finished Sudoku: complete and free of duplicates.
pub open spec fn is_solution(g: Seq<Seq<int>>) -> bool {
    is_square(g) && is_complete(g) && is_valid(g)
}

/// `h` is `g` with some cells cleared: each cell of `h` is zero or the value of `g` there.
pub open spec fn is_carving_of(h: Seq<Seq<int>>, g: Seq<Seq<int>>) -> bool {
    &&& is_square(h)
    &&& forall|r: int, c: int|
        0 <= r < 9 && 0 <= c < 9 ==> #[trigger] h[r][c] == 0 || h[r][c] == g[r][c]
}

/// `g` with the cell at row `r`, column `c` set to `v`.
pub open spec fn set_cell(g: Seq<Seq<int>>, r: int, c: int, v: int) -> Seq<Seq<int>> {
    g.update(r, g[r].update(c, v))
}

/// A sequence of `usize` values as integers.
pub open spec fn ints(s: Seq<usize>) -> Seq<int> {
    Seq::new(s.len(), |i: int| s[i] as int)
}

/// Each of the nine values of `s` is a digit 1–9 and no two are equal.
pub open spec fn is_digit_permutation(s: Seq<int>) -> bool {
    &&& s.len() == 9
    &&& forall|i: int| 0 <= i < 9 ==> 1 <= #[trigger] s[i] <= 9
    &&& forall|i: int, j: int| 0 <= i < j < 9 ==> #[trigger] s[i] != #[trigger] s[j]
}

/// The cells at `(r1, c1)` and `(r2, c2)` share a row, a column or a box.
pub open spec fn same_unit(r1: int, c1: int, r2: int, c2: int) -> bool {
    r1 == r2 || c1 == c2 || box_index(r1, c1) == box_index(r2, c2)
}

pub(crate) proof fn lemma_box_cell_in_range(b: int, k: int)
    requires
        0 <= b < 9,
        0 <= k < 9,
    ensures
        0 <= box_row(b, k) < 9,
        0 <= box_col(b, k) < 9,
        box_index(box_row(b, k), box_col(b, k)) == b,
{
}

/// The cell at row `r`, column `c` is cell `3 * (r % 3) + c % 3` of its box.
pub(crate) proof fn lemma_cell_in_its_box(r: int, c: int)
    requires
        0 <= r < 9,
        0 <= c < 9,
    ensures
        0 <= box_index(r, c) < 9,
        box_row(box_index(r, c), 3 * (r % 3) + c % 3) == r,
        box_col(box_index(r, c), 3 * (r % 3) + c % 3) == c,
{
}

proof fn lemma_no_repeat_of_carving(a: Seq<int>, b: Seq<int>)
    requires
        a.len() == b.len(),
        forall|i: int| 0 <= i < a.len() ==> #[trigger] a[i] == 0 || a[i] == b[i],
        no_repeat(b),
    ensures
        no_repeat(a),
{
    assert forall|i: int, j: int| 0 <= i < j < a.len() && #[trigger] a[i] != 0 implies a[i]
        != #[trigger] a[j] by {
        assert(b[i] != 0);
        assert(b[i] != b[j]);
    }
}

/// Clearing cells never makes a matrix invalid: a matrix whose every cell is
/// zero or the value of a valid matrix at that place is itself valid.
pub proof fn lemma_carving_keeps_valid(h: Seq<Seq<int>>, g: Seq<Seq<int>>)
    requires
        is_square(g),
        is_valid(g),
        is_carving_of(h, g),
    ensures
        is_valid(h),
{
    assert forall|r: int| 0 <= r < 9 implies no_repeat(#[trigger] row_of(h, r)) by {
        assert forall|i: int| 0 <= i < 9 implies #[trigger] row_of(h, r)[i] == 0 || row_of(h, r)[i]
            == row_of(g, r)[i] by {
            assert(h[r][i] == 0 || h[r][i] == g[r][i]);
        }
        lemma_no_repeat_of_carving(row_of(h, r), row_of(g, r));
    }
    assert forall|c: int| 0 <= c < 9 implies no_repeat(#[trigger] col_of(h, c)) by {
        assert forall|i: int| 0 <= i < 9 implies #[trigger] col_of(h, c)[i] == 0 || col_of(h, c)[i]
            == col_of(g, c)[i] by {
            assert(h[i][c] == 0 || h[i][c] == g[i][c]);
        }
        lemma_no_repeat_of_carving(col_of(h, c), col_of(g, c));
    }
    assert forall|b: int| 0 <= b < 9 implies no_repeat(#[trigger] box_of(h, b)) by {
        assert forall|i: int| 0 <= i < 9 implies #[trigger] box_of(h, b)[i] == 0 || box_of(h, b)[i]
            == box_of(g, b)[i] by {
            lemma_box_cell_in_range(b, i);
            let (r, c) = (box_row(b, i), box_col(b, i));
            assert(h[r][c] == 0 || h[r][c] == g[r][c]);
        }
        lemma_no_repeat_of_carving(box_of(h, b), box_of(g, b));
    }
}

/// A matrix whose every row, column and box is a permutation of the digits
/// 1–9 is valid.
pub proof fn lemma_permutations_are_valid(g: Seq<Seq<int>>)
    requires
        forall|u: int| 0 <= u < 9 ==> is_digit_permutation(#[trigger] row_of(g, u)),
        forall|u: int| 0 <= u < 9 ==> is_digit_permutation(#[trigger] col_of(g, u)),
        forall|u: int| 0 <= u < 9 ==> is_digit_permutation(#[trigger] box_of(g, u)),
    ensures
        is_valid(g),
{
    assert forall|u: int| 0 <= u < 9 implies no_repeat(#[trigger] row_of(g, u)) by {
        let s = row_of(g, u);
        assert(is_digit_permutation(s));
        assert forall|i: int, j: int| 0 <= i < j < s.len() && #[trigger] s[i] != 0 implies s[i]
            != #[trigger] s[j] by {}
    }
    assert forall|u: int| 0 <= u < 9 implies no_repeat(#[trigger] col_of(g, u)) by {
        let s = col_of(g, u);
        assert(is_digit_permutation(s));
        assert forall|i: int, j: int| 0 <= i < j < s.len() && #[trigger] s[i] != 0 implies s[i]
            != #[trigger] s[j] by {}
    }
    assert forall|u: int| 0 <= u < 9 implies no_repeat(#[trigger] box_of(g, u)) by {
        let s = box_of(g, u);
        assert(is_digit_permutation(s));
        assert forall|i: int, j: int| 0 <= i < j < s.len() && #[trigger] s[i] != 0 implies s[i]
            != #[trigger] s[j] by {}
    }
}

/// Two distinct cells of one row, column or box that hold the same non-zero
/// value make a matrix invalid.
pub proof fn lemma_repeat_is_invalid(g: Seq<Seq<int>>, r1: int, c1: int, r2: int, c2: int)
    requires
        is_square(g),
        0 <= r1 < 9,
        0 <= c1 < 9,
        0 <= r2 < 9,
        0 <= c2 < 9,
        r1 != r2 || c1 != c2,
        same_unit(r1, c1, r2, c2),
        g[r1][c1] != 0,
        g[r1][c1] == g[r2][c2],
    ensures
        !is_valid(g),
{
    if r1 == r2 {
        let s = row_of(g, r1);
        let (i, j) = if c1 < c2 { (c1, c2) } else { (c2, c1) };
        assert(s[i] != 0 && s[i] == s[j]);
    } else if c1 == c2 {
        let s = col_of(g, c1);
        let (i, j) = if r1 < r2 { (r1, r2) } else { (r2, r1) };
        assert(s[i] != 0 && s[i] == s[j]);
    } else {
        let b = box_index(r1, c1);
        lemma_cell_in_its_box(r1, c1);
        lemma_cell_in_its_box(r2, c2);
        let k1 = 3 * (r1 % 3) + c1 % 3;
        let k2 = 3 * (r2 % 3) + c2 % 3;
        let s = box_of(g, b);
        assert(k1 != k2);
        let (i, j) = if k1 < k2 { (k1, k2) } else { (k2, k1) };
        assert(s[i] != 0 && s[i] == s[j]);
    }
}

/// Setting a cell to the non-zero value of another cell of its row, column
/// or box makes the matrix invalid.
pub proof fn lemma_copied_value_is_invalid(g: Seq<Seq<int>>, r1: int, c1: int, r2: int, c2: int)
    requires
        is_square(g),
        0 <= r1 < 9,
        0 <= c1 < 9,
        0 <= r2 < 9,
        0 <= c2 < 9,
        r1 != r2 || c1 != c2,
        same_unit(r1, c1, r2, c2),
        g[r2][c2] != 0,
    ensures
        !is_valid(set_cell(g, r1, c1, g[r2][c2])),
{
    let h = set_cell(g, r1, c1, g[r2][c2]);
    assert(h[r1][c1] == g[r2][c2]);
    assert(h[r2][c2] == g[r2][c2]);
    lemma_repeat_is_invalid(h, r1, c1, r2, c2);
}

/// A matrix with no non-zero value outside its first cell is valid.
pub proof fn lemma_single_cell_valid(g: Seq<Seq<int>>)
    requires
        is_square(g),
        forall|r: int, c: int|
            0 <= r < 9 && 0 <= c < 9 && (r != 0 || c != 0) ==> #[trigger] g[r][c] == 0,
    ensures
        is_valid(g),
{
    assert forall|u: int| 0 <= u < 9 implies no_repeat(#[trigger] row_of(g, u)) by {
        let s = row_of(g, u);
        assert forall|i: int, j: int| 0 <= i < j < s.len() && #[trigger] s[i] != 0 implies s[i]
            != #[trigger] s[j] by {
            assert(g[u][j] == 0);
        }
    }
    assert forall|u: int| 0 <= u < 9 implies no_repeat(#[trigger] col_of(g, u)) by {
        let s = col_of(g, u);
        assert forall|i: int, j: int| 0 <= i < j < s.len() && #[trigger] s[i] != 0 implies s[i]
            != #[trigger] s[j] by {
            assert(g[j][u] == 0);
        }
    }
    assert forall|u: int| 0 <= u < 9 implies no_repeat(#[trigger] box_of(g, u)) by {
        let s = box_of(g, u);
        assert forall|i: int, j: int| 0 <= i < j < s.len() && #[trigger] s[i] != 0 implies s[i]
            != #[trigger] s[j] by {
            lemma_box_cell_in_range(u, i);
            lemma_box_cell_in_range(u, j);
            assert(box_row(u, j) != 0 || box_col(u, j) != 0);
            assert(g[box_row(u, j)][box_col(u, j)] == 0);
        }
    }
}

/// Whether a list of values holds any non-zero value twice.
pub fn arr_repeat_check(arr: &Vec<usize>) -> (r: bool)
    ensures
        r == no_repeat(ints(arr@)),
{
    let len = arr.len();
    let mut i: usize = 0;
    while i < len
        invariant
            len == arr@.len(),
            i <= len,
            forall|a: int, b: int|
                0 <= a < i && a < b < len && #[trigger] arr@[a] != 0 ==> arr@[a] != #[trigger] arr@[b],
        decreases len - i,
    {
        let mut j: usize = i + 1;
        while j < len
            invariant
                len == arr@.len(),
                i < len,
                i + 1 <= j <= len,
                forall|a: int, b: int|
                    0 <= a < i && a < b < len && #[trigger] arr@[a] != 0 ==> arr@[a] != #[trigger] arr@[b],
                forall|b: int| i < b < j && arr@[i as int] != 0 ==> arr@[i as int] != #[trigger] arr@[b],
            decreases len - j,
        {
            if arr[i] != 0 && arr[i] == arr[j] {
                proof {
                    assert(ints(arr@)[i as int] == ints(arr@)[j as int]);
                }
                return false;
            }
            j += 1;
        }
        i += 1;
    }
    proof {
        assert forall|a: int, b: int|
            0 <= a < b < ints(arr@).len() && #[trigger] ints(arr@)[a] != 0 implies ints(arr@)[a]
            != #[trigger] ints(arr@)[b] by {
            assert(arr@[a] != arr@[b]);
        }
    }
    true
}

/// The positions `(row, column)` of the nine cells of box `b`, row by row.
pub fn box_positions(b: usize) -> (r: Vec<(usize, usize)>)
    requires
        b < 9,
    ensures
        r@.len() == 9,
        forall|k: int|
            0 <= k < 9 ==> (#[trigger] r@[k]).0 == box_row(b as int, k) && r@[k].1 == box_col(
                b as int,
                k,
            ),
{
    let y0: usize = 3 * (b / 3);
    let x0: usize = 3 * (b % 3);
    let mut r: Vec<(usize, usize)> = Vec::new();
    for y in y0..y0 + 3
        invariant
            y0 == 3 * (b / 3),
            x0 == 3 * (b % 3),
            b < 9,
            r@.len() == 3 * (y - y0),
            forall|k: int|
                0 <= k < r@.len() ==> (#[trigger] r@[k]).0 == box_row(b as int, k) && r@[k].1
                    == box_col(b as int, k),
    {
        for x in x0..x0 + 3
            invariant
                y0 == 3 * (b / 3),
                x0 == 3 * (b % 3),
                b < 9,
                y0 <= y < y0 + 3,
                r@.len() == 3 * (y - y0) + (x - x0),
                forall|k: int|
                    0 <= k < r@.len() ==> (#[trigger] r@[k]).0 == box_row(b as int, k) && r@[k].1
                        == box_col(b as int, k),
        {
            proof {
                let k = 3 * (y - y0) + (x - x0);
                assert(k / 3 == y - y0 && k % 3 == x - x0);
            }
            r.push((y, x));
        }
    }
    r
}

/// Whether no row, column or 3×3 box of `m` holds two equal non-zero values.
pub fn matrix_check(m: &Vec<Vec<usize>>) -> (r: bool)
    requires
        m@.len() == 9,
        forall|y: int| 0 <= y < 9 ==> (#[trigger] m@[y])@.len() == 9,
    ensures
        r == is_valid(grid_of(m@)),
{
    let ghost g = grid_of(m@);
    for y in 0..SIZE
        invariant
            g == grid_of(m@),
            m@.len() == 9,
            forall|y: int| 0 <= y < 9 ==> (#[trigger] m@[y])@.len() == 9,
            forall|r: int| 0 <= r < y ==> no_repeat(#[trigger] row_of(g, r)),
    {
        let row = &m[y];
        let mut checked_value: Vec<usize> = Vec::new();
        for x in 0..SIZE
            invariant
                row@.len() == 9,
                checked_value@.len() == x,
                forall|k: int| 0 <= k < x ==> #[trigger] checked_value@[k] == row@[k],
        {
            checked_value.push(row[x]);
        }
        assert(ints(checked_value@) =~= row_of(g, y as int));
        if !arr_repeat_check(&checked_value) {
            return false;
        }
    }
    for x in 0..SIZE
        invariant
            g == grid_of(m@),
            m@.len() == 9,
            forall|y: int| 0 <= y < 9 ==> (#[trigger] m@[y])@.len() == 9,
            forall|r: int| 0 <= r < 9 ==> no_repeat(#[trigger] row_of(g, r)),
            forall|c: int| 0 <= c < x ==> no_repeat(#[trigger] col_of(g, c)),
            forall|b: int| 0 <= b < x ==> no_repeat(#[trigger] box_of(g, b)),
    {
        let mut checked_value: Vec<usize> = Vec::new();
        for y in 0..SIZE
            invariant
                m@.len() == 9,
                forall|y: int| 0 <= y < 9 ==> (#[trigger] m@[y])@.len() == 9,
                x < 9,
                checked_value@.len() == y,
                forall|k: int| 0 <= k < y ==> #[trigger] checked_value@[k] == m@[k]@[x as int],
        {
            checked_value.push(m[y][x]);
        }
        assert(ints(checked_value@) =~= col_of(g, x as int));
        if !arr_repeat_check(&checked_value) {
            return false;
        }
        let mm_pos = box_positions(x);
        let mut checked_value: Vec<usize> = Vec::new();
        for k in 0..SIZE
            invariant
                m@.len() == 9,
                forall|y: int| 0 <= y < 9 ==> (#[trigger] m@[y])@.len() == 9,
                x < 9,
                mm_pos@.len() == 9,
                forall|k: int|
                    0 <= k < 9 ==> (#[trigger] mm_pos@[k]).0 == box_row(x as int, k)
                        && mm_pos@[k].1 == box_col(x as int, k),
                checked_value@.len() == k,
                forall|i: int|
                    0 <= i < k ==> #[trigger] checked_value@[i] == m@[box_row(
                        x as int,
                        i,
                    )]@[box_col(x as int, i)],
        {
            let (py, px) = mm_pos[k];
            checked_value.push(m[py][px]);
        }
        assert(ints(checked_value@) =~= box_of(g, x as int));
        if !arr_repeat_check(&checked_value) {
            return false;
        }
    }
    true
}

} // verus!
