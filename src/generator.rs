//! The constructive generator: a randomized cell-by-cell fill of the working
//! matrix with bounded retries in place and resets of whole rows, written as
//! a state machine that consumes one drawn digit per step.

use vstd::prelude::*;
use crate::matrix::{
    grid_of, is_solution, is_square, is_valid, lemma_carving_keeps_valid,
    lemma_single_cell_valid, matrix_check, set_cell, is_carving_of, SIZE,
};
use crate::random::bounded_draw;

verus! {

/// Draws tried at one cell before it is given up and the cursor retreats.
pub const CELL_TRIES: usize = 20;

/// Retreats tolerated before the current and the previous row are cleared.
pub const ROW_RESETS: usize = 10;

/// The abstract state of the generator.
pub struct GenModel {
    /// The working matrix.
    pub matrix: Seq<Seq<int>>,
    /// Cursor row; 9 once the matrix is complete.
    pub row: int,
    /// Cursor column.
    pub col: int,
    /// Draws tried in place at the cursor cell.
    pub tries: int,
    /// Retreats since the last reset of rows.
    pub resets: int,
    /// The last placement at the cursor broke the matrix and is being retried.
    pub retrying: bool,
}

/// `g` with every cell of row `r` cleared.
pub open spec fn clear_row(g: Seq<Seq<int>>, r: int) -> Seq<Seq<int>> {
    g.update(r, Seq::new(9, |c: int| 0int))
}

/// The empty matrix with the cursor at the first cell.
pub open spec fn initial_model() -> GenModel {
    GenModel {
        matrix: Seq::new(9, |r: int| Seq::new(9, |c: int| 0int)),
        row: 0,
        col: 0,
        tries: 0,
        resets: 0,
        retrying: false,
    }
}

/// The generator has filled the last row.
pub open spec fn is_finished(s: GenModel) -> bool {
    s.row >= 9
}

/// The cursor moves one cell forward in row-major order.
pub open spec fn advanced(s: GenModel) -> GenModel {
    if s.col + 1 >= 9 {
        GenModel { row: s.row + 1, col: 0, tries: 0, retrying: false, ..s }
    } else {
        GenModel { col: s.col + 1, tries: 0, retrying: false, ..s }
    }
}

/// The cursor moves one cell back, wrapping to the end of the previous row;
/// at the very first cell it stays.
pub open spec fn retreated(s: GenModel) -> GenModel {
    if s.col == 0 && s.row > 0 {
        GenModel { row: s.row - 1, col: 8, ..s }
    } else if s.col > 0 {
        GenModel { col: s.col - 1, ..s }
    } else {
        s
    }
}

/// The current row and the one before it are cleared and the cursor goes
/// to the start of the previous row; on the first row, which has none
/// before it, that row alone is cleared and filled anew.
pub open spec fn rows_reset(s: GenModel) -> GenModel {
    if s.row > 0 {
        GenModel {
            matrix: clear_row(clear_row(s.matrix, s.row), s.row - 1),
            row: s.row - 1,
            col: 0,
            resets: 0,
            ..s
        }
    } else {
        GenModel { matrix: clear_row(s.matrix, s.row), col: 0, resets: 0, ..s }
    }
}

/// The state after the placement that the digit `d` drives, before the check.
pub open spec fn placed(s: GenModel, d: int) -> GenModel {
    if !s.retrying {
        let s0 = if s.resets >= ROW_RESETS { rows_reset(s) } else { s };
        GenModel { matrix: set_cell(s0.matrix, s0.row, s0.col, d), tries: 0, ..s0 }
    } else if s.tries + 1 >= CELL_TRIES {
        retreated(
            GenModel {
                matrix: set_cell(s.matrix, s.row, s.col, 0),
                tries: 0,
                resets: s.resets + 1,
                ..s
            },
        )
    } else {
        GenModel { matrix: set_cell(s.matrix, s.row, s.col, d), tries: s.tries + 1, ..s }
    }
}

/// One step of the generator on the drawn digit `d`: place it (or give the
/// cell up), then advance if the matrix is valid, else retry.
pub open spec fn step_model(s: GenModel, d: int) -> GenModel {
    let p = placed(s, d);
    if is_valid(p.matrix) {
        advanced(p)
    } else {
        GenModel { retrying: true, ..p }
    }
}

/// The state reached from `s` by feeding it `digits` in order, stopping once
/// the matrix is complete.
pub open spec fn run_model(s: GenModel, digits: Seq<int>) -> GenModel
    decreases digits.len(),
{
    if is_finished(s) || digits.len() == 0 {
        s
    } else {
        run_model(step_model(s, digits[0]), digits.drop_first())
    }
}

/// The digit 1–9 that a raw draw selects.
pub open spec fn digit_of(draw: usize) -> int {
    (draw % 9 + 1) as int
}

/// The digits that a sequence of raw draws selects.
pub open spec fn digits_of(draws: Seq<usize>) -> Seq<int> {
    Seq::new(draws.len(), |i: int| digit_of(draws[i]))
}

/// The matrix that generation completes from the raw draws `draws`, if they suffice.
pub open spec fn generated(draws: Seq<usize>) -> Option<Seq<Seq<int>>> {
    let s = run_model(initial_model(), digits_of(draws));
    if is_finished(s) {
        Some(s.matrix)
    } else {
        None
    }
}

/// `(r, c)` is a cell of the board.
pub open spec fn in_range(r: int, c: int) -> bool {
    0 <= r < 9 && 0 <= c < 9
}

/// The invariant of the generator's state.
pub open spec fn gen_wf(s: GenModel) -> bool {
    &&& is_square(s.matrix)
    &&& 0 <= s.row <= 9 && 0 <= s.col < 9 && (s.row == 9 ==> s.col == 0)
    &&& 0 <= s.tries < CELL_TRIES && 0 <= s.resets <= ROW_RESETS
    &&& forall|r: int, c: int| in_range(r, c) ==> 0 <= #[trigger] s.matrix[r][c] <= 9
    &&& forall|r: int, c: int|
        in_range(r, c) && 9 * r + c < 9 * s.row + s.col ==> 1 <= #[trigger] s.matrix[r][c]
    &&& forall|r: int, c: int|
        in_range(r, c) && 9 * r + c > 9 * s.row + s.col ==> #[trigger] s.matrix[r][c] == 0
    &&& !s.retrying ==> is_valid(s.matrix) && (s.row < 9 ==> s.matrix[s.row][s.col] == 0)
    &&& s.retrying ==> {
        &&& s.row < 9
        &&& s.resets < ROW_RESETS
        &&& !is_valid(s.matrix)
        &&& is_valid(set_cell(s.matrix, s.row, s.col, 0))
    }
}

/// The cells of `m` before `(row, col)` in row-major order are filled, those
/// after it are empty, and every value is at most 9.
pub open spec fn filled_prefix(m: Seq<Seq<int>>, row: int, col: int) -> bool {
    &&& forall|r: int, c: int| in_range(r, c) ==> 0 <= #[trigger] m[r][c] <= 9
    &&& forall|r: int, c: int| in_range(r, c) && 9 * r + c < 9 * row + col ==> 1 <= #[trigger] m[r][c]
    &&& forall|r: int, c: int| in_range(r, c) && 9 * r + c > 9 * row + col ==> #[trigger] m[r][c] == 0
}

proof fn lemma_set_cell_twice(m: Seq<Seq<int>>, r: int, c: int, a: int, b: int)
    requires
        is_square(m),
        in_range(r, c),
    ensures
        set_cell(set_cell(m, r, c, a), r, c, b) =~~= set_cell(m, r, c, b),
{
}

proof fn lemma_set_cell_same(m: Seq<Seq<int>>, r: int, c: int)
    requires
        is_square(m),
        in_range(r, c),
    ensures
        set_cell(m, r, c, m[r][c]) =~~= m,
{
}

/// A digit placed at the cursor of a matrix that is valid with that cell
/// cleared leads to a well-formed state, whether the check then passes or not.
proof fn lemma_after_placing(m: Seq<Seq<int>>, row: int, col: int, d: int, tries: int, resets: int)
    requires
        is_square(m),
        in_range(row, col),
        filled_prefix(m, row, col),
        is_valid(set_cell(m, row, col, 0)),
        1 <= d <= 9,
        0 <= tries < CELL_TRIES,
        0 <= resets < ROW_RESETS,
    ensures
        ({
            let p = GenModel {
                matrix: set_cell(m, row, col, d),
                row,
                col,
                tries,
                resets,
                retrying: true,
            };
            gen_wf(if is_valid(p.matrix) { advanced(p) } else { GenModel { retrying: true, ..p } })
        }),
{
    let q = set_cell(m, row, col, d);
    lemma_set_cell_twice(m, row, col, d, 0);
    assert forall|r: int, c: int| in_range(r, c) implies #[trigger] q[r][c] == if r == row && c
        == col {
        d
    } else {
        m[r][c]
    } by {}
    assert(q[row][col] == d);
}

/// Clearing the current and the previous row keeps the state well-formed.
proof fn lemma_rows_reset(s: GenModel)
    requires
        gen_wf(s),
        !s.retrying,
        s.row < 9,
    ensures
        ({
            let t = rows_reset(s);
            &&& gen_wf(t)
            &&& !t.retrying
            &&& t.row < 9
            &&& t.resets == 0
        }),
{
    let t = rows_reset(s);
    let m = s.matrix;
    let n = t.matrix;
    assert forall|r: int, c: int| in_range(r, c) implies #[trigger] n[r][c] == if (r == s.row || (
    s.row > 0 && r == s.row - 1)) {
        0
    } else {
        m[r][c]
    } by {}
    assert(is_carving_of(n, m));
    lemma_carving_keeps_valid(n, m);
}

/// A generator step keeps the state well-formed.
pub proof fn lemma_step_wf(s: GenModel, d: int)
    requires
        gen_wf(s),
        !is_finished(s),
        1 <= d <= 9,
    ensures
        gen_wf(step_model(s, d)),
{
    let m = s.matrix;
    if !s.retrying {
        let s0 = if s.resets >= ROW_RESETS {
            lemma_rows_reset(s);
            rows_reset(s)
        } else {
            s
        };
        lemma_set_cell_same(s0.matrix, s0.row, s0.col);
        lemma_after_placing(s0.matrix, s0.row, s0.col, d, 0, s0.resets);
    } else if s.tries + 1 >= CELL_TRIES {
        if s.row == 0 && s.col == 0 {
            assert forall|r: int, c: int|
                in_range(r, c) && (r != 0 || c != 0) implies #[trigger] m[r][c] == 0 by {
                assert(9 * r + c > 0);
            }
            lemma_single_cell_valid(m);
            assert(false);
        }
        let q = set_cell(m, s.row, s.col, 0);
        assert forall|r: int, c: int| in_range(r, c) implies #[trigger] q[r][c] == if r == s.row
            && c == s.col {
            0
        } else {
            m[r][c]
        } by {}
    } else {
        lemma_after_placing(m, s.row, s.col, d, s.tries + 1, s.resets);
    }
}

/// Generation keeps the state well-formed over any run of digits 1–9.
pub proof fn lemma_run_wf(s: GenModel, digits: Seq<int>)
    requires
        gen_wf(s),
        forall|i: int| 0 <= i < digits.len() ==> 1 <= #[trigger] digits[i] <= 9,
    ensures
        gen_wf(run_model(s, digits)),
    decreases digits.len(),
{
    if !is_finished(s) && digits.len() > 0 {
        lemma_step_wf(s, digits[0]);
        lemma_run_wf(step_model(s, digits[0]), digits.drop_first());
    }
}

/// A finished, well-formed generator holds a complete, valid matrix.
pub proof fn lemma_finished_is_solution(s: GenModel)
    requires
        gen_wf(s),
        is_finished(s),
    ensures
        is_solution(s.matrix),
{
    assert forall|r: int, c: int| 0 <= r < 9 && 0 <= c < 9 implies 1 <= #[trigger] s.matrix[r][c]
        <= 9 by {
        assert(in_range(r, c));
    }
}

/// The generator's working state: the matrix, the cursor and the counters
/// that bound retries.
pub struct Generator {
    matrix: Vec<Vec<usize>>,
    row: usize,
    col: usize,
    tries: usize,
    resets: usize,
    retrying: bool,
}

impl Generator {
    /// The abstract state.
    pub closed spec fn model(&self) -> GenModel {
        GenModel {
            matrix: grid_of(self.matrix@),
            row: self.row as int,
            col: self.col as int,
            tries: self.tries as int,
            resets: self.resets as int,
            retrying: self.retrying,
        }
    }

    /// Nine rows of nine values.
    pub closed spec fn shaped(&self) -> bool {
        &&& self.matrix@.len() == 9
        &&& forall|r: int| 0 <= r < 9 ==> (#[trigger] self.matrix@[r])@.len() == 9
    }

    /// The invariant of the generator.
    pub open spec fn wf(&self) -> bool {
        self.shaped() && gen_wf(self.model())
    }

    /// An empty working matrix with the cursor at the first cell.
    pub fn new() -> (g: Self)
        ensures
            g.wf(),
            g.model() == initial_model(),
    {
        let mut matrix: Vec<Vec<usize>> = Vec::new();
        for r in 0..SIZE
            invariant
                matrix@.len() == r,
                forall|i: int| 0 <= i < r ==> (#[trigger] matrix@[i])@ == Seq::new(9, |c: int| 0usize),
        {
            let mut line: Vec<usize> = Vec::new();
            for c in 0..SIZE
                invariant
                    line@ == Seq::new(c as nat, |c: int| 0usize),
            {
                line.push(0);
                assert(line@ =~= Seq::new((c + 1) as nat, |c: int| 0usize));
            }
            matrix.push(line);
        }
        let g = Generator { matrix, row: 0, col: 0, tries: 0, resets: 0, retrying: false };
        assert(g.model().matrix =~~= initial_model().matrix);
        proof {
            lemma_single_cell_valid(initial_model().matrix);
        }
        g
    }

    /// Whether the matrix is complete.
    pub fn is_done(&self) -> (r: bool)
        requires
            self.wf(),
        ensures
            r == is_finished(self.model()),
    {
        self.row >= SIZE
    }

    fn put(&mut self, r: usize, c: usize, v: usize)
        requires
            old(self).shaped(),
            r < 9,
            c < 9,
        ensures
            final(self).shaped(),
            final(self).model() == (GenModel {
                matrix: set_cell(old(self).model().matrix, r as int, c as int, v as int),
                ..old(self).model()
            }),
    {
        let ghost before = self.model().matrix;
        self.matrix[r].set(c, v);
        assert(self.model().matrix =~~= set_cell(before, r as int, c as int, v as int));
    }

    fn clear_row(&mut self, r: usize)
        requires
            old(self).shaped(),
            r < 9,
        ensures
            final(self).shaped(),
            final(self).model() == (GenModel {
                matrix: clear_row(old(self).model().matrix, r as int),
                ..old(self).model()
            }),
    {
        let ghost before = self.model().matrix;
        assert(before.update(
            r as int,
            Seq::new(9, |k: int| if k < 0 { 0int } else { before[r as int][k] }),
        ) =~~= before);
        for c in 0..SIZE
            invariant
                self.shaped(),
                r < 9,
                self.model() == (GenModel {
                    matrix: before.update(
                        r as int,
                        Seq::new(9, |k: int| if k < c { 0int } else { before[r as int][k] }),
                    ),
                    ..old(self).model()
                }),
                is_square(before),
        {
            self.put(r, c, 0);
            assert(self.model().matrix =~~= before.update(
                r as int,
                Seq::new(9, |k: int| if k < c + 1 { 0int } else { before[r as int][k] }),
            ));
        }
        assert(self.model().matrix =~~= clear_row(before, r as int));
    }

    /// One step on the drawn digit `d`: the working matrix and counters
    /// change as `step_model` says.
    pub fn step(&mut self, d: usize)
        requires
            old(self).wf(),
            !is_finished(old(self).model()),
            1 <= d <= 9,
        ensures
            final(self).wf(),
            final(self).model() == step_model(old(self).model(), d as int),
    {
        let ghost s = self.model();
        proof {
            lemma_step_wf(s, d as int);
        }
        if !self.retrying {
            if self.resets >= ROW_RESETS {
                // Too many retreats: clear this row and the previous one.
                let y = self.row;
                self.clear_row(y);
                if y > 0 {
                    self.row = y - 1;
                    self.clear_row(y - 1);
                }
                self.col = 0;
                self.resets = 0;
                assert(self.model() == rows_reset(s));
            }
            self.put(self.row, self.col, d);
            self.tries = 0;
        } else {
            self.tries = self.tries + 1;
            self.put(self.row, self.col, d);
            if self.tries >= CELL_TRIES {
                // Give the cell up and step back one cell.
                self.resets = self.resets + 1;
                self.put(self.row, self.col, 0);
                proof {
                    lemma_set_cell_twice(s.matrix, s.row, s.col, d as int, 0);
                }
                if self.col == 0 && self.row > 0 {
                    self.row = self.row - 1;
                    self.col = 8;
                } else if self.col > 0 {
                    self.col = self.col - 1;
                }
                self.tries = 0;
            }
        }
        assert(self.model() == placed(s, d as int));
        if matrix_check(&self.matrix) {
            self.col = self.col + 1;
            if self.col >= SIZE {
                self.row = self.row + 1;
                self.col = 0;
            }
            self.tries = 0;
            self.retrying = false;
        } else {
            self.retrying = true;
        }
    }

    /// The completed working matrix.
    pub fn into_matrix(self) -> (m: Vec<Vec<usize>>)
        ensures
            grid_of(m@) == self.model().matrix,
    {
        self.matrix
    }
}

proof fn lemma_initial_wf()
    ensures
        gen_wf(initial_model()),
{
    lemma_single_cell_valid(initial_model().matrix);
}

proof fn lemma_digits_in_range(draws: Seq<usize>)
    ensures
        forall|i: int| 0 <= i < digits_of(draws).len() ==> 1 <= #[trigger] digits_of(draws)[i] <= 9,
{
}

/// Whenever generation completes, every cell holds a digit 1–9 and the
/// matrix passes the validator.
pub proof fn lemma_generated_is_solution(draws: Seq<usize>)
    ensures
        generated(draws) matches Some(g) ==> is_solution(g),
{
    lemma_initial_wf();
    lemma_digits_in_range(draws);
    lemma_run_wf(initial_model(), digits_of(draws));
    let s = run_model(initial_model(), digits_of(draws));
    if is_finished(s) {
        lemma_finished_is_solution(s);
    }
}

proof fn lemma_run_append(s: GenModel, x: Seq<int>, y: Seq<int>)
    ensures
        run_model(s, x + y) == run_model(run_model(s, x), y),
    decreases x.len(),
{
    if is_finished(s) {
    } else if x.len() == 0 {
        assert(x + y =~= y);
    } else {
        assert((x + y).drop_first() =~= x.drop_first() + y);
        lemma_run_append(step_model(s, x[0]), x.drop_first(), y);
    }
}

/// Generation depends on the draws alone: the same draws give the same
/// outcome, and draws beyond those that complete the matrix change nothing.
pub proof fn lemma_generation_deterministic(a: Seq<usize>, b: Seq<usize>, more: Seq<usize>)
    requires
        a == b,
    ensures
        generated(a) == generated(b),
        generated(a) is Some ==> generated(a + more) == generated(a),
{
    assert(digits_of(a + more) =~= digits_of(a) + digits_of(more));
    lemma_run_append(initial_model(), digits_of(a), digits_of(more));
}

/// Runs the generator on the raw draws `draws`, one digit `draw % 9 + 1`
/// per step; the completed matrix, or `None` if the draws run out first.
pub fn generate_from_draws(draws: &Vec<usize>) -> (r: Option<Vec<Vec<usize>>>)
    ensures
        match r {
            Some(m) => generated(draws@) == Some(grid_of(m@)),
            None => generated(draws@) is None,
        },
{
    let mut g = Generator::new();
    let ghost digits = digits_of(draws@);
    let mut i: usize = 0;
    assert(digits.skip(0) =~= digits);
    while i < draws.len() && !g.is_done()
        invariant
            g.wf(),
            i <= draws@.len(),
            digits == digits_of(draws@),
            run_model(initial_model(), digits) == run_model(g.model(), digits.skip(i as int)),
        decreases draws@.len() - i,
    {
        let d = bounded_draw(draws[i], 1, 9);
        proof {
            assert(digits.skip(i as int).drop_first() =~= digits.skip(i + 1));
            assert(digits.skip(i as int)[0] == digits[i as int]);
        }
        g.step(d);
        i += 1;
    }
    if g.is_done() {
        Some(g.into_matrix())
    } else {
        assert(digits.skip(i as int).len() == 0);
        None
    }
}

} // verus!
