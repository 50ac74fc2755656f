//! The game board: the caller-owned 9×9 grid, its accessors, and puzzle
//! generation (a full solution, then holes dug at random).

use vstd::prelude::*;
use crate::generator::{lemma_finished_is_solution, Generator};
use crate::matrix::{
    box_col, box_index, box_positions, box_row, grid_of, is_carving_of, is_solution, is_square,
    is_valid, lemma_box_cell_in_range, lemma_carving_keeps_valid, lemma_cell_in_its_box, set_cell,
    SIZE,
};
use crate::random::{bounded_draw, random_num, random_usize};

verus! {

/// Generator steps tried before generation is abandoned: the bound makes
/// the randomized search finite.
pub const STEP_BUDGET: usize = 100_000_000;

/// Stores game board information.
pub struct Gameboard {
    /// Stores the content of the cells, row by row.
    /// `0` is an empty cell.
    pub cells: [[u8; 9]; 9],
}

/// The mathematical view of the board's cells, row by row.
pub open spec fn board_grid(cells: [[u8; 9]; 9]) -> Seq<Seq<int>> {
    Seq::new(9, |r: int| Seq::new(9, |c: int| cells@[r]@[c] as int))
}

impl View for Gameboard {
    type V = Seq<Seq<int>>;

    open spec fn view(&self) -> Seq<Seq<int>> {
        board_grid(self.cells)
    }
}

/// The character shown for a cell value: its digit, or none for an empty cell.
pub open spec fn digit_char(v: int) -> Option<char> {
    if v == 1 {
        Some('1')
    } else if v == 2 {
        Some('2')
    } else if v == 3 {
        Some('3')
    } else if v == 4 {
        Some('4')
    } else if v == 5 {
        Some('5')
    } else if v == 6 {
        Some('6')
    } else if v == 7 {
        Some('7')
    } else if v == 8 {
        Some('8')
    } else if v == 9 {
        Some('9')
    } else {
        None
    }
}

/// The position of the draw that decides the cell at row `r`, column `c`
/// when holes are dug box by box, each box row by row.
pub open spec fn carve_index(r: int, c: int) -> int {
    9 * box_index(r, c) + 3 * (r % 3) + c % 3
}

/// A raw draw clears its cell when the number 1–10 it selects exceeds 6.
pub open spec fn clears(draw: usize) -> bool {
    draw % 10 + 1 > 6
}

proof fn lemma_carve_index(r: int, c: int)
    requires
        0 <= r < 9,
        0 <= c < 9,
    ensures
        0 <= carve_index(r, c) < 81,
        box_row(carve_index(r, c) / 9, carve_index(r, c) % 9) == r,
        box_col(carve_index(r, c) / 9, carve_index(r, c) % 9) == c,
{
    lemma_cell_in_its_box(r, c);
    let k = 3 * (r % 3) + c % 3;
    assert(carve_index(r, c) / 9 == box_index(r, c) && carve_index(r, c) % 9 == k);
}

/// Reading a cell after `set` gives the character of the value written:
/// its digit for 1–9, and none for 0.
pub proof fn lemma_set_then_char(
    before: Gameboard,
    after: Gameboard,
    col: int,
    row: int,
    v: u8,
)
    requires
        0 <= col < 9,
        0 <= row < 9,
        after@ == set_cell(before@, row, col, v as int),
    ensures
        digit_char(after@[row][col]) == digit_char(v as int),
        v == 0 ==> digit_char(after@[row][col]) is None,
        1 <= v <= 9 ==> digit_char(after@[row][col]) is Some,
{
    assert(after@[row][col] == v as int);
}

impl Gameboard {
    /// Creates a new game board, every cell empty.
    pub fn new() -> (g: Gameboard)
        ensures
            is_square(g@),
            forall|r: int, c: int| 0 <= r < 9 && 0 <= c < 9 ==> #[trigger] g@[r][c] == 0,
    {
        Gameboard { cells: [[0u8; 9]; 9] }
    }

    /// The character shown at column `ind[0]`, row `ind[1]`.
    pub fn char(&self, ind: [usize; 2]) -> (r: Option<char>)
        requires
            ind@[0] < 9,
            ind@[1] < 9,
        ensures
            r == digit_char(self@[ind@[1] as int][ind@[0] as int]),
    {
        match self.cells[ind[1]][ind[0]] {
            1 => Some('1'),
            2 => Some('2'),
            3 => Some('3'),
            4 => Some('4'),
            5 => Some('5'),
            6 => Some('6'),
            7 => Some('7'),
            8 => Some('8'),
            9 => Some('9'),
            _ => None,
        }
    }

    /// Sets the value at column `ind[0]`, row `ind[1]`.
    pub fn set(&mut self, ind: [usize; 2], val: u8)
        requires
            ind@[0] < 9,
            ind@[1] < 9,
        ensures
            final(self)@ == set_cell(
                old(self)@,
                ind@[1] as int,
                ind@[0] as int,
                val as int,
            ),
    {
        let ghost before = self@;
        self.cells[ind[1]][ind[0]] = val;
        assert(self@ =~~= set_cell(
            before,
            ind@[1] as int,
            ind@[0] as int,
            val as int,
        ));
    }

    /// Digs holes with the raw draws `draws`: box by box, each box row by
    /// row, the cell that draw `9 * box + k` falls to is cleared when the
    /// number 1–10 it selects exceeds 6, and kept otherwise.
    pub fn dig_holes_with(&mut self, draws: &Vec<usize>)
        requires
            draws@.len() == 81,
        ensures
            forall|r: int, c: int|
                0 <= r < 9 && 0 <= c < 9 ==> #[trigger] final(self)@[r][c] == if clears(
                    draws@[carve_index(r, c)],
                ) {
                    0
                } else {
                    old(self)@[r][c]
                },
    {
        let ghost start = self@;
        for b in 0..SIZE
            invariant
                draws@.len() == 81,
                forall|r: int, c: int|
                    0 <= r < 9 && 0 <= c < 9 ==> #[trigger] self@[r][c] == if carve_index(r, c)
                        < 9 * b && clears(draws@[carve_index(r, c)]) {
                        0
                    } else {
                        start[r][c]
                    },
        {
            let pos = box_positions(b);
            for j in 0..SIZE
                invariant
                    draws@.len() == 81,
                    b < 9,
                    pos@.len() == 9,
                    forall|k: int|
                        0 <= k < 9 ==> (#[trigger] pos@[k]).0 == box_row(b as int, k) && pos@[k].1
                            == box_col(b as int, k),
                    forall|r: int, c: int|
                        0 <= r < 9 && 0 <= c < 9 ==> #[trigger] self@[r][c] == if carve_index(r, c)
                            < 9 * b + j && clears(draws@[carve_index(r, c)]) {
                            0
                        } else {
                            start[r][c]
                        },
            {
                let (y, x) = pos[j];
                let ghost i = 9 * b + j;
                proof {
                    lemma_box_cell_in_range(b as int, j as int);
                    lemma_carve_index(y as int, x as int);
                    assert(carve_index(y as int, x as int) == i);
                }
                let ghost before = self@;
                if bounded_draw(draws[9 * b + j], 1, 10) > 6 {
                    self.set([x, y], 0);
                }
                proof {
                    assert forall|r: int, c: int| 0 <= r < 9 && 0 <= c < 9 && (r != y || c != x) implies carve_index(r, c) != i by {
                        lemma_carve_index(r, c);
                    }
                }
            }
        }
    }

    /// Digs holes at random: each cell is cleared with probability 0.4.
    fn dig_holes(&mut self)
        ensures
            is_carving_of(final(self)@, old(self)@),
    {
        let mut draws: Vec<usize> = Vec::new();
        for k in 0..81usize
            invariant
                draws@.len() == k,
        {
            draws.push(random_usize());
        }
        self.dig_holes_with(&draws);
    }

    /// Fills the board with a complete, valid matrix from the generator;
    /// `false`, with the board untouched, if the step budget runs out first.
    fn generate_sudoku_matrix(&mut self) -> (done: bool)
        ensures
            done ==> is_solution(final(self)@),
            !done ==> final(self).cells == old(self).cells,
    {
        let mut g = Generator::new();
        let mut steps: usize = 0;
        while steps < STEP_BUDGET && !g.is_done()
            invariant
                g.wf(),
            decreases STEP_BUDGET - steps,
        {
            let d = random_num(1, 9);
            g.step(d);
            steps += 1;
        }
        if !g.is_done() {
            return false;
        }
        proof {
            lemma_finished_is_solution(g.model());
        }
        let matrix = g.into_matrix();
        let ghost m = grid_of(matrix@);
        for y in 0..SIZE
            invariant
                m == grid_of(matrix@),
                is_solution(m),
                forall|r: int, c: int|
                    0 <= r < y && 0 <= c < 9 ==> #[trigger] self@[r][c] == m[r][c],
        {
            for x in 0..SIZE
                invariant
                    m == grid_of(matrix@),
                    is_solution(m),
                    y < 9,
                    forall|r: int, c: int|
                        0 <= r < 9 && 0 <= c < 9 && (r < y || (r == y && c < x)) ==> #[trigger] self@[r][c] == m[r][c],
            {
                assert(1 <= m[y as int][x as int] <= 9);
                self.set([x, y], matrix[y][x] as u8);
            }
        }
        assert(self@ =~~= m);
        true
    }

    /// Generates a puzzle: a complete, valid solution with holes dug in it.
    /// Whether generation finishes within its step budget is up to the
    /// draws; if it does not, the board is left as it was.
    pub fn question_generate(&mut self)
        ensures
            (exists|s: Seq<Seq<int>>|
                is_solution(s) && #[trigger] is_carving_of(final(self)@, s))
                || final(self).cells == old(self).cells,
            is_valid(old(self)@) ==> is_valid(final(self)@),
    {
        if self.generate_sudoku_matrix() {
            let ghost sol = self@;
            self.dig_holes();
            proof {
                lemma_carving_keeps_valid(self@, sol);
            }
        }
    }
}

} // verus!
