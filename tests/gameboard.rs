use sudoku::gameboard::Gameboard;
use sudoku::generator::{generate_from_draws, Generator};
use sudoku::matrix::matrix_check;
use sudoku::random::{bounded_draw, random_num};

fn draws(seed: u64, n: usize) -> Vec<usize> {
    let mut x = seed;
    let mut out = Vec::with_capacity(n);
    for _ in 0..n {
        x ^= x << 13;
        x ^= x >> 7;
        x ^= x << 17;
        out.push(x as usize);
    }
    out
}

fn board_matrix(g: &Gameboard) -> Vec<Vec<usize>> {
    g.cells
        .iter()
        .map(|row| row.iter().map(|v| *v as usize).collect())
        .collect()
}

#[test]
fn new_board_is_empty() {
    let g = Gameboard::new();
    for r in 0..9 {
        for c in 0..9 {
            assert_eq!(g.cells[r][c], 0);
            assert_eq!(g.char([c, r]), None);
        }
    }
}

#[test]
fn set_then_char_round_trip() {
    let mut g = Gameboard::new();
    let digits = ['1', '2', '3', '4', '5', '6', '7', '8', '9'];
    for v in 1..=9u8 {
        g.set([2, 7], v);
        assert_eq!(g.char([2, 7]), Some(digits[(v - 1) as usize]));
        assert_eq!(g.cells[7][2], v);
    }
    g.set([2, 7], 0);
    assert_eq!(g.char([2, 7]), None);
    assert_eq!(g.char([7, 2]), None);
}

#[test]
fn set_uses_column_then_row() {
    let mut g = Gameboard::new();
    g.set([8, 0], 5);
    assert_eq!(g.cells[0][8], 5);
    assert_eq!(g.cells[8][0], 0);
    assert_eq!(g.char([8, 0]), Some('5'));
}

#[test]
fn question_generate_gives_a_valid_puzzle() {
    let mut g = Gameboard::new();
    g.question_generate();
    let m = board_matrix(&g);
    assert!(matrix_check(&m));
    assert!(m.iter().all(|row| row.iter().all(|v| *v <= 9)));
    let filled = m.iter().flatten().filter(|v| **v != 0).count();
    assert!(filled > 0 && filled < 81);
}

#[test]
fn generation_from_draws_is_complete_and_valid() {
    let d = draws(0x9e37_79b9_7f4a_7c15, 3_000_000);
    let m = generate_from_draws(&d).expect("draws suffice");
    assert_eq!(m.len(), 9);
    for row in &m {
        assert_eq!(row.len(), 9);
        for v in row {
            assert!((1..=9).contains(v));
        }
    }
    assert!(matrix_check(&m));
}

#[test]
fn generation_from_same_draws_is_reproducible() {
    let d = draws(12345, 3_000_000);
    let a = generate_from_draws(&d);
    let b = generate_from_draws(&d.clone());
    assert!(a.is_some());
    assert_eq!(a, b);
    let mut longer = d.clone();
    longer.extend(draws(777, 1000));
    assert_eq!(generate_from_draws(&longer), a);
}

#[test]
fn generation_without_draws_is_none() {
    assert_eq!(generate_from_draws(&vec![]), None);
    assert_eq!(generate_from_draws(&vec![0; 10]), None);
}

#[test]
fn generator_steps_fill_the_first_row() {
    // Draws 0..8 select the digits 1..9: the first row fills in order.
    let mut g = Generator::new();
    for k in 0..9usize {
        assert!(!g.is_done());
        g.step(k + 1);
    }
    let m = g.into_matrix();
    assert_eq!(m[0], vec![1, 2, 3, 4, 5, 6, 7, 8, 9]);
    assert_eq!(m[1], vec![0; 9]);
}

#[test]
fn generator_retries_a_conflicting_digit() {
    let mut g = Generator::new();
    g.step(4);
    g.step(4); // conflicts with (0, 0): retried in place
    g.step(6); // replaces it
    g.step(2);
    let m = g.into_matrix();
    assert_eq!(&m[0][..4], &[4, 6, 2, 0]);
}

#[test]
fn generator_gives_a_cell_up_after_twenty_tries() {
    let mut g = Generator::new();
    g.step(1);
    // The placement at (0, 1) and nineteen retries all conflict; the
    // twentieth retry gives the cell up, and the cursor comes back to it empty.
    for _ in 0..21 {
        g.step(1);
    }
    g.step(3);
    let m = g.into_matrix();
    assert_eq!(&m[0][..3], &[1, 3, 0]);
}

#[test]
fn dig_holes_with_clears_by_threshold() {
    let mut full = Gameboard::new();
    for r in 0..9 {
        for c in 0..9 {
            full.set([c, r], ((r * 3 + r / 3 + c) % 9 + 1) as u8);
        }
    }
    // 6 % 10 + 1 = 7 > 6: every cell cleared.
    let mut g = Gameboard { cells: full.cells };
    g.dig_holes_with(&vec![6; 81]);
    assert_eq!(g.cells, [[0u8; 9]; 9]);
    // 5 % 10 + 1 = 6: every cell kept.
    let mut g = Gameboard { cells: full.cells };
    g.dig_holes_with(&vec![5; 81]);
    assert_eq!(g.cells, full.cells);
    // Draw 9 * 4 + 1 decides the second cell of the center box, (3, 4).
    let mut d = vec![0; 81];
    d[37] = 9;
    let mut g = Gameboard { cells: full.cells };
    g.dig_holes_with(&d);
    for r in 0..9 {
        for c in 0..9 {
            let expect = if (r, c) == (3, 4) { 0 } else { full.cells[r][c] };
            assert_eq!(g.cells[r][c], expect);
        }
    }
}

#[test]
fn dig_holes_clears_four_in_ten() {
    let mut full = Gameboard::new();
    for r in 0..9 {
        for c in 0..9 {
            full.set([c, r], 1 + ((r + c) % 9) as u8);
        }
    }
    // Draws that cover every residue mod 10 evenly clear exactly 40%.
    let mut cleared = 0;
    for round in 0..10usize {
        let d: Vec<usize> = (0..81usize).map(|k| k + round * 81).collect();
        let mut g = Gameboard { cells: full.cells };
        g.dig_holes_with(&d);
        cleared += g.cells.iter().flatten().filter(|v| **v == 0).count();
    }
    assert_eq!(cleared, 324);
    // With the random source the fraction is near 0.4.
    let mut cleared = 0;
    for _ in 0..200 {
        let mut g = Gameboard { cells: full.cells };
        let d = draws_random();
        g.dig_holes_with(&d);
        cleared += g.cells.iter().flatten().filter(|v| **v == 0).count();
    }
    let frac = cleared as f64 / (200.0 * 81.0);
    assert!((frac - 0.4).abs() < 0.03, "fraction {}", frac);
}

fn draws_random() -> Vec<usize> {
    (0..81).map(|_| random_num(0, usize::MAX)).collect()
}

#[test]
fn bounded_draw_values() {
    assert_eq!(bounded_draw(0, 1, 9), 1);
    assert_eq!(bounded_draw(8, 1, 9), 9);
    assert_eq!(bounded_draw(9, 1, 9), 1);
    assert_eq!(bounded_draw(23, 1, 10), 4);
    assert_eq!(bounded_draw(usize::MAX, 0, 10), usize::MAX % 10);
}

#[test]
fn random_num_stays_in_range() {
    for _ in 0..1000 {
        let v = random_num(1, 9);
        assert!((1..=9).contains(&v));
    }
}
