use sudoku::matrix::{arr_repeat_check, box_positions, matrix_check};

fn solved() -> Vec<Vec<usize>> {
    vec![
        vec![1, 2, 3, 4, 5, 6, 7, 8, 9],
        vec![4, 5, 6, 7, 8, 9, 1, 2, 3],
        vec![7, 8, 9, 1, 2, 3, 4, 5, 6],
        vec![2, 3, 4, 5, 6, 7, 8, 9, 1],
        vec![5, 6, 7, 8, 9, 1, 2, 3, 4],
        vec![8, 9, 1, 2, 3, 4, 5, 6, 7],
        vec![3, 4, 5, 6, 7, 8, 9, 1, 2],
        vec![6, 7, 8, 9, 1, 2, 3, 4, 5],
        vec![9, 1, 2, 3, 4, 5, 6, 7, 8],
    ]
}

#[test]
fn matrix_check_works() {
    let test_example = vec![
        vec![1, 2, 3, 4, 5, 6, 7, 8, 9],
        vec![4, 5, 6, 7, 8, 9, 1, 2, 3],
        vec![7, 8, 9, 1, 2, 3, 4, 5, 6],
        vec![2, 3, 4, 5, 6, 7, 8, 9, 1],
        vec![5, 6, 7, 8, 9, 1, 2, 3, 4],
        vec![8, 9, 1, 2, 3, 4, 5, 6, 7],
        vec![3, 4, 5, 6, 7, 8, 9, 1, 2],
        vec![6, 7, 8, 9, 1, 2, 3, 4, 5],
        vec![9, 1, 2, 3, 4, 5, 6, 7, 8],
    ];

    assert!(matrix_check(&test_example));
}

#[test]
fn matrix_check_works_2() {
    let test_example = vec![
        vec![1, 2, 3, 4, 5, 6, 7, 8, 9],
        vec![0; 9],
        vec![7, 8, 9, 1, 2, 3, 4, 5, 6],
        vec![2, 3, 4, 5, 6, 7, 8, 9, 1],
        vec![5, 6, 7, 8, 9, 1, 2, 3, 4],
        vec![8, 9, 1, 2, 3, 4, 5, 6, 7],
        vec![3, 4, 5, 6, 7, 8, 9, 1, 2],
        vec![6, 7, 8, 9, 1, 2, 3, 4, 5],
        vec![0; 9],
    ];

    assert!(matrix_check(&test_example));
}

#[test]
fn matrix_check_works_3() {
    let test_example = vec![
        vec![1, 2, 3, 4, 0, 0, 7, 8, 9],
        vec![0; 9],
        vec![7, 8, 9, 1, 2, 3, 4, 5, 6],
        vec![2, 3, 4, 5, 6, 7, 8, 9, 1],
        vec![5, 6, 7, 8, 9, 1, 2, 3, 4],
        vec![8, 9, 1, 2, 3, 4, 5, 6, 7],
        vec![3, 4, 5, 6, 7, 8, 9, 1, 2],
        vec![6, 7, 8, 9, 1, 2, 3, 4, 5],
        vec![0; 9],
    ];

    assert!(matrix_check(&test_example));
}

#[test]
fn matrix_check_works_err() {
    let test_example = vec![
        vec![2, 2, 3, 4, 5, 6, 7, 8, 9],
        vec![4, 5, 6, 7, 8, 9, 1, 2, 3],
        vec![7, 8, 9, 1, 2, 3, 4, 5, 6],
        vec![2, 3, 4, 5, 6, 7, 8, 9, 1],
        vec![5, 6, 7, 8, 9, 1, 2, 3, 4],
        vec![8, 9, 1, 2, 3, 4, 5, 6, 7],
        vec![3, 4, 5, 6, 7, 8, 9, 1, 2],
        vec![6, 7, 8, 9, 1, 2, 3, 4, 5],
        vec![9, 1, 2, 3, 4, 5, 6, 7, 8],
    ];

    assert_eq!(matrix_check(&test_example), false);
}

#[test]
fn matrix_check_works_err_2() {
    let test_example = vec![
        vec![1, 2, 3, 4, 5, 6, 7, 8, 9],
        vec![4, 5, 6, 7, 8, 9, 1, 5, 3],
        vec![7, 8, 9, 1, 2, 3, 4, 5, 6],
        vec![2, 3, 4, 5, 6, 7, 8, 9, 1],
        vec![5, 6, 7, 8, 9, 1, 2, 3, 4],
        vec![8, 9, 1, 2, 3, 4, 5, 6, 7],
        vec![3, 4, 5, 6, 7, 8, 9, 1, 2],
        vec![6, 7, 8, 9, 1, 2, 3, 4, 5],
        vec![9, 1, 2, 3, 4, 5, 6, 7, 8],
    ];

    assert_eq!(matrix_check(&test_example), false);
}

#[test]
fn empty_matrix_is_valid() {
    assert!(matrix_check(&vec![vec![0; 9]; 9]));
}

#[test]
fn copying_a_value_into_its_row_column_or_box_is_invalid() {
    // Row: (0, 0) takes the value of (0, 4).
    let mut m = solved();
    m[0][0] = m[0][4];
    assert!(!matrix_check(&m));
    // Column: (0, 0) takes the value of (5, 0).
    let mut m = solved();
    m[0][0] = m[5][0];
    assert!(!matrix_check(&m));
    // Box only: (4, 4) takes the value of (3, 5).
    let mut m = solved();
    m[4][4] = m[3][5];
    assert!(!matrix_check(&m));
}

#[test]
fn duplicate_only_in_a_column_is_found() {
    let mut m = vec![vec![0; 9]; 9];
    m[0][2] = 7;
    m[8][2] = 7;
    assert!(!matrix_check(&m));
}

#[test]
fn duplicate_only_in_a_box_is_found() {
    let mut m = vec![vec![0; 9]; 9];
    m[6][6] = 3;
    m[8][8] = 3;
    assert!(!matrix_check(&m));
    m[8][8] = 4;
    assert!(matrix_check(&m));
}

#[test]
fn zeros_never_collide() {
    assert!(arr_repeat_check(&vec![0, 0, 0, 5, 0]));
    assert!(!arr_repeat_check(&vec![0, 5, 0, 5]));
    assert!(arr_repeat_check(&vec![]));
    assert!(arr_repeat_check(&vec![9]));
}

#[test]
fn center_box_membership() {
    let pos = box_positions(4);
    let expected: Vec<(usize, usize)> = vec![
        (3, 3), (3, 4), (3, 5),
        (4, 3), (4, 4), (4, 5),
        (5, 3), (5, 4), (5, 5),
    ];
    assert_eq!(pos, expected);
}

#[test]
fn corner_box_membership() {
    assert_eq!(box_positions(0)[0], (0, 0));
    assert_eq!(box_positions(2)[0], (0, 6));
    assert_eq!(box_positions(6)[0], (6, 0));
    assert_eq!(box_positions(8)[8], (8, 8));
    assert_eq!(box_positions(5)[4], (4, 7));
}
