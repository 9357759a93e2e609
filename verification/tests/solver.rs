use sudoku::solver;
use sudoku::test_board;

/// The unique completion of the classic example grid.
fn solved_easy_board() -> [[u8; 9]; 9] {
    [
        [5, 3, 4, 6, 7, 8, 9, 1, 2],
        [6, 7, 2, 1, 9, 5, 3, 4, 8],
        [1, 9, 8, 3, 4, 2, 5, 6, 7],
        [8, 5, 9, 7, 6, 1, 4, 2, 3],
        [4, 2, 6, 8, 5, 3, 7, 9, 1],
        [7, 1, 3, 9, 2, 4, 8, 5, 6],
        [9, 6, 1, 5, 3, 7, 2, 8, 4],
        [2, 8, 7, 4, 1, 9, 6, 3, 5],
        [3, 4, 5, 2, 8, 6, 1, 7, 9],
    ]
}

/// Each row, column and 3x3 box of `board` holds each digit 1..=9 once.
fn board_is_valid_solution(board: &[[u8; 9]; 9]) -> bool {
    for row in 0..9usize {
        let mut seen = [false; 10];
        for column in 0..9usize {
            let v = board[row][column] as usize;
            if v < 1 || v > 9 || seen[v] {
                return false;
            }
            seen[v] = true;
        }
    }
    for column in 0..9usize {
        let mut seen = [false; 10];
        for row in 0..9usize {
            let v = board[row][column] as usize;
            if v < 1 || v > 9 || seen[v] {
                return false;
            }
            seen[v] = true;
        }
    }
    for b in 0..9usize {
        let mut seen = [false; 10];
        for i in 0..9usize {
            let v = board[b / 3 * 3 + i / 3][b % 3 * 3 + i % 3] as usize;
            if v < 1 || v > 9 || seen[v] {
                return false;
            }
            seen[v] = true;
        }
    }
    true
}

#[test]
fn flips_bit_0_on() {
    let before: u16 = 0b0000_0000_0000_0000;
    let after: u16 = 0b0000_0000_0000_0001;
    assert!(solver::flip_bit(before, 0) == after);
}

#[test]
fn flips_bit_4_on() {
    let before: u16 = 0b0000_0000_0000_0000;
    let after: u16 = 0b0000_0000_0001_0000;
    assert!(solver::flip_bit(before, 4) == after);
}

#[test]
fn flips_bit_9_on() {
    let before: u16 = 0b0000_0000_0000_0000;
    let after: u16 = 0b0000_0010_0000_0000;
    assert!(solver::flip_bit(before, 9) == after);
}

#[test]
fn reads_bit_4_value() {
    assert!(solver::is_bit_on(0b0000_0000_0001_0000, 4));
}

#[test]
fn not_valid_1_1_5() {
    assert!(!solver::is_value_possible(&mut test_board(), (1, 1), 5))
}

#[test]
fn not_valid_3_3_3() {
    assert!(!solver::is_value_possible(&mut test_board(), (3, 3), 3))
}

#[test]
fn valid_3_3_5() {
    assert!(solver::is_value_possible(&mut test_board(), (3, 3), 5))
}

#[test]
fn not_valid_4_4_3() {
    assert!(!solver::is_value_possible(&mut test_board(), (4, 4), 3))
}

#[test]
fn valid_4_4_5() {
    assert!(solver::is_value_possible(&mut test_board(), (4, 4), 5))
}

#[test]
fn solves_easy_board() {
    let mut board = [
        [5, 3, 0, 0, 7, 0, 0, 0, 0],
        [6, 0, 0, 1, 9, 5, 0, 0, 0],
        [0, 9, 8, 0, 0, 0, 0, 6, 0],
        [8, 0, 0, 0, 6, 0, 0, 0, 3],
        [4, 0, 0, 8, 0, 3, 0, 0, 1],
        [7, 0, 0, 0, 2, 0, 0, 0, 6],
        [0, 6, 0, 0, 0, 0, 2, 8, 0],
        [0, 0, 0, 4, 1, 9, 0, 0, 5],
        [0, 0, 0, 0, 8, 0, 0, 7, 9],
    ];

    solver::solve(&mut board);

    assert_eq!(
        board,
        [
            [5, 3, 4, 6, 7, 8, 9, 1, 2],
            [6, 7, 2, 1, 9, 5, 3, 4, 8],
            [1, 9, 8, 3, 4, 2, 5, 6, 7],
            [8, 5, 9, 7, 6, 1, 4, 2, 3],
            [4, 2, 6, 8, 5, 3, 7, 9, 1],
            [7, 1, 3, 9, 2, 4, 8, 5, 6],
            [9, 6, 1, 5, 3, 7, 2, 8, 4],
            [2, 8, 7, 4, 1, 9, 6, 3, 5],
            [3, 4, 5, 2, 8, 6, 1, 7, 9],
        ]
    )
}

#[test]
fn solves_hard_board() {
    let mut board = [
        [8, 0, 0, 0, 0, 0, 0, 0, 0],
        [0, 0, 3, 6, 0, 0, 0, 0, 0],
        [0, 7, 0, 0, 9, 0, 2, 0, 0],
        [0, 5, 0, 0, 0, 7, 0, 0, 0],
        [0, 0, 0, 0, 4, 5, 0, 0, 0],
        [0, 0, 0, 1, 0, 0, 0, 3, 0],
        [0, 0, 1, 0, 0, 0, 0, 6, 8],
        [0, 0, 8, 5, 0, 0, 0, 1, 0],
        [0, 9, 0, 0, 0, 0, 4, 0, 0],
    ];

    solver::solve(&mut board);

    assert_eq!(
        board,
        [
            [8, 1, 2, 7, 5, 3, 6, 4, 9],
            [9, 4, 3, 6, 2, 8, 7, 5, 1],
            [6, 7, 5, 4, 9, 1, 2, 8, 3],
            [2, 5, 6, 3, 8, 7, 1, 9, 4],
            [1, 3, 9, 2, 4, 5, 8, 7, 6],
            [7, 8, 4, 1, 6, 9, 5, 3, 2],
            [5, 2, 1, 9, 7, 4, 3, 6, 8],
            [4, 6, 8, 5, 3, 2, 9, 1, 7],
            [3, 9, 7, 8, 1, 6, 4, 2, 5],
        ]
    )
}

#[test]
fn solved_units_hold_each_digit_once() {
    let mut board = test_board();
    solver::solve(&mut board);
    assert!(board_is_valid_solution(&board));
}

#[test]
fn solve_preserves_clues() {
    let clues = test_board();
    let mut board = test_board();
    solver::solve(&mut board);
    for row in 0..9usize {
        for column in 0..9usize {
            if clues[row][column] != 0 {
                assert_eq!(board[row][column], clues[row][column]);
            }
        }
    }
}

#[test]
fn possible_when_value_absent_from_units() {
    // 5 occurs nowhere in row 3, column 3 or the centre box of the fixture.
    assert!(solver::is_value_possible(&test_board(), (3, 3), 5));
}

#[test]
fn not_possible_when_value_in_column_only() {
    let mut board = [[0u8; 9]; 9];
    board[0][4] = 6;
    assert!(!solver::is_value_possible(&board, (8, 4), 6));
    assert!(solver::is_value_possible(&board, (8, 3), 6));
}

#[test]
fn not_possible_when_value_in_box_only() {
    let mut board = [[0u8; 9]; 9];
    board[4][4] = 2;
    assert!(!solver::is_value_possible(&board, (3, 5), 2));
    assert!(solver::is_value_possible(&board, (3, 2), 2));
}

#[test]
fn target_cell_own_content_counts() {
    // The scan does not exclude the target cell itself: a digit already
    // written at the coordinate blocks itself.
    let mut board = [[0u8; 9]; 9];
    board[2][7] = 9;
    assert!(!solver::is_value_possible(&board, (2, 7), 9));
    assert!(solver::is_value_possible(&board, (2, 7), 1));
}

#[test]
fn last_cell_checks_box_origin_6_6() {
    // Boundary coordinate (8, 8): its box spans rows 6..=8, columns 6..=8.
    let mut board = [[0u8; 9]; 9];
    board[6][6] = 7;
    assert!(!solver::is_value_possible(&board, (8, 8), 7));
    board[6][6] = 0;
    board[6][5] = 7;
    assert!(solver::is_value_possible(&board, (8, 8), 7));
}

#[test]
fn solving_solved_board_leaves_it_unchanged() {
    let mut board = solved_easy_board();
    solver::solve(&mut board);
    assert_eq!(board, solved_easy_board());
}

#[test]
fn solving_twice_gives_identical_output() {
    let mut first = test_board();
    let mut second = test_board();
    solver::solve(&mut first);
    solver::solve(&mut second);
    assert_eq!(first, second);
}

#[test]
fn single_clue_board_gets_completed() {
    let mut board = [[0u8; 9]; 9];
    board[0][0] = 8;
    solver::solve(&mut board);
    assert!(board_is_valid_solution(&board));
    assert_eq!(board[0][0], 8);
}

#[test]
fn unsolvable_board_is_left_unchanged() {
    // Two identical clues in row 0 and a doctored column leave cell (0, 2)
    // with no legal digit: the search exhausts and restores the grid.
    let board = [
        [5, 5, 0, 6, 7, 8, 9, 1, 2],
        [6, 7, 4, 1, 9, 5, 3, 4, 8],
        [1, 9, 8, 3, 4, 2, 5, 6, 7],
        [8, 5, 9, 7, 6, 1, 4, 2, 3],
        [4, 2, 6, 8, 5, 3, 7, 9, 1],
        [7, 1, 3, 9, 2, 4, 8, 5, 6],
        [9, 6, 1, 5, 3, 7, 2, 8, 4],
        [2, 8, 7, 4, 1, 9, 6, 3, 5],
        [3, 4, 5, 2, 8, 6, 1, 7, 9],
    ];
    let mut attempt = board;
    solver::solve(&mut attempt);
    assert_eq!(attempt[0][2], 0);
    assert_eq!(attempt, board);
}

#[test]
fn flipping_same_bit_twice_restores_mask() {
    let mask: u16 = 0b0000_0001_0110_1001;
    assert_eq!(solver::flip_bit(solver::flip_bit(mask, 6), 6), mask);
}

#[test]
fn flip_turns_a_set_bit_off() {
    let mask: u16 = 0b0000_0000_0010_0000;
    assert_eq!(solver::flip_bit(mask, 5), 0);
    assert!(!solver::is_bit_on(solver::flip_bit(mask, 5), 5));
}
