use sudoku::board::{block_iter, col_iter, row_iter, Solution, Sudoku};
use sudoku::solver::solve;
use sudoku::value::{Error, Value};

const SOLVED_GRID: &str = "534678912\n\
                           672195348\n\
                           198342567\n\
                           859761423\n\
                           426853791\n\
                           713924856\n\
                           961537284\n\
                           287419635\n\
                           345286179";

const CLASSIC_PUZZLE: &str = "53  7    \n\
                              6  195   \n \
                               98    6 \n\
                              8   6   3\n\
                              4  8 3  1\n\
                              7   2   6\n \
                               6    28 \n   \
                                  419  5\n    \
                                   8  79";

#[test]
fn test_block_iter() {
    let indices = block_iter(0);
    assert_eq!(
        indices,
        vec![
            (0, 0),
            (0, 1),
            (0, 2),
            (1, 0),
            (1, 1),
            (1, 2),
            (2, 0),
            (2, 1),
            (2, 2)
        ]
    );
}

#[test]
fn test_validate_sudoku() {
    let sudoku = Sudoku::from_str(SOLVED_GRID).unwrap();
    println!("{}", sudoku.to_text());
    assert!(sudoku.valid());
}

#[test]
fn test_solve_sudoku() {
    let sudoku = Sudoku::from_str(CLASSIC_PUZZLE).unwrap();
    let solution = solve(sudoku).expect("unsat");
    println!("{}", solution.to_text());
    assert!(solution.valid());
}

#[test]
fn fresh_cell_contains_every_digit() {
    let cell = Value::new(0).unwrap();
    assert!(!cell.is_final());
    for v in 1..=9u8 {
        assert!(cell.contains(v));
    }
}

#[test]
fn remove_eliminates_digit_from_open_cell() {
    for v in 1..=9u8 {
        let mut cell = Value::new(0).unwrap();
        assert!(cell.contains(v));
        cell.remove(v);
        assert!(!cell.contains(v));
    }
}

#[test]
fn remove_keeps_final_cell_untouched() {
    for v in 1..=9u8 {
        let mut cell = Value::new(v).unwrap();
        assert!(cell.is_final());
        cell.remove(v);
        assert!(cell.is_final());
        assert_eq!(cell.value(), v);
        let other = if v == 9 { 1 } else { v + 1 };
        cell.remove(other);
        assert_eq!(cell.value(), v);
    }
}

#[test]
fn set_forces_cell_from_any_state() {
    // From the open state.
    let mut cell = Value::new(0).unwrap();
    cell.set(4);
    assert!(cell.is_final());
    assert_eq!(cell.value(), 4);
    // From an already final state.
    cell.set(7);
    assert!(cell.is_final());
    assert_eq!(cell.value(), 7);
    // From a partly narrowed state.
    let mut narrowed = Value::new(0).unwrap();
    narrowed.remove(1);
    narrowed.remove(2);
    narrowed.set(2);
    assert!(narrowed.is_final());
    assert_eq!(narrowed.value(), 2);
}

#[test]
fn value_rejects_digits_beyond_nine() {
    assert_eq!(Value::new(10), Err(Error::ValueOutOfRange));
    assert_eq!(Value::new(255), Err(Error::ValueOutOfRange));
    for v in 0..=9u8 {
        assert!(Value::new(v).is_ok());
    }
}

#[test]
fn row_and_col_iter_enumerate_straight_lines() {
    let row = row_iter(3);
    let expected_row: Vec<(usize, usize)> = (0..9).map(|k| (3, k)).collect();
    assert_eq!(row, expected_row);
    let col = col_iter(7);
    let expected_col: Vec<(usize, usize)> = (0..9).map(|k| (k, 7)).collect();
    assert_eq!(col, expected_col);
}

#[test]
fn block_iter_covers_last_block() {
    let indices = block_iter(8);
    assert_eq!(
        indices,
        vec![
            (6, 6),
            (6, 7),
            (6, 8),
            (7, 6),
            (7, 7),
            (7, 8),
            (8, 6),
            (8, 7),
            (8, 8)
        ]
    );
}

#[test]
fn duplicate_digit_in_row_is_invalid() {
    // The solved grid with the end of its first row corrupted: two 1s in
    // the first row, the rest unchanged.
    let grid = "534678911\n\
                672195348\n\
                198342567\n\
                859761423\n\
                426853791\n\
                713924856\n\
                961537284\n\
                287419635\n\
                345286179";
    let sudoku = Sudoku::from_str(grid).unwrap();
    assert_eq!(sudoku.validate(), Solution::Invalid);
    assert!(!sudoku.valid());
}

#[test]
fn duplicate_digit_in_column_is_invalid() {
    let grid = "5        \n         \n         \n5        ";
    let sudoku = Sudoku::from_str(grid).unwrap();
    assert_eq!(sudoku.validate(), Solution::Invalid);
}

#[test]
fn duplicate_digit_in_block_is_invalid() {
    let grid = "5        \n 5       ";
    let sudoku = Sudoku::from_str(grid).unwrap();
    assert_eq!(sudoku.validate(), Solution::Invalid);
}

#[test]
fn consistent_partial_grid_is_incomplete() {
    let sudoku = Sudoku::from_str(CLASSIC_PUZZLE).unwrap();
    assert_eq!(sudoku.validate(), Solution::Incomplete);
    assert!(!sudoku.valid());
    let empty = Sudoku::new();
    assert_eq!(empty.validate(), Solution::Incomplete);
}

#[test]
fn complete_grid_validates_as_valid() {
    let sudoku = Sudoku::from_str(SOLVED_GRID).unwrap();
    assert_eq!(sudoku.validate(), Solution::Valid);
}

#[test]
fn solver_finds_the_known_solution() {
    let sudoku = Sudoku::from_str(CLASSIC_PUZZLE).unwrap();
    let solution = solve(sudoku).expect("unsat");
    let mut expected = String::from(SOLVED_GRID);
    expected.push('\n');
    assert_eq!(solution.to_text(), expected);
}

#[test]
fn solving_a_solved_grid_returns_it_unchanged() {
    let solved = Sudoku::from_str(SOLVED_GRID).unwrap();
    let again = solve(solved).expect("a solved grid must stay solvable");
    assert_eq!(again.to_text(), solved.to_text());
    for x in 0..9 {
        for y in 0..9 {
            assert_eq!(again.get(x, y), solved.get(x, y));
        }
    }
}

#[test]
fn resolving_a_solution_is_idempotent() {
    let sudoku = Sudoku::from_str(CLASSIC_PUZZLE).unwrap();
    let solution = solve(sudoku).expect("unsat");
    let resolved = solve(solution).expect("a solution must stay solvable");
    assert_eq!(resolved.to_text(), solution.to_text());
}

#[test]
fn unsolvable_grid_reports_no_solution() {
    // Two identical forced digits in the first row, the rest blank.
    let grid = "55       ";
    let sudoku = Sudoku::from_str(grid).unwrap();
    assert!(solve(sudoku).is_none());
}

#[test]
fn parsing_rejects_zero_as_out_of_range() {
    assert_eq!(Sudoku::from_str("0").err(), Some(Error::ValueOutOfRange));
    assert_eq!(
        Sudoku::from_str("534678912\n67219534 \n0").err(),
        Some(Error::ValueOutOfRange)
    );
}

#[test]
fn parsing_rejects_other_characters_as_parse_failure() {
    assert_eq!(Sudoku::from_str("x").err(), Some(Error::ParseFailure));
    assert_eq!(Sudoku::from_str("12345678?").err(), Some(Error::ParseFailure));
    assert_eq!(Sudoku::from_str("5 3\u{e9}").err(), Some(Error::ParseFailure));
}

#[test]
fn parsing_ignores_text_beyond_the_grid() {
    // A tenth row and a tenth column are outside the 9x9 region.
    let mut text = String::from(SOLVED_GRID);
    text.push_str("\nnot a grid row at all!");
    let sudoku = Sudoku::from_str(&text).unwrap();
    assert!(sudoku.valid());
    let wide = Sudoku::from_str("534678912#\n672195348").unwrap();
    assert_eq!(wide.get(0, 8).value(), 2);
    assert_eq!(wide.get(1, 0).value(), 6);
}

#[test]
fn parse_and_render_round_trip() {
    let sudoku = Sudoku::from_str(SOLVED_GRID).unwrap();
    let text = sudoku.to_text();
    let mut expected = String::from(SOLVED_GRID);
    expected.push('\n');
    assert_eq!(text, expected);
    let reparsed = Sudoku::from_str(&text).unwrap();
    assert_eq!(reparsed.to_text(), text);
}

#[test]
fn render_shows_spaces_for_open_cells() {
    let sudoku = Sudoku::from_str(CLASSIC_PUZZLE).unwrap();
    let mut expected = String::from(CLASSIC_PUZZLE);
    expected.push('\n');
    assert_eq!(sudoku.to_text(), expected);
    let empty = Sudoku::new();
    let blank_row = "         \n".repeat(9);
    assert_eq!(empty.to_text(), blank_row);
}

#[test]
fn from_char_classifies_every_character() {
    assert_eq!(Value::from_char(' '), Value::new(0));
    for (c, v) in ('1'..='9').zip(1..=9u8) {
        assert_eq!(Value::from_char(c), Value::new(v));
    }
    assert_eq!(Value::from_char('0'), Err(Error::ValueOutOfRange));
    assert_eq!(Value::from_char('a'), Err(Error::ParseFailure));
    assert_eq!(Value::from_char('\t'), Err(Error::ParseFailure));
}

#[test]
fn get_and_set_address_cells_row_major() {
    let mut sudoku = Sudoku::new();
    let five = Value::new(5).unwrap();
    sudoku.set(2, 7, five);
    assert_eq!(sudoku.get(2, 7), five);
    assert!(!sudoku.get(2, 6).is_final());
    assert!(!sudoku.get(7, 2).is_final());
}
