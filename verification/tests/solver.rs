use sudoku::datastructures::digit::Digit::{Eight, Five, Four, Nine, One, Seven, Six, Three, Two};
use sudoku::datastructures::digit::{Digit, DigitValue};
use sudoku::datastructures::search::SolveState;
use sudoku::datastructures::sudoku::Sudoku;

fn solved_columns() -> Vec<Vec<Digit>> {
    vec![
        vec![One, Two, Three, Four, Five, Six, Seven, Eight, Nine],
        vec![Four, Five, Six, Seven, Eight, Nine, One, Two, Three],
        vec![Seven, Eight, Nine, One, Two, Three, Four, Five, Six],
        vec![Two, Three, Four, Five, Six, Seven, Eight, Nine, One],
        vec![Five, Six, Seven, Eight, Nine, One, Two, Three, Four],
        vec![Eight, Nine, One, Two, Three, Four, Five, Six, Seven],
        vec![Three, Four, Five, Six, Seven, Eight, Nine, One, Two],
        vec![Six, Seven, Eight, Nine, One, Two, Three, Four, Five],
        vec![Nine, One, Two, Three, Four, Five, Six, Seven, Eight],
    ]
}

fn solved_grid() -> Sudoku {
    let mut grid = Sudoku::new(9, 9, 3, 3);
    for (column, values) in solved_columns().into_iter().enumerate() {
        grid.update_column(column, values);
    }
    grid
}

fn values_of(grid: &Sudoku) -> Vec<DigitValue> {
    let count = grid.get_dimensions().get_cell_count();
    (0..count).map(|index| grid.get_digit_for_cell(index)).collect()
}

fn assert_solved(grid: &Sudoku, size: usize) {
    assert!(grid.is_consistent());
    for value in values_of(grid) {
        match value {
            Some(digit) => assert!(digit.to_ordinal() < size),
            None => panic!("a cell was left unset"),
        }
    }
}

#[test]
fn test_fresh_grid_has_nothing_used() {
    let grid = Sudoku::new(9, 9, 3, 3);
    for k in 0..9 {
        assert_eq!(grid.used_digits_in_row(k).unwrap().len(), 0);
        assert_eq!(grid.used_digits_in_column(k).unwrap().len(), 0);
        assert_eq!(grid.used_digits_in_section(k).unwrap().len(), 0);
        assert_eq!(
            grid.unused_digits_in_row(k).unwrap().to_vec(),
            vec![One, Two, Three, Four, Five, Six, Seven, Eight, Nine]
        );
        assert_eq!(grid.unused_digits_in_column(k).unwrap().len(), 9);
        assert_eq!(grid.unused_digits_in_section(k).unwrap().len(), 9);
    }
    assert!(grid.is_consistent());
}

#[test]
fn test_alphabet_follows_section_size() {
    let grid = Sudoku::new(4, 4, 2, 2);
    assert_eq!(grid.unused_digits_in_row(0).unwrap().to_vec(), vec![One, Two, Three, Four]);
    let oblong = Sudoku::new(6, 6, 3, 2);
    assert_eq!(oblong.unused_digits_in_section(0).unwrap().len(), 6);
    let large = Sudoku::new(16, 16, 4, 4);
    assert_eq!(large.unused_digits_in_column(0).unwrap().len(), 9);
}

#[test]
fn test_is_consistent_leaves_grid_alone() {
    let mut grid = Sudoku::new(9, 9, 3, 3);
    grid.set_digit_for_cell(0, Some(One));
    grid.set_digit_for_cell(1, Some(One));
    grid.set_digit_for_cell(40, Some(Five));
    let before = values_of(&grid);
    assert!(!grid.is_consistent());
    assert!(!grid.is_consistent());
    assert_eq!(values_of(&grid), before);
    let solved = solved_grid();
    let before = values_of(&solved);
    assert!(solved.is_consistent());
    assert_eq!(values_of(&solved), before);
}

#[test]
fn test_duplicate_in_row_is_a_violation() {
    let mut grid = Sudoku::new(9, 9, 3, 3);
    grid.set_digit_for_cell(0, Some(One));
    grid.set_digit_for_cell(1, Some(One));
    assert!(grid.used_digits_in_row(0).is_none());
    assert!(grid.unused_digits_in_row(0).is_none());
    assert!(!grid.is_consistent());
    for row in 1..9 {
        assert!(grid.used_digits_in_row(row).is_some());
    }
    for column in 0..9 {
        assert!(grid.used_digits_in_column(column).is_some());
    }
    assert_eq!(grid.used_digits_in_column(0).unwrap().to_vec(), vec![One]);
    assert!(grid.used_digits_in_section(0).is_none());
    for section in 1..9 {
        assert!(grid.used_digits_in_section(section).is_some());
    }
    let cell = grid.get_cell(2).unwrap().clone();
    assert!(grid.available_digits_for_cell(&cell).is_none());
    assert!(grid.candidates_for_index(2).is_empty());
}

#[test]
fn test_duplicate_in_row_across_sections() {
    let mut grid = Sudoku::new(9, 9, 3, 3);
    grid.set_digit_for_cell(0, Some(One));
    grid.set_digit_for_cell(8, Some(One));
    assert!(grid.used_digits_in_row(0).is_none());
    for section in 0..9 {
        assert!(grid.used_digits_in_section(section).is_some());
    }
    for column in 0..9 {
        assert!(grid.used_digits_in_column(column).is_some());
    }
    assert!(!grid.is_consistent());
    let before = values_of(&grid);
    assert_eq!(grid.solve(), false);
    assert_eq!(values_of(&grid), before);
}

#[test]
fn test_available_digits_for_cell_is_the_intersection() {
    let mut grid = Sudoku::new(9, 9, 3, 3);
    grid.set_digit_for_cell(1, Some(One));
    grid.set_digit_for_cell(8, Some(Two));
    grid.set_digit_for_cell(9, Some(Three));
    grid.set_digit_for_cell(72, Some(Four));
    grid.set_digit_for_cell(20, Some(Five));
    grid.set_digit_for_cell(80, Some(Six));
    let cell = grid.get_cell(0).unwrap().clone();
    assert_eq!(
        grid.available_digits_for_cell(&cell).unwrap().to_vec(),
        vec![Six, Seven, Eight, Nine]
    );
    assert_eq!(grid.candidates_for_index(0).to_vec(), vec![Six, Seven, Eight, Nine]);
    assert_eq!(grid.candidates_for_index(80).to_vec(), vec![One, Three, Five, Seven, Eight, Nine]);
}

#[test]
fn test_get_cell_and_set_digit() {
    let mut grid = Sudoku::new(9, 9, 3, 3);
    assert!(grid.get_cell(81).is_none());
    grid.set_digit_for_cell(30, Some(Seven));
    let cell = grid.get_cell(30).unwrap();
    assert_eq!(*cell.get_value(), Some(Seven));
    assert_eq!(*cell.get_index(), 30);
    assert_eq!(*cell.get_row(), 3);
    assert_eq!(*cell.get_column(), 3);
    assert_eq!(*cell.get_section(), 4);
    assert_eq!(grid.get_digit_for_cell(30), Some(Seven));
    assert_eq!(grid.get_digit_for_cell(31), None);
    grid.set_digit_for_cell(30, None);
    assert_eq!(grid.get_digit_for_cell(30), None);
}

#[test]
fn test_views_hand_out_cells_in_order() {
    let grid = solved_grid();
    let mut row = grid.row(4);
    let mut seen = Vec::new();
    while let Some(cell) = row.next() {
        assert_eq!(*cell.get_row(), 4);
        seen.push(cell.get_value().unwrap());
    }
    assert_eq!(seen, vec![Five, Eight, Two, Six, Nine, Three, Seven, One, Four]);
    let mut column = grid.column(1);
    assert_eq!(*column.next().unwrap().get_index(), 1);
    assert_eq!(*column.next().unwrap().get_index(), 10);
    assert_eq!(column.count(), 7);
    let mut section = grid.section(8);
    let first = section.next().unwrap();
    assert_eq!(*first.get_index(), 60);
    assert_eq!(*first.get_section(), 8);
}

#[test]
fn test_update_column_writes_only_that_column() {
    let mut grid = Sudoku::new(9, 9, 3, 3);
    grid.set_digit_for_cell(4, Some(Nine));
    grid.update_column(3, vec![One, Two, Three, Four, Five, Six, Seven, Eight, Nine]);
    for row in 0..9 {
        assert_eq!(grid.get_digit_for_cell(row * 9 + 3), Some(Digit::from_ordinal(row)));
    }
    assert_eq!(grid.get_digit_for_cell(4), Some(Nine));
    assert_eq!(grid.get_digit_for_cell(2), None);
    let before = values_of(&grid);
    grid.update_column(10, vec![]);
    assert_eq!(values_of(&grid), before);
}

#[test]
fn test_choose_cell_takes_fewest_candidates_then_lowest_index() {
    let mut grid = Sudoku::new(9, 9, 3, 3);
    assert_eq!(grid.choose_cell(), Some(0));
    grid.set_digit_for_cell(40, Some(Five));
    assert_eq!(grid.choose_cell(), Some(4));
    grid.set_digit_for_cell(76, Some(One));
    grid.set_digit_for_cell(36, Some(Two));
    assert_eq!(grid.choose_cell(), Some(4));
    grid.set_digit_for_cell(64, Some(Three));
    assert_eq!(grid.choose_cell(), Some(37));
    assert_eq!(solved_grid().choose_cell(), None);
}

#[test]
fn test_solved_grid_is_kept() {
    let mut grid = solved_grid();
    let before = values_of(&grid);
    assert_eq!(grid.solve(), true);
    assert_eq!(values_of(&grid), before);
    let mut attempts = 0;
    assert_eq!(grid.solve_within(&mut attempts), SolveState::Solved);
    assert_eq!(attempts, 0);
    assert_eq!(values_of(&grid), before);
}

#[test]
fn test_single_unset_cell_gets_the_forced_digit() {
    let mut grid = solved_grid();
    let expected = values_of(&grid);
    grid.set_digit_for_cell(40, None);
    assert_eq!(grid.candidates_for_index(40).to_vec(), vec![Nine]);
    assert_eq!(grid.solve(), true);
    assert_eq!(grid.get_digit_for_cell(40), Some(Nine));
    assert_eq!(values_of(&grid), expected);
}

#[test]
fn test_puzzle_with_one_gap_per_row_is_completed() {
    let mut grid = solved_grid();
    let expected = values_of(&grid);
    for k in 0..9 {
        grid.set_digit_for_cell(k * 9 + (k * 4) % 9, None);
    }
    assert_eq!(grid.solve(), true);
    assert_eq!(values_of(&grid), expected);
}

#[test]
fn test_cell_without_candidates_makes_grid_unsolvable() {
    let mut grid = Sudoku::new(9, 9, 3, 3);
    let row = [One, Two, Three, Four, Five, Six, Seven, Eight];
    for (k, digit) in row.iter().enumerate() {
        grid.set_digit_for_cell(k + 1, Some(*digit));
    }
    grid.set_digit_for_cell(9, Some(Nine));
    assert!(grid.is_consistent());
    assert!(grid.candidates_for_index(0).is_empty());
    let before = values_of(&grid);
    assert_eq!(grid.solve(), false);
    assert_eq!(values_of(&grid), before);
    let mut attempts = 7;
    assert_eq!(grid.solve_within(&mut attempts), SolveState::Unsolvable);
    assert_eq!(attempts, 7);
    assert_eq!(values_of(&grid), before);
}

#[test]
fn test_unsolvable_after_search_is_restored() {
    let mut grid = Sudoku::new(4, 4, 2, 2);
    grid.set_digit_for_cell(0, Some(One));
    grid.set_digit_for_cell(5, Some(Four));
    grid.set_digit_for_cell(7, Some(One));
    grid.set_digit_for_cell(10, Some(Four));
    grid.set_digit_for_cell(13, Some(One));
    assert!(grid.is_consistent());
    for index in 0..16 {
        if grid.get_digit_for_cell(index).is_none() {
            assert!(grid.candidates_for_index(index).len() >= 2);
        }
    }
    let before = values_of(&grid);
    assert_eq!(grid.solve(), false);
    assert_eq!(values_of(&grid), before);
    let mut attempts = 10;
    assert_eq!(grid.solve_within(&mut attempts), SolveState::Unsolvable);
    assert_eq!(attempts, 0);
    assert_eq!(values_of(&grid), before);
    let mut attempts = 9;
    assert_eq!(grid.solve_within(&mut attempts), SolveState::Searching);
    assert_eq!(attempts, 0);
    assert_eq!(values_of(&grid), before);
}

#[test]
fn test_solve_is_deterministic() {
    let mut first = Sudoku::new(9, 9, 3, 3);
    let mut second = Sudoku::new(9, 9, 3, 3);
    for grid in [&mut first, &mut second] {
        grid.set_digit_for_cell(0, Some(Five));
        grid.set_digit_for_cell(13, Some(Seven));
        grid.set_digit_for_cell(80, Some(Two));
    }
    assert_eq!(first.solve(), true);
    assert_eq!(second.solve(), true);
    assert_eq!(values_of(&first), values_of(&second));
    assert_solved(&first, 9);
    assert_eq!(first.get_digit_for_cell(0), Some(Five));
    assert_eq!(first.get_digit_for_cell(13), Some(Seven));
    assert_eq!(first.get_digit_for_cell(80), Some(Two));
}

#[test]
fn test_empty_grid_solution() {
    let mut grid = Sudoku::new(9, 9, 3, 3);
    assert_eq!(grid.solve(), true);
    assert_solved(&grid, 9);
    let expected = [
        [One, Two, Three, Four, Five, Six, Seven, Eight, Nine],
        [Four, Five, Six, Seven, Eight, Nine, One, Two, Three],
        [Seven, Eight, Nine, One, Two, Three, Four, Five, Six],
        [Two, Three, One, Six, Seven, Four, Eight, Nine, Five],
        [Eight, Seven, Five, Nine, One, Two, Three, Six, Four],
        [Six, Nine, Four, Five, Three, Eight, Two, One, Seven],
        [Three, One, Seven, Two, Six, Five, Nine, Four, Eight],
        [Five, Four, Two, Eight, Nine, Seven, Six, Three, One],
        [Nine, Six, Eight, Three, Four, One, Five, Seven, Two],
    ];
    let values = values_of(&grid);
    for row in 0..9 {
        for column in 0..9 {
            assert_eq!(values[row * 9 + column], Some(expected[row][column]));
        }
    }
    let mut again = Sudoku::new(9, 9, 3, 3);
    let mut attempts = 81;
    assert_eq!(again.solve_within(&mut attempts), SolveState::Solved);
    assert_eq!(attempts, 0);
    assert_eq!(values_of(&again), values);
}

#[test]
fn test_small_grid_uses_its_own_alphabet() {
    let mut grid = Sudoku::new(4, 4, 2, 2);
    grid.set_digit_for_cell(5, Some(Three));
    assert_eq!(grid.solve(), true);
    assert_solved(&grid, 4);
    assert_eq!(grid.get_digit_for_cell(5), Some(Three));
    let mut oblong = Sudoku::new(6, 6, 3, 2);
    assert_eq!(oblong.solve(), true);
    assert_solved(&oblong, 6);
}

#[test]
fn test_grid_wider_than_its_alphabet_is_unsolvable() {
    let mut grid = Sudoku::new(6, 2, 2, 2);
    assert!(grid.is_valid());
    assert_eq!(grid.solve(), false);
    assert_eq!(values_of(&grid), vec![None; 12]);
    let mut attempts = 100;
    assert_eq!(grid.solve_within(&mut attempts), SolveState::Unsolvable);
    assert_eq!(attempts, 36);
}

#[test]
fn test_solve_within_counts_attempts() {
    let mut grid = solved_grid();
    let expected = values_of(&grid);
    grid.set_digit_for_cell(40, None);
    let mut attempts = 5;
    assert_eq!(grid.solve_within(&mut attempts), SolveState::Solved);
    assert_eq!(attempts, 4);
    assert_eq!(values_of(&grid), expected);
}

#[test]
fn test_solve_within_gives_up_and_restores() {
    let mut grid = Sudoku::new(9, 9, 3, 3);
    grid.set_digit_for_cell(0, Some(Five));
    let before = values_of(&grid);
    let mut attempts = 0;
    assert_eq!(grid.solve_within(&mut attempts), SolveState::Searching);
    assert_eq!(attempts, 0);
    assert_eq!(values_of(&grid), before);
    let mut attempts = 79;
    assert_eq!(grid.solve_within(&mut attempts), SolveState::Searching);
    assert_eq!(attempts, 0);
    assert_eq!(values_of(&grid), before);
    let mut attempts = 1_000_000;
    assert_eq!(grid.solve_within(&mut attempts), SolveState::Solved);
    assert_eq!(attempts, 1_000_000 - 80);
    assert_solved(&grid, 9);
    let mut again = Sudoku::new(9, 9, 3, 3);
    again.set_digit_for_cell(0, Some(Five));
    assert_eq!(again.solve(), true);
    assert_eq!(values_of(&again), values_of(&grid));
}
