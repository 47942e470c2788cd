use sudoku::datastructures::digit::Digit::{Eight, Five, Four, Nine, One, Seven, Six, Three, Two};
use sudoku::datastructures::sudoku::Sudoku;

#[test]
fn test_to_make_an_empty_sudoku() {
    let mysudoku = Sudoku::new(9, 9, 3, 3);
    assert_eq!(mysudoku.is_valid(), true);
}

#[test]
fn test_get_a_row() {
    let mysudoku = Sudoku::new(9, 9, 3, 3);
    let count = mysudoku.row(2).count();
    assert_eq!(9, count);
}

#[test]
fn test_get_a_column() {
    let mysudoku = Sudoku::new(9, 9, 3, 3);
    let count = mysudoku.column(2).count();
    assert_eq!(9, count);
}

#[test]
fn test_get_a_section() {
    let mysudoku = Sudoku::new(9, 9, 3, 3);
    let count = mysudoku.section(2).count();
    assert_eq!(9, count);
}

#[test]
fn test_get_a_non_existing_row() {
    let mysudoku = Sudoku::new(9, 9, 3, 3);
    let count = mysudoku.row(10).count();
    assert_eq!(0, count);
}

#[test]
fn test_get_a_non_existing_column() {
    let mysudoku = Sudoku::new(9, 9, 3, 3);
    let count = mysudoku.column(10).count();
    assert_eq!(0, count);
}

#[test]
fn test_get_a_non_existing_section() {
    let mysudoku = Sudoku::new(9, 9, 3, 3);
    let count = mysudoku.section(10).count();
    assert_eq!(0, count);
}

#[test]
fn test_unused_digits_in_row() {
    let mysudoku = Sudoku::new(9, 9, 3, 3);
    assert_eq!(mysudoku.unused_digits_in_row(3).unwrap().iter().count(), 9);
}

#[test]
fn test_unused_digits_in_column() {
    let mysudoku = Sudoku::new(9, 9, 3, 3);
    assert_eq!(
        mysudoku.unused_digits_in_column(3).unwrap().iter().count(),
        9
    );
}

#[test]
fn test_unused_digits_in_section() {
    let mysudoku = Sudoku::new(9, 9, 3, 3);
    assert_eq!(
        mysudoku.unused_digits_in_section(5).unwrap().iter().count(),
        9
    );
}

#[test]
fn test_used_digits_in_row() {
    let mysudoku = Sudoku::new(9, 9, 3, 3);
    assert_eq!(mysudoku.used_digits_in_row(3).unwrap().iter().count(), 0);
}

#[test]
fn test_used_digits_in_column() {
    let mysudoku = Sudoku::new(9, 9, 3, 3);
    assert_eq!(mysudoku.used_digits_in_row(3).unwrap().iter().count(), 0);
}

#[test]
fn test_used_digits_in_section() {
    let mysudoku = Sudoku::new(9, 9, 3, 3);
    assert_eq!(
        mysudoku.used_digits_in_section(3).unwrap().iter().count(),
        0
    );
}

#[test]
fn test_update_column() {
    let mut mysudoku = Sudoku::new(9, 9, 3, 3);
    let row = vec![One, Two, Three, Four, Five, Six, Seven, Eight, Nine];
    mysudoku.update_column(0, row);
    assert_eq!(mysudoku.used_digits_in_column(0).unwrap().iter().count(), 9);
}

#[test]
fn test_used_digits_for_correct_sudoku() {
    let mut mysudoku = Sudoku::new(9, 9, 3, 3);
    let column = vec![One, Two, Three, Four, Five, Six, Seven, Eight, Nine];
    mysudoku.update_column(0, column);
    let column = vec![Four, Five, Six, Seven, Eight, Nine, One, Two, Three];
    mysudoku.update_column(1, column);
    let column = vec![Seven, Eight, Nine, One, Two, Three, Four, Five, Six];
    mysudoku.update_column(2, column);
    let column = vec![Two, Three, Four, Five, Six, Seven, Eight, Nine, One];
    mysudoku.update_column(3, column);
    let column = vec![Five, Six, Seven, Eight, Nine, One, Two, Three, Four];
    mysudoku.update_column(4, column);
    let column = vec![Eight, Nine, One, Two, Three, Four, Five, Six, Seven];
    mysudoku.update_column(5, column);
    let column = vec![Three, Four, Five, Six, Seven, Eight, Nine, One, Two];
    mysudoku.update_column(6, column);
    let column = vec![Six, Seven, Eight, Nine, One, Two, Three, Four, Five];
    mysudoku.update_column(7, column);
    let column = vec![Nine, One, Two, Three, Four, Five, Six, Seven, Eight];
    mysudoku.update_column(8, column);
    assert_eq!(mysudoku.used_digits_in_column(0).unwrap().iter().count(), 9);
    assert_eq!(mysudoku.used_digits_in_column(1).unwrap().iter().count(), 9);
    assert_eq!(mysudoku.used_digits_in_column(2).unwrap().iter().count(), 9);
    assert_eq!(mysudoku.used_digits_in_column(3).unwrap().iter().count(), 9);
    assert_eq!(mysudoku.used_digits_in_column(4).unwrap().iter().count(), 9);
    assert_eq!(mysudoku.used_digits_in_column(5).unwrap().iter().count(), 9);
    assert_eq!(mysudoku.used_digits_in_column(6).unwrap().iter().count(), 9);
    assert_eq!(mysudoku.used_digits_in_column(7).unwrap().iter().count(), 9);
    assert_eq!(mysudoku.used_digits_in_column(8).unwrap().iter().count(), 9);
    assert_eq!(
        mysudoku.used_digits_in_section(0).unwrap().iter().count(),
        9
    );
    assert_eq!(
        mysudoku.used_digits_in_section(1).unwrap().iter().count(),
        9
    );
    assert_eq!(
        mysudoku.used_digits_in_section(2).unwrap().iter().count(),
        9
    );
    assert_eq!(
        mysudoku.used_digits_in_section(3).unwrap().iter().count(),
        9
    );
    assert_eq!(
        mysudoku.used_digits_in_section(4).unwrap().iter().count(),
        9
    );
    assert_eq!(
        mysudoku.used_digits_in_section(5).unwrap().iter().count(),
        9
    );
    assert_eq!(
        mysudoku.used_digits_in_section(6).unwrap().iter().count(),
        9
    );
    assert_eq!(
        mysudoku.used_digits_in_section(7).unwrap().iter().count(),
        9
    );
    assert_eq!(
        mysudoku.used_digits_in_section(8).unwrap().iter().count(),
        9
    );
    assert_eq!(mysudoku.used_digits_in_row(0).unwrap().iter().count(), 9);
    assert_eq!(mysudoku.used_digits_in_row(1).unwrap().iter().count(), 9);
    assert_eq!(mysudoku.used_digits_in_row(2).unwrap().iter().count(), 9);
    assert_eq!(mysudoku.used_digits_in_row(3).unwrap().iter().count(), 9);
    assert_eq!(mysudoku.used_digits_in_row(4).unwrap().iter().count(), 9);
    assert_eq!(mysudoku.used_digits_in_row(5).unwrap().iter().count(), 9);
    assert_eq!(mysudoku.used_digits_in_row(6).unwrap().iter().count(), 9);
    assert_eq!(mysudoku.used_digits_in_row(7).unwrap().iter().count(), 9);
    assert_eq!(mysudoku.used_digits_in_row(8).unwrap().iter().count(), 9);
}

#[test]
fn test_sort_cells_by_freedom() {
    let mut mysudoku = Sudoku::new(9, 9, 3, 3);
    let row = vec![One, Two, Three, Four, Five, Six, Seven, Eight, Nine];
    mysudoku.update_column(0, row);
    assert_eq!(mysudoku.used_digits_in_column(0).unwrap().iter().count(), 9);
}

#[test]
fn test_solve_sudoku() {
    let mut mysudoku = Sudoku::new(9, 9, 3, 3);
    assert_eq!(mysudoku.solve(), true);
}
