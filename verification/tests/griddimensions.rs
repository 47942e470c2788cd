use sudoku::datastructures::griddimensions::GridDimensions;

#[test]
fn test_creation_of_data() {
    let data = GridDimensions::new(9, 9, 3, 3);
    assert_eq!(data.get_row_count(), &9);
    assert_eq!(data.get_column_count(), &9);
    assert_eq!(data.get_section_height(), &3);
    assert_eq!(data.get_section_width(), &3);
    assert_eq!(data.get_cell_count(), 81);
    assert_eq!(data.get_sections_in_column(), 3);
    assert_eq!(data.get_sections_in_row(), 3);
    assert_eq!(data.get_indices_for_row(3).len(), 9);
    assert_eq!(data.get_indices_for_column(3).len(), 9);
    assert_eq!(data.get_indices_for_section(5).len(), 9);
    assert_eq!(data.get_indices_for_row(3).first(), Some(&27));
    assert_eq!(data.get_indices_for_column(3).first(), Some(&3));
    assert_eq!(data.get_indices_for_section(3).first(), Some(&27));
    assert_eq!(data.get_indices_for_row(5).last(), Some(&53));
    assert_eq!(data.get_indices_for_column(5).last(), Some(&77));
    assert_eq!(data.get_indices_for_section(5).last(), Some(&53));
    assert_eq!(data.get_indices_for_row(10).len(), 0);
    assert_eq!(data.get_indices_for_column(10).len(), 0);
    assert_eq!(data.get_indices_for_section(10).len(), 0);
}

#[test]
fn test_indices_exact_on_standard_grid() {
    let dims = GridDimensions::new(9, 9, 3, 3);
    assert_eq!(dims.get_indices_for_row(2), vec![18, 19, 20, 21, 22, 23, 24, 25, 26]);
    assert_eq!(dims.get_indices_for_column(4), vec![4, 13, 22, 31, 40, 49, 58, 67, 76]);
    assert_eq!(dims.get_indices_for_section(4), vec![30, 31, 32, 39, 40, 41, 48, 49, 50]);
    assert_eq!(dims.get_indices_for_section(8), vec![60, 61, 62, 69, 70, 71, 78, 79, 80]);
    assert_eq!(dims.get_index_for_section_index(4, 5), 41);
    assert_eq!(dims.get_index_for_position(7, 2), 25);
    assert_eq!(dims.get_section_count(), 9);
    assert_eq!(dims.get_section_size(), 9);
    assert_eq!(dims.get_data_size(), 81);
}

#[test]
fn test_section_for_position_agrees_with_section_indices() {
    let dims = GridDimensions::new(9, 9, 3, 3);
    assert_eq!(dims.get_section_for_position(0, 0), 0);
    assert_eq!(dims.get_section_for_position(8, 0), 2);
    assert_eq!(dims.get_section_for_position(0, 3), 3);
    assert_eq!(dims.get_section_for_position(4, 4), 4);
    assert_eq!(dims.get_section_for_position(8, 8), 8);
    for row in 0..9 {
        for column in 0..9 {
            let section = dims.get_section_for_position(column, row);
            let index = dims.get_index_for_position(column, row);
            assert!(dims.get_indices_for_section(section).contains(&index));
        }
    }
}

fn assert_partition(groups: Vec<Vec<usize>>, cell_count: usize) {
    let mut seen = vec![0usize; cell_count];
    for group in groups {
        for index in group {
            assert!(index < cell_count);
            seen[index] += 1;
        }
    }
    assert!(seen.iter().all(|n| *n == 1));
}

#[test]
fn test_indices_partition_the_grid() {
    for (columns, rows, width, height) in [(9, 9, 3, 3), (6, 4, 3, 2), (6, 2, 3, 2), (4, 4, 2, 2), (8, 6, 4, 3)] {
        let dims = GridDimensions::new(columns, rows, width, height);
        assert!(dims.is_valid());
        let cells = dims.get_cell_count();
        assert_eq!(cells, rows * columns);
        assert_partition((0..rows).map(|r| dims.get_indices_for_row(r)).collect(), cells);
        assert_partition((0..columns).map(|c| dims.get_indices_for_column(c)).collect(), cells);
        assert_partition(
            (0..dims.get_section_count()).map(|s| dims.get_indices_for_section(s)).collect(),
            cells,
        );
    }
}

#[test]
fn test_oblong_grid_sections() {
    let dims = GridDimensions::new(6, 4, 3, 2);
    assert_eq!(dims.get_sections_in_row(), 2);
    assert_eq!(dims.get_sections_in_column(), 2);
    assert_eq!(dims.get_section_count(), 4);
    assert_eq!(dims.get_section_size(), 6);
    assert_eq!(dims.get_indices_for_section(0), vec![0, 1, 2, 6, 7, 8]);
    assert_eq!(dims.get_indices_for_section(1), vec![3, 4, 5, 9, 10, 11]);
    assert_eq!(dims.get_indices_for_section(2), vec![12, 13, 14, 18, 19, 20]);
    assert_eq!(dims.get_indices_for_section(3), vec![15, 16, 17, 21, 22, 23]);
    assert_eq!(dims.get_indices_for_section(4), Vec::<usize>::new());
    assert_eq!(dims.get_section_for_position(5, 3), 3);
    let wide = GridDimensions::new(6, 2, 3, 2);
    assert_eq!(wide.get_sections_in_row(), 1);
    assert_eq!(wide.get_sections_in_column(), 2);
    assert_eq!(wide.get_indices_for_section(1), vec![3, 4, 5, 9, 10, 11]);
}

#[test]
fn test_is_valid_needs_sections_that_tile() {
    assert!(GridDimensions::new(9, 9, 3, 3).is_valid());
    assert!(GridDimensions::new(6, 4, 3, 2).is_valid());
    assert!(!GridDimensions::new(9, 9, 2, 3).is_valid());
    assert!(!GridDimensions::new(9, 9, 3, 2).is_valid());
    assert!(!GridDimensions::new(6, 4, 2, 3).is_valid());
    assert!(!GridDimensions::new(9, 9, 0, 3).is_valid());
    assert!(!GridDimensions::new(9, 9, 3, 0).is_valid());
    let flat = GridDimensions::new(9, 9, 0, 0);
    assert_eq!(flat.get_sections_in_row(), 0);
    assert_eq!(flat.get_sections_in_column(), 0);
    assert_eq!(flat.get_section_count(), 0);
    assert_eq!(flat.get_indices_for_section(0).len(), 0);
}

#[test]
fn test_new_grid_cells_know_their_place() {
    let dims = GridDimensions::new(9, 9, 3, 3);
    let grid = dims.new_grid();
    assert_eq!(grid.len(), 81);
    for (index, cell) in grid.iter().enumerate() {
        assert_eq!(*cell.get_index(), index);
        assert_eq!(*cell.get_row(), index / 9);
        assert_eq!(*cell.get_column(), index % 9);
        assert_eq!(*cell.get_section(), dims.get_section_for_position(index % 9, index / 9));
        assert_eq!(*cell.get_value(), None);
    }
    let mut cell = grid[40].clone();
    cell.set_value(Some(sudoku::datastructures::digit::Digit::Five));
    assert_eq!(*cell.get_value(), Some(sudoku::datastructures::digit::Digit::Five));
    assert_eq!(*cell.get_index(), 40);
    assert_eq!(*cell.get_section(), 4);
}
