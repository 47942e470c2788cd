use super::data::select;
use super::digit::{alphabet, Digit, DigitValue, ALPHABET_SIZE};
use super::griddimensions::GridDimensions;
use super::rules::{
    available, bounded, candidates, column_values, consistent, distinct, extends,
    has_duplicate, lemma_group_after_placing, lemma_group_before_placing, lemma_unset_values,
    row_values, section_values, unused, used,
};
use super::search::{
    choice, full, lemma_choice_below, lemma_unset_below_update, search, search_from,
    solution, unset_count,
};
use vstd::prelude::*;

verus! {

/// The grid `later` completes `earlier`: it keeps the digits of `earlier`,
/// holds a digit of the alphabet in every cell that `earlier` left unset,
/// and no row, column or section of it holds a digit twice.
pub open spec fn completes(
    dimensions: GridDimensions,
    earlier: Seq<DigitValue>,
    later: Seq<DigitValue>,
) -> bool {
    &&& extends(earlier, later)
    &&& full(later)
    &&& consistent(dimensions, later)
    &&& forall|i: int|
        0 <= i < earlier.len() && earlier[i] is None ==> alphabet(
            dimensions.section_size(),
        ).contains((#[trigger] later[i]).unwrap())
}

/// The grid has the size that its shape asks for, and its sections tile it.
pub open spec fn fits(dimensions: GridDimensions, cells: Seq<DigitValue>) -> bool {
    &&& dimensions.wf()
    &&& dimensions.valid()
    &&& cells.len() == dimensions.cell_count()
}

/// A row lists cells of the grid, none of them twice, and a cell only if it
/// is a cell of that row.
pub proof fn lemma_row_group(dimensions: GridDimensions, row: nat, index: nat)
    requires
        dimensions.wf(),
        row < dimensions.rows(),
        index < dimensions.cell_count(),
    ensures
        bounded(dimensions.row_indices(row), dimensions.cell_count()),
        distinct(dimensions.row_indices(row)),
        dimensions.row_indices(row).contains(index as usize) ==> row == index
            / dimensions.columns(),
{
    let indices = dimensions.row_indices(row);
    assert forall|a: int| 0 <= a < indices.len() implies #[trigger] indices[a]
        < dimensions.cell_count() by {
        dimensions.lemma_row_indices_in_range(row, a as nat);
    }
    assert forall|a: int, b: int|
        0 <= a < indices.len() && 0 <= b < indices.len() && a != b implies #[trigger] indices[a]
        != #[trigger] indices[b] by {
        dimensions.lemma_row_indices_in_range(row, a as nat);
        dimensions.lemma_row_indices_in_range(row, b as nat);
    }
    if indices.contains(index as usize) {
        let a = choose|a: int| 0 <= a < indices.len() && indices[a] == index as usize;
        dimensions.lemma_row_indices_in_range(row, a as nat);
        dimensions.lemma_position_of_index(row, a as nat);
    }
}

/// A column lists cells of the grid, none of them twice, and a cell only if
/// it is a cell of that column.
pub proof fn lemma_column_group(dimensions: GridDimensions, column: nat, index: nat)
    requires
        dimensions.wf(),
        column < dimensions.columns(),
        index < dimensions.cell_count(),
    ensures
        bounded(dimensions.column_indices(column), dimensions.cell_count()),
        distinct(dimensions.column_indices(column)),
        dimensions.column_indices(column).contains(index as usize) ==> column == index
            % dimensions.columns(),
{
    let indices = dimensions.column_indices(column);
    assert forall|a: int| 0 <= a < indices.len() implies #[trigger] indices[a]
        < dimensions.cell_count() by {
        dimensions.lemma_column_indices_in_range(column, a as nat);
    }
    assert forall|a: int, b: int|
        0 <= a < indices.len() && 0 <= b < indices.len() && a != b implies #[trigger] indices[a]
        != #[trigger] indices[b] by {
        dimensions.lemma_column_indices_in_range(column, a as nat);
        dimensions.lemma_column_indices_in_range(column, b as nat);
        dimensions.lemma_position_of_index(a as nat, column);
        dimensions.lemma_position_of_index(b as nat, column);
    }
    if indices.contains(index as usize) {
        let a = choose|a: int| 0 <= a < indices.len() && indices[a] == index as usize;
        dimensions.lemma_column_indices_in_range(column, a as nat);
        dimensions.lemma_position_of_index(a as nat, column);
    }
}

/// A section lists cells of the grid, none of them twice, and a cell only
/// if it is a cell of that section.
pub proof fn lemma_section_group(dimensions: GridDimensions, section: nat, index: nat)
    requires
        dimensions.wf(),
        dimensions.valid(),
        section < dimensions.section_count(),
        index < dimensions.cell_count(),
    ensures
        bounded(dimensions.section_indices(section), dimensions.cell_count()),
        distinct(dimensions.section_indices(section)),
        dimensions.section_indices(section).contains(index as usize) ==> section
            == dimensions.section_of(index / dimensions.columns(), index % dimensions.columns()),
{
    let indices = dimensions.section_indices(section);
    assert forall|a: int| 0 <= a < indices.len() implies #[trigger] indices[a]
        < dimensions.cell_count() by {
        dimensions.lemma_section_indices_in_range(section, a as nat);
    }
    assert forall|a: int, b: int|
        0 <= a < indices.len() && 0 <= b < indices.len() && a != b implies #[trigger] indices[a]
        != #[trigger] indices[b] by {
        dimensions.lemma_section_indices_in_range(section, a as nat);
        dimensions.lemma_section_indices_in_range(section, b as nat);
        dimensions.lemma_sections_partition(indices[a] as nat);
    }
    if indices.contains(index as usize) {
        let a = choose|a: int| 0 <= a < indices.len() && indices[a] == index as usize;
        dimensions.lemma_section_indices_in_range(section, a as nat);
        dimensions.lemma_sections_partition(index);
    }
}

/// Filling an unset cell with one of its candidates keeps every row, column
/// and section free of duplicates.
pub proof fn lemma_placing_keeps_consistent(
    dimensions: GridDimensions,
    cells: Seq<DigitValue>,
    index: nat,
    digit: Digit,
)
    requires
        fits(dimensions, cells),
        index < cells.len(),
        cells[index as int] is None,
        consistent(dimensions, cells),
        candidates(dimensions, cells, index).contains(digit),
    ensures
        consistent(dimensions, cells.update(index as int, Some(digit))),
        alphabet(dimensions.section_size()).contains(digit),
{
    let placed = cells.update(index as int, Some(digit));
    let own_row = index / dimensions.columns();
    let own_column = index % dimensions.columns();
    let own_section = dimensions.section_of(own_row, own_column);
    assert(available(dimensions, cells, index) is Some);
    assert forall|row: nat| row < dimensions.rows() implies !has_duplicate(
        #[trigger] row_values(dimensions, placed, row),
    ) by {
        lemma_row_group(dimensions, row, index);
        assert(!has_duplicate(row_values(dimensions, cells, row)));
        lemma_group_after_placing(cells, dimensions.row_indices(row), index as int, digit);
    }
    assert forall|column: nat| column < dimensions.columns() implies !has_duplicate(
        #[trigger] column_values(dimensions, placed, column),
    ) by {
        lemma_column_group(dimensions, column, index);
        assert(!has_duplicate(column_values(dimensions, cells, column)));
        lemma_group_after_placing(cells, dimensions.column_indices(column), index as int, digit);
    }
    assert forall|section: nat| section < dimensions.section_count() implies !has_duplicate(
        #[trigger] section_values(dimensions, placed, section),
    ) by {
        lemma_section_group(dimensions, section, index);
        assert(!has_duplicate(section_values(dimensions, cells, section)));
        lemma_group_after_placing(
            cells,
            dimensions.section_indices(section),
            index as int,
            digit,
        );
    }
}

/// Where a grid can be completed, no row, column or section of it holds a
/// digit twice, and the digit that a completion has in one of its unset
/// cells is a candidate for that cell.
pub proof fn lemma_completion_digit_is_candidate(
    dimensions: GridDimensions,
    cells: Seq<DigitValue>,
    completed: Seq<DigitValue>,
    index: nat,
)
    requires
        fits(dimensions, cells),
        completes(dimensions, cells, completed),
        index < cells.len(),
        cells[index as int] is None,
    ensures
        candidates(dimensions, cells, index).contains(completed[index as int].unwrap()),
{
    let row = index / dimensions.columns();
    let column = index % dimensions.columns();
    let section = dimensions.section_of(row, column);
    let place = dimensions.place_in_section(row, column);
    let digit = completed[index as int].unwrap();
    dimensions.lemma_rows_partition(index);
    dimensions.lemma_columns_partition(index);
    dimensions.lemma_sections_partition(index);
    lemma_row_group(dimensions, row, index);
    lemma_column_group(dimensions, column, index);
    lemma_section_group(dimensions, section, index);
    assert(!has_duplicate(row_values(dimensions, completed, row)));
    assert(!has_duplicate(column_values(dimensions, completed, column)));
    assert(!has_duplicate(section_values(dimensions, completed, section)));
    lemma_group_before_placing(cells, completed, dimensions.row_indices(row), column as int);
    lemma_group_before_placing(cells, completed, dimensions.column_indices(column), row as int);
    lemma_group_before_placing(
        cells,
        completed,
        dimensions.section_indices(section),
        place as int,
    );
    assert(completed[index as int] is Some);
    assert(alphabet(dimensions.section_size()).contains(digit));
}

/// Where a grid can be completed, no row, column or section of it holds a
/// digit twice.
pub proof fn lemma_completable_is_consistent(
    dimensions: GridDimensions,
    cells: Seq<DigitValue>,
    completed: Seq<DigitValue>,
)
    requires
        fits(dimensions, cells),
        completes(dimensions, cells, completed),
    ensures
        consistent(dimensions, cells),
{
    assert forall|row: nat| row < dimensions.rows() implies !has_duplicate(
        #[trigger] row_values(dimensions, cells, row),
    ) by {
        assert forall|a: int| 0 <= a < dimensions.row_indices(row).len() implies (
        #[trigger] dimensions.row_indices(row)[a]) < cells.len() by {
            dimensions.lemma_row_indices_in_range(row, a as nat);
        }
        assert(!has_duplicate(row_values(dimensions, completed, row)));
        lemma_group_kept(cells, completed, dimensions.row_indices(row));
    }
    assert forall|column: nat| column < dimensions.columns() implies !has_duplicate(
        #[trigger] column_values(dimensions, cells, column),
    ) by {
        assert forall|a: int| 0 <= a < dimensions.column_indices(column).len() implies (
        #[trigger] dimensions.column_indices(column)[a]) < cells.len() by {
            dimensions.lemma_column_indices_in_range(column, a as nat);
        }
        assert(!has_duplicate(column_values(dimensions, completed, column)));
        lemma_group_kept(cells, completed, dimensions.column_indices(column));
    }
    assert forall|section: nat| section < dimensions.section_count() implies !has_duplicate(
        #[trigger] section_values(dimensions, cells, section),
    ) by {
        dimensions.lemma_section_count_bound();
        lemma_section_group(dimensions, section, 0);
        assert(!has_duplicate(section_values(dimensions, completed, section)));
        lemma_group_kept(cells, completed, dimensions.section_indices(section));
    }
}

/// A group of cells that holds no digit twice in a later grid held none
/// twice before.
pub proof fn lemma_group_kept(
    earlier: Seq<DigitValue>,
    later: Seq<DigitValue>,
    indices: Seq<usize>,
)
    requires
        extends(earlier, later),
        bounded(indices, earlier.len()),
        !has_duplicate(select(later, indices)),
    ensures
        !has_duplicate(select(earlier, indices)),
{
    let before = select(earlier, indices);
    let after = select(later, indices);
    if has_duplicate(before) {
        let (a, b) = choose|a: int, b: int|
            0 <= a < b < before.len() && before[a] is Some && #[trigger] before[a]
                == #[trigger] before[b];
        assert(after[a] is Some && after[a] == after[b]);
    }
}

/// What the search reaches from a grid without duplicates completes it.
pub proof fn lemma_search_sound(dimensions: GridDimensions, cells: Seq<DigitValue>)
    requires
        fits(dimensions, cells),
        consistent(dimensions, cells),
        search(dimensions, cells) is Some,
    ensures
        completes(dimensions, cells, search(dimensions, cells).unwrap()),
    decreases unset_count(cells), ALPHABET_SIZE + 1,
{
    lemma_choice_below(dimensions, cells, cells.len());
    match choice(dimensions, cells) {
        None => {},
        Some(index) => {
            lemma_search_from_sound(dimensions, cells, index, 0);
        },
    }
}

/// What the search reaches by filling one cell from a position of the
/// alphabet on completes the grid.
pub proof fn lemma_search_from_sound(
    dimensions: GridDimensions,
    cells: Seq<DigitValue>,
    index: nat,
    k: nat,
)
    requires
        fits(dimensions, cells),
        consistent(dimensions, cells),
        search_from(dimensions, cells, index, k) is Some,
    ensures
        completes(dimensions, cells, search_from(dimensions, cells, index, k).unwrap()),
    decreases unset_count(cells), ALPHABET_SIZE - k,
{
    let digit = Digit::at(k as int);
    let placed = cells.update(index as int, Some(digit));
    if candidates(dimensions, cells, index).contains(digit) {
        if search(dimensions, placed) is Some {
            let found = search(dimensions, placed).unwrap();
            lemma_unset_below_update(cells, index as int, digit, cells.len());
            lemma_placing_keeps_consistent(dimensions, cells, index, digit);
            lemma_search_sound(dimensions, placed);
            assert forall|i: int| 0 <= i < cells.len() && cells[i] is Some implies #[trigger] found[i]
                == cells[i] by {
                assert(placed[i] == cells[i]);
            }
            assert forall|i: int| 0 <= i < cells.len() && cells[i] is None implies alphabet(
                dimensions.section_size(),
            ).contains((#[trigger] found[i]).unwrap()) by {
                if i == index {
                    assert(placed[i] is Some);
                } else {
                    assert(placed[i] is None);
                }
            }
        } else {
            lemma_search_from_sound(dimensions, cells, index, k + 1);
        }
    } else {
        lemma_search_from_sound(dimensions, cells, index, k + 1);
    }
}

/// From a grid that can be completed the search reaches a grid.
pub proof fn lemma_search_complete(
    dimensions: GridDimensions,
    cells: Seq<DigitValue>,
    completed: Seq<DigitValue>,
)
    requires
        fits(dimensions, cells),
        completes(dimensions, cells, completed),
    ensures
        search(dimensions, cells) is Some,
    decreases unset_count(cells), ALPHABET_SIZE + 1,
{
    lemma_choice_below(dimensions, cells, cells.len());
    match choice(dimensions, cells) {
        None => {},
        Some(index) => {
            lemma_search_from_complete(dimensions, cells, completed, index, 0);
        },
    }
}

/// From a grid that can be completed the search reaches a grid by filling an
/// unset cell, as long as it starts no later in the alphabet than at the
/// digit that the completion has there.
pub proof fn lemma_search_from_complete(
    dimensions: GridDimensions,
    cells: Seq<DigitValue>,
    completed: Seq<DigitValue>,
    index: nat,
    k: nat,
)
    requires
        fits(dimensions, cells),
        completes(dimensions, cells, completed),
        index < cells.len(),
        cells[index as int] is None,
        k <= completed[index as int].unwrap().ordinal(),
    ensures
        search_from(dimensions, cells, index, k) is Some,
    decreases unset_count(cells), ALPHABET_SIZE - k,
{
    let target = completed[index as int].unwrap();
    target.lemma_ordinal_at();
    let digit = Digit::at(k as int);
    let placed = cells.update(index as int, Some(digit));
    if k == target.ordinal() {
        lemma_completion_digit_is_candidate(dimensions, cells, completed, index);
        lemma_unset_below_update(cells, index as int, digit, cells.len());
        assert(completed[index as int] == Some(target));
        assert(extends(placed, completed));
        lemma_search_complete(dimensions, placed, completed);
    } else if candidates(dimensions, cells, index).contains(digit) && search(
        dimensions,
        placed,
    ) is Some {
    } else {
        lemma_search_from_complete(dimensions, cells, completed, index, k + 1);
    }
}

/// Solving reaches a grid only if that grid completes the one it started
/// from: the digits that were set are kept, every cell holds a digit, the
/// cells that were unset hold digits of the alphabet, and no row, column or
/// section holds a digit twice.
pub proof fn lemma_solution_sound(dimensions: GridDimensions, cells: Seq<DigitValue>)
    requires
        fits(dimensions, cells),
        solution(dimensions, cells) is Some,
    ensures
        completes(dimensions, cells, solution(dimensions, cells).unwrap()),
{
    lemma_search_sound(dimensions, cells);
}

/// Solving reaches a grid wherever the grid that it starts from can be
/// completed at all.
pub proof fn lemma_solution_complete(
    dimensions: GridDimensions,
    cells: Seq<DigitValue>,
    completed: Seq<DigitValue>,
)
    requires
        fits(dimensions, cells),
        completes(dimensions, cells, completed),
    ensures
        solution(dimensions, cells) is Some,
{
    lemma_completable_is_consistent(dimensions, cells, completed);
    lemma_search_complete(dimensions, cells, completed);
}

/// A full grid without duplicates is its own solution.
pub proof fn lemma_solved_grid_is_kept(dimensions: GridDimensions, cells: Seq<DigitValue>)
    requires
        full(cells),
        consistent(dimensions, cells),
    ensures
        solution(dimensions, cells) == Some(cells),
{
    lemma_choice_below(dimensions, cells, cells.len());
}

/// A grid with an unset cell that has no candidate has no solution.
pub proof fn lemma_dead_cell_has_no_solution(
    dimensions: GridDimensions,
    cells: Seq<DigitValue>,
    index: nat,
)
    requires
        fits(dimensions, cells),
        index < cells.len(),
        cells[index as int] is None,
        candidates(dimensions, cells, index) == Set::<Digit>::empty(),
    ensures
        solution(dimensions, cells) is None,
{
    if solution(dimensions, cells) is Some {
        lemma_solution_sound(dimensions, cells);
        lemma_completion_digit_is_candidate(
            dimensions,
            cells,
            solution(dimensions, cells).unwrap(),
            index,
        );
    }
}

/// Where a grid has one unset cell and that cell one candidate, the solution
/// is the grid with that digit in that cell.
pub proof fn lemma_forced_cell(
    dimensions: GridDimensions,
    cells: Seq<DigitValue>,
    index: nat,
    digit: Digit,
)
    requires
        fits(dimensions, cells),
        consistent(dimensions, cells),
        index < cells.len(),
        cells[index as int] is None,
        forall|i: int| 0 <= i < cells.len() && i != index ==> (#[trigger] cells[i]) is Some,
        candidates(dimensions, cells, index).contains(digit),
    ensures
        solution(dimensions, cells) is Some,
        solution(dimensions, cells).unwrap()[index as int] is Some,
        candidates(dimensions, cells, index).contains(
            solution(dimensions, cells).unwrap()[index as int].unwrap(),
        ),
        forall|i: int|
            0 <= i < cells.len() && i != index ==> solution(dimensions, cells).unwrap()[i]
                == cells[i],
{
    let placed = cells.update(index as int, Some(digit));
    lemma_placing_keeps_consistent(dimensions, cells, index, digit);
    assert(full(placed));
    assert(extends(cells, placed));
    assert(completes(dimensions, cells, placed));
    lemma_solution_complete(dimensions, cells, placed);
    lemma_solution_sound(dimensions, cells);
    lemma_completion_digit_is_candidate(
        dimensions,
        cells,
        solution(dimensions, cells).unwrap(),
        index,
    );
}

/// In a grid with every cell unset, no row, column or section holds a
/// digit, let alone one twice, and each leaves the whole alphabet free.
pub proof fn lemma_fresh_grid(dimensions: GridDimensions, cells: Seq<DigitValue>, k: nat)
    requires
        dimensions.wf(),
        cells.len() == dimensions.cell_count(),
        forall|i: int| 0 <= i < cells.len() ==> (#[trigger] cells[i]) is None,
    ensures
        !has_duplicate(row_values(dimensions, cells, k)),
        !has_duplicate(column_values(dimensions, cells, k)),
        !has_duplicate(section_values(dimensions, cells, k)),
        used(row_values(dimensions, cells, k)) == Set::<Digit>::empty(),
        used(column_values(dimensions, cells, k)) == Set::<Digit>::empty(),
        used(section_values(dimensions, cells, k)) == Set::<Digit>::empty(),
        unused(row_values(dimensions, cells, k), dimensions.section_size()) == alphabet(
            dimensions.section_size(),
        ),
        unused(column_values(dimensions, cells, k), dimensions.section_size()) == alphabet(
            dimensions.section_size(),
        ),
        unused(section_values(dimensions, cells, k), dimensions.section_size()) == alphabet(
            dimensions.section_size(),
        ),
{
    let in_row = row_values(dimensions, cells, k);
    let in_column = column_values(dimensions, cells, k);
    let in_section = section_values(dimensions, cells, k);
    assert forall|a: int| 0 <= a < in_row.len() implies (#[trigger] in_row[a]) is None by {
        dimensions.lemma_row_indices_in_range(k, a as nat);
    }
    assert forall|a: int| 0 <= a < in_column.len() implies (#[trigger] in_column[a]) is None by {
        dimensions.lemma_column_indices_in_range(k, a as nat);
    }
    assert forall|a: int| 0 <= a < in_section.len() implies (#[trigger] in_section[a]) is None by {
        dimensions.lemma_section_indices_in_range(k, a as nat);
    }
    lemma_unset_values(in_row, dimensions.section_size());
    lemma_unset_values(in_column, dimensions.section_size());
    lemma_unset_values(in_section, dimensions.section_size());
}

} // verus!
