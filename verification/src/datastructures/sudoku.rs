use super::data::select;
use super::digit::{Digit, DigitHashSet, DigitValue};
use super::griddimensions::{Cell, GridDimensions};
use super::rules::{
    column_values, consistent, free_digits, has_duplicate, lemma_duplicate_push,
    lemma_no_values, row_values, section_values, unused, used,
};
use vstd::prelude::*;

verus! {

/// The cells that `cells` holds at `indices`, in their order.
pub open spec fn select_cells(cells: Seq<Cell>, indices: Seq<usize>) -> Seq<Cell> {
    Seq::new(indices.len(), |k: int| cells[indices[k] as int])
}

/// The values that the cells hold, in their order.
pub open spec fn cell_values(cells: Seq<Cell>) -> Seq<DigitValue> {
    Seq::new(cells.len(), |k: int| cells[k].value())
}

/// A grid of cells, each unset or holding a digit.
pub struct Sudoku {
    grid: Vec<Cell>,
    grid_dimensions: GridDimensions,
}

/// Walks a chosen subset of the cells of a grid.
pub struct SubSetIterator<'a> {
    data: Vec<&'a Cell>,
    current: usize,
}

impl<'a> SubSetIterator<'a> {
    /// The cells still to come.
    pub closed spec fn remaining(&self) -> Seq<Cell> {
        Seq::new(
            (self.data@.len() - self.current) as nat,
            |k: int| *self.data@[self.current + k],
        )
    }

    /// The walk stands within its cells.
    pub closed spec fn wf(&self) -> bool {
        self.current <= self.data@.len()
    }

    /// A walk over the given cells, in their order.
    pub fn new(data: Vec<&'a Cell>) -> (r: Self)
        ensures
            r.wf(),
            r.remaining() == Seq::new(data@.len(), |k: int| *data@[k]),
    {
        let result = Self { data: data, current: 0 };
        assert(result.remaining() =~= Seq::new(data@.len(), |k: int| *data@[k]));
        result
    }

    /// Hands out the next cell, or `None` after the last.
    pub fn next(&mut self) -> (r: Option<&'a Cell>)
        requires
            old(self).wf(),
        ensures
            final(self).wf(),
            match r {
                Some(cell) => old(self).remaining().len() > 0 && *cell == old(
                    self,
                ).remaining()[0] && final(self).remaining() == old(self).remaining().skip(1),
                None => old(self).remaining().len() == 0 && final(self).remaining() == old(
                    self,
                ).remaining(),
            },
    {
        if self.current >= self.data.len() {
            return None;
        }
        self.current += 1;
        assert(self.remaining() =~= old(self).remaining().skip(1));
        Some(self.data[self.current - 1])
    }

    /// The number of cells still to come.
    pub fn count(self) -> (r: usize)
        requires
            self.wf(),
        ensures
            r == self.remaining().len(),
    {
        self.data.len() - self.current
    }
}

impl View for Sudoku {
    type V = Seq<DigitValue>;

    /// The values of the cells, in the order of their indices.
    open spec fn view(&self) -> Seq<DigitValue> {
        Seq::new(self.cells().len(), |i: int| self.cells()[i].value())
    }
}

impl Sudoku {
    /// The cells, in the order of their indices.
    pub closed spec fn cells(&self) -> Seq<Cell> {
        self.grid@
    }

    /// The shape of the grid.
    pub closed spec fn dimensions(&self) -> GridDimensions {
        self.grid_dimensions
    }

    /// There is one cell for each index of the grid, and each cell knows the
    /// row, the column and the section that the shape gives to its index.
    pub open spec fn wf(&self) -> bool {
        &&& self.dimensions().wf()
        &&& self.cells().len() == self.dimensions().cell_count()
        &&& forall|i: int|
            0 <= i < self.cells().len() ==> (#[trigger] self.cells()[i]).placed(
                &self.dimensions(),
                i as nat,
            )
    }

    /// A grid of the given shape with every cell unset.
    pub fn new(columns: usize, rows: usize, section_width: usize, section_height: usize) -> (r:
        Self)
        requires
            rows * columns <= usize::MAX,
            section_width * section_height <= usize::MAX,
        ensures
            r.wf(),
            r.dimensions().rows() == rows,
            r.dimensions().columns() == columns,
            r.dimensions().block_width() == section_width,
            r.dimensions().block_height() == section_height,
            r@.len() == rows * columns,
            forall|i: int| 0 <= i < r@.len() ==> r@[i] is None,
    {
        let new_grid_dimensions = GridDimensions::new(columns, rows, section_width, section_height);
        Sudoku { grid: new_grid_dimensions.new_grid(), grid_dimensions: new_grid_dimensions }
    }

    /// Whether the sections tile the grid.
    pub fn is_valid(&self) -> (r: bool)
        ensures
            r == self.dimensions().valid(),
    {
        self.grid_dimensions.is_valid()
    }

    /// The shape of the grid.
    pub fn get_dimensions(&self) -> (r: &GridDimensions)
        ensures
            *r == self.dimensions(),
    {
        &self.grid_dimensions
    }

    /// The cell at `index`, or `None` where the grid has no such cell.
    pub fn get_cell(&self, index: usize) -> (r: Option<&Cell>)
        requires
            self.wf(),
        ensures
            match r {
                Some(cell) => index < self.cells().len() && *cell == self.cells()[index as int],
                None => index >= self.cells().len(),
            },
    {
        if index < self.grid_dimensions.get_data_size() {
            Some(&self.grid[index])
        } else {
            None
        }
    }

    /// The cell at `index` for writing, or `None` where the grid has no such
    /// cell.
    fn get_mut_cell(&mut self, index: usize) -> (r: Option<&mut Cell>)
        requires
            old(self).wf(),
        ensures
            final(self).dimensions() == old(self).dimensions(),
            match r {
                Some(cell) => index < old(self).cells().len() && *cell == old(
                    self,
                ).cells()[index as int] && final(self).cells() == old(self).cells().update(
                    index as int,
                    *final(cell),
                ),
                None => index >= old(self).cells().len() && final(self).cells() == old(
                    self,
                ).cells(),
            },
    {
        if index < self.grid_dimensions.get_data_size() {
            Some(&mut self.grid[index])
        } else {
            None
        }
    }

    /// The value of the cell at `index`.
    pub fn get_digit_for_cell(&self, index: usize) -> (r: DigitValue)
        requires
            self.wf(),
            index < self@.len(),
        ensures
            r == self@[index as int],
    {
        *self.grid[index].get_value()
    }

    /// Writes `digit_value` to the cell at `index`.
    pub fn set_digit_for_cell(&mut self, index: usize, digit_value: DigitValue)
        requires
            old(self).wf(),
            index < old(self)@.len(),
        ensures
            final(self).wf(),
            final(self).dimensions() == old(self).dimensions(),
            final(self)@ == old(self)@.update(index as int, digit_value),
    {
        match self.get_mut_cell(index) {
            Some(cell) => {
                cell.set_value(digit_value);
            },
            None => {},
        }
        assert(self@ =~= old(self)@.update(index as int, digit_value));
    }
}

impl Sudoku {
    /// The values of a row, from left to right; empty where there is no such
    /// row.
    pub open spec fn row_values(&self, row: nat) -> Seq<DigitValue> {
        row_values(self.dimensions(), self@, row)
    }

    /// The values of a column, from top to bottom; empty where there is no
    /// such column.
    pub open spec fn column_values(&self, column: nat) -> Seq<DigitValue> {
        column_values(self.dimensions(), self@, column)
    }

    /// The values of a section, row by row; empty where there is no such
    /// section.
    pub open spec fn section_values(&self, section: nat) -> Seq<DigitValue> {
        section_values(self.dimensions(), self@, section)
    }

    /// The cells at the given indices hold the values at those indices.
    pub proof fn lemma_values_of_selected(&self, indices: Seq<usize>)
        requires
            forall|k: int| 0 <= k < indices.len() ==> indices[k] < self.cells().len(),
        ensures
            cell_values(select_cells(self.cells(), indices)) == select(self@, indices),
    {
        assert(cell_values(select_cells(self.cells(), indices)) =~= select(self@, indices));
    }

    /// A walk over the cells at the given indices, in their order.
    fn subset<'a>(&'a self, indices: Vec<usize>) -> (r: SubSetIterator<'a>)
        requires
            self.wf(),
            forall|k: int| 0 <= k < indices@.len() ==> indices@[k] < self.cells().len(),
        ensures
            r.wf(),
            r.remaining() == select_cells(self.cells(), indices@),
    {
        let mut subset: Vec<&'a Cell> = Vec::new();
        let mut k: usize = 0;
        while k < indices.len()
            invariant
                k <= indices@.len(),
                forall|j: int| 0 <= j < indices@.len() ==> indices@[j] < self.grid@.len(),
                subset@.len() == k,
                forall|j: int| 0 <= j < k ==> *subset@[j] == self.grid@[indices@[j] as int],
            decreases indices@.len() - k,
        {
            subset.push(&self.grid[indices[k]]);
            k += 1;
        }
        let result = SubSetIterator::new(subset);
        assert(result.remaining() =~= select_cells(self.cells(), indices@));
        result
    }

    /// The cells of a row, from left to right; none where there is no such
    /// row.
    pub fn row<'a>(&'a self, row: usize) -> (r: SubSetIterator<'a>)
        requires
            self.wf(),
        ensures
            r.wf(),
            r.remaining() == select_cells(self.cells(), self.dimensions().row_indices(row as nat)),
            cell_values(r.remaining()) == self.row_values(row as nat),
    {
        let indices = self.grid_dimensions.get_indices_for_row(row);
        proof {
            assert forall|k: int| 0 <= k < indices@.len() implies indices@[k]
                < self.cells().len() by {
                self.dimensions().lemma_row_indices_in_range(row as nat, k as nat);
            }
            self.lemma_values_of_selected(indices@);
        }
        self.subset(indices)
    }

    /// The cells of a column, from top to bottom; none where there is no
    /// such column.
    pub fn column<'a>(&'a self, column: usize) -> (r: SubSetIterator<'a>)
        requires
            self.wf(),
        ensures
            r.wf(),
            r.remaining() == select_cells(
                self.cells(),
                self.dimensions().column_indices(column as nat),
            ),
            cell_values(r.remaining()) == self.column_values(column as nat),
    {
        let indices = self.grid_dimensions.get_indices_for_column(column);
        proof {
            assert forall|k: int| 0 <= k < indices@.len() implies indices@[k]
                < self.cells().len() by {
                self.dimensions().lemma_column_indices_in_range(column as nat, k as nat);
            }
            self.lemma_values_of_selected(indices@);
        }
        self.subset(indices)
    }

    /// The cells of a section, row by row; none where there is no such
    /// section.
    pub fn section<'a>(&'a self, section: usize) -> (r: SubSetIterator<'a>)
        requires
            self.wf(),
        ensures
            r.wf(),
            r.remaining() == select_cells(
                self.cells(),
                self.dimensions().section_indices(section as nat),
            ),
            cell_values(r.remaining()) == self.section_values(section as nat),
    {
        let indices = self.grid_dimensions.get_indices_for_section(section);
        proof {
            assert forall|k: int| 0 <= k < indices@.len() implies indices@[k]
                < self.cells().len() by {
                self.dimensions().lemma_section_indices_in_range(section as nat, k as nat);
            }
            self.lemma_values_of_selected(indices@);
        }
        self.subset(indices)
    }

    /// The digits that the cells hold, or `None` where they hold a digit
    /// twice.
    fn used_digits_for_iter<'a>(&self, vals: SubSetIterator<'a>) -> (r: Option<DigitHashSet>)
        requires
            vals.wf(),
        ensures
            r is None <==> has_duplicate(cell_values(vals.remaining())),
            r is Some ==> r.unwrap()@ == used(cell_values(vals.remaining())),
    {
        let mut vals = vals;
        let ghost all = cell_values(vals.remaining());
        let ghost mut done: Seq<DigitValue> = Seq::empty();
        let mut result = DigitHashSet::new();
        let mut found_more_than_one_digit_in_set: bool = false;
        proof {
            lemma_no_values();
            assert(done + cell_values(vals.remaining()) =~= all);
        }
        loop
            invariant
                vals.wf(),
                done + cell_values(vals.remaining()) == all,
                result@ == used(done),
                found_more_than_one_digit_in_set == has_duplicate(done),
            ensures
                result@ == used(all),
                found_more_than_one_digit_in_set == has_duplicate(all),
            decreases vals.remaining().len(),
        {
            let ghost before = vals.remaining();
            match vals.next() {
                Some(cell) => {
                    match cell.get_value() {
                        Some(digit) => {
                            let fresh: bool = result.insert(*digit);
                            found_more_than_one_digit_in_set = found_more_than_one_digit_in_set
                                || !fresh;
                        },
                        None => {},
                    }
                    proof {
                        lemma_duplicate_push(done, cell.value());
                        assert(done.push(cell.value()) + cell_values(vals.remaining()) =~= done
                            + cell_values(before));
                        done = done.push(cell.value());
                    }
                },
                None => {
                    proof {
                        assert(done + cell_values(vals.remaining()) =~= done);
                    }
                    break ;
                },
            }
        }
        if !found_more_than_one_digit_in_set {
            Some(result)
        } else {
            None
        }
    }

    /// The digits that a row holds, or `None` where it holds a digit twice.
    pub fn used_digits_in_row(&self, row: usize) -> (r: Option<DigitHashSet>)
        requires
            self.wf(),
        ensures
            r is None <==> has_duplicate(self.row_values(row as nat)),
            r is Some ==> r.unwrap()@ == used(self.row_values(row as nat)),
    {
        self.used_digits_for_iter(self.row(row))
    }

    /// The digits that a column holds, or `None` where it holds a digit
    /// twice.
    pub fn used_digits_in_column(&self, column: usize) -> (r: Option<DigitHashSet>)
        requires
            self.wf(),
        ensures
            r is None <==> has_duplicate(self.column_values(column as nat)),
            r is Some ==> r.unwrap()@ == used(self.column_values(column as nat)),
    {
        self.used_digits_for_iter(self.column(column))
    }

    /// The digits that a section holds, or `None` where it holds a digit
    /// twice.
    pub fn used_digits_in_section(&self, section: usize) -> (r: Option<DigitHashSet>)
        requires
            self.wf(),
        ensures
            r is None <==> has_duplicate(self.section_values(section as nat)),
            r is Some ==> r.unwrap()@ == used(self.section_values(section as nat)),
    {
        self.used_digits_for_iter(self.section(section))
    }

    /// The digits of the alphabet that the cells do not hold, or `None` where
    /// they hold a digit twice.
    fn unused_digits_for_iter<'a>(&self, vals: SubSetIterator<'a>) -> (r: Option<DigitHashSet>)
        requires
            self.dimensions().wf(),
            vals.wf(),
        ensures
            r is None <==> has_duplicate(cell_values(vals.remaining())),
            r is Some ==> r.unwrap()@ == unused(
                cell_values(vals.remaining()),
                self.dimensions().section_size(),
            ),
    {
        match self.used_digits_for_iter(vals) {
            Some(taken) => {
                let all = DigitHashSet::first(self.grid_dimensions.get_section_size());
                Some(all.difference(&taken))
            },
            None => None,
        }
    }

    /// The digits of the alphabet that a row does not hold, or `None` where
    /// it holds a digit twice.
    pub fn unused_digits_in_row(&self, row: usize) -> (r: Option<DigitHashSet>)
        requires
            self.wf(),
        ensures
            r is None <==> has_duplicate(self.row_values(row as nat)),
            r is Some ==> r.unwrap()@ == unused(
                self.row_values(row as nat),
                self.dimensions().section_size(),
            ),
    {
        self.unused_digits_for_iter(self.row(row))
    }

    /// The digits of the alphabet that a column does not hold, or `None`
    /// where it holds a digit twice.
    pub fn unused_digits_in_column(&self, column: usize) -> (r: Option<DigitHashSet>)
        requires
            self.wf(),
        ensures
            r is None <==> has_duplicate(self.column_values(column as nat)),
            r is Some ==> r.unwrap()@ == unused(
                self.column_values(column as nat),
                self.dimensions().section_size(),
            ),
    {
        self.unused_digits_for_iter(self.column(column))
    }

    /// The digits of the alphabet that a section does not hold, or `None`
    /// where it holds a digit twice.
    pub fn unused_digits_in_section(&self, section: usize) -> (r: Option<DigitHashSet>)
        requires
            self.wf(),
        ensures
            r is None <==> has_duplicate(self.section_values(section as nat)),
            r is Some ==> r.unwrap()@ == unused(
                self.section_values(section as nat),
                self.dimensions().section_size(),
            ),
    {
        self.unused_digits_for_iter(self.section(section))
    }

    /// The digits that may still be placed in a cell: those that its row, its
    /// column and its section all leave free, or `None` where one of the
    /// three holds a digit twice.
    pub fn available_digits_for_cell(&self, cell: &Cell) -> (r: Option<DigitHashSet>)
        requires
            self.wf(),
        ensures
            ({
                let free = free_digits(
                    self.row_values(cell.row()),
                    self.column_values(cell.column()),
                    self.section_values(cell.section()),
                    self.dimensions().section_size(),
                );
                &&& r is None <==> free is None
                &&& r is Some ==> r.unwrap()@ == free.unwrap()
            }),
    {
        let columnset = self.unused_digits_in_column(*cell.get_column());
        let rowset = self.unused_digits_in_row(*cell.get_row());
        let sectionset = self.unused_digits_in_section(*cell.get_section());
        match (rowset, columnset, sectionset) {
            (Some(in_row), Some(in_column), Some(in_section)) => {
                let intersection = in_row.intersection(&in_column);
                Some(intersection.intersection(&in_section))
            },
            _ => None,
        }
    }

    /// Whether no row, no column and no section holds a digit twice.
    pub fn is_consistent(&self) -> (r: bool)
        requires
            self.wf(),
        ensures
            r == consistent(self.dimensions(), self@),
    {
        let rows: usize = *self.grid_dimensions.get_row_count();
        let columns: usize = *self.grid_dimensions.get_column_count();
        let sections: usize = self.grid_dimensions.get_section_count();
        let mut row: usize = 0;
        while row < rows
            invariant
                self.wf(),
                row <= rows,
                rows == self.dimensions().rows(),
                forall|k: nat|
                    k < row ==> !has_duplicate(#[trigger] row_values(self.dimensions(), self@, k)),
            decreases rows - row,
        {
            if self.used_digits_in_row(row).is_none() {
                assert(has_duplicate(row_values(self.dimensions(), self@, row as nat)));
                return false;
            }
            row += 1;
        }
        let mut column: usize = 0;
        while column < columns
            invariant
                self.wf(),
                column <= columns,
                columns == self.dimensions().columns(),
                forall|k: nat|
                    k < self.dimensions().rows() ==> !has_duplicate(
                        #[trigger] row_values(self.dimensions(), self@, k),
                    ),
                forall|k: nat|
                    k < column ==> !has_duplicate(
                        #[trigger] column_values(self.dimensions(), self@, k),
                    ),
            decreases columns - column,
        {
            if self.used_digits_in_column(column).is_none() {
                assert(has_duplicate(column_values(self.dimensions(), self@, column as nat)));
                return false;
            }
            column += 1;
        }
        let mut section: usize = 0;
        while section < sections
            invariant
                self.wf(),
                section <= sections,
                sections == self.dimensions().section_count(),
                forall|k: nat|
                    k < self.dimensions().rows() ==> !has_duplicate(
                        #[trigger] row_values(self.dimensions(), self@, k),
                    ),
                forall|k: nat|
                    k < self.dimensions().columns() ==> !has_duplicate(
                        #[trigger] column_values(self.dimensions(), self@, k),
                    ),
                forall|k: nat|
                    k < section ==> !has_duplicate(
                        #[trigger] section_values(self.dimensions(), self@, k),
                    ),
            decreases sections - section,
        {
            if self.used_digits_in_section(section).is_none() {
                assert(has_duplicate(section_values(self.dimensions(), self@, section as nat)));
                return false;
            }
            section += 1;
        }
        true
    }

    /// Writes the first values of `values` down a column, from top to bottom;
    /// nothing where there is no such column.
    pub fn update_column(&mut self, column: usize, values: Vec<Digit>)
        requires
            old(self).wf(),
            column < old(self).dimensions().columns() ==> values@.len() >= old(
                self,
            ).dimensions().rows(),
        ensures
            final(self).wf(),
            final(self).dimensions() == old(self).dimensions(),
            final(self)@.len() == old(self)@.len(),
            forall|row: nat, col: nat|
                row < old(self).dimensions().rows() && col < old(self).dimensions().columns()
                    ==> final(self)@[#[trigger] old(self).dimensions().linear_index(row, col) as int]
                    == (if col == column {
                    Some(values@[row as int])
                } else {
                    old(self)@[old(self).dimensions().linear_index(row, col) as int]
                }),
    {
        let indices = self.grid_dimensions.get_indices_for_column(column);
        let mut k: usize = 0;
        while k < indices.len()
            invariant
                self.wf(),
                self.dimensions() == old(self).dimensions(),
                self@.len() == old(self)@.len(),
                k <= indices@.len(),
                indices@ == self.dimensions().column_indices(column as nat),
                column < self.dimensions().columns() ==> values@.len()
                    >= self.dimensions().rows(),
                forall|row: nat, col: nat|
                    row < self.dimensions().rows() && col < self.dimensions().columns()
                        ==> self@[#[trigger] self.dimensions().linear_index(row, col) as int] == (
                    if col == column && row < k {
                        Some(values@[row as int])
                    } else {
                        old(self)@[self.dimensions().linear_index(row, col) as int]
                    }),
            decreases indices@.len() - k,
        {
            proof {
                self.dimensions().lemma_column_indices_in_range(column as nat, k as nat);
            }
            self.set_digit_for_cell(indices[k], Some(values[k]));
            proof {
                let dims = self.dimensions();
                assert forall|row: nat, col: nat|
                    row < dims.rows() && col < dims.columns() implies self@[#[trigger] dims.linear_index(
                    row,
                    col,
                ) as int] == (if col == column && row < k + 1 {
                    Some(values@[row as int])
                } else {
                    old(self)@[dims.linear_index(row, col) as int]
                }) by {
                    dims.lemma_position_of_index(row, col);
                    dims.lemma_position_of_index(k as nat, column as nat);
                    dims.lemma_cell_in_range(row, col);
                }
            }
            k += 1;
        }
    }
}

} // verus!
