use super::digit::DigitValue;
use vstd::prelude::*;

verus! {

/// One cell of a grid: where it lies, and what it holds.
#[derive(Debug, Clone)]
pub struct Cell {
    index: usize,
    column: usize,
    row: usize,
    section: usize,
    value: DigitValue,
}

impl Cell {
    /// The cell's linear index.
    pub closed spec fn index(&self) -> nat {
        self.index as nat
    }

    /// The cell's column.
    pub closed spec fn column(&self) -> nat {
        self.column as nat
    }

    /// The cell's row.
    pub closed spec fn row(&self) -> nat {
        self.row as nat
    }

    /// The section that the cell lies in.
    pub closed spec fn section(&self) -> nat {
        self.section as nat
    }

    /// What the cell holds.
    pub closed spec fn value(&self) -> DigitValue {
        self.value
    }

    /// The cell is the one at `index` of a grid of the given shape: its row,
    /// column and section are those that the shape gives to that index.
    pub open spec fn placed(&self, dimensions: &GridDimensions, index: nat) -> bool {
        &&& self.index() == index
        &&& self.row() == index / dimensions.columns()
        &&& self.column() == index % dimensions.columns()
        &&& self.section() == dimensions.section_of(self.row(), self.column())
    }

    /// Two cells lie at the same place.
    pub open spec fn same_place(&self, other: &Cell) -> bool {
        &&& self.index() == other.index()
        &&& self.row() == other.row()
        &&& self.column() == other.column()
        &&& self.section() == other.section()
    }

    /// A cell at the given place with the given value.
    fn new(index: usize, column: usize, row: usize, section: usize, value: DigitValue) -> (r:
        Self)
        ensures
            r.index() == index,
            r.column() == column,
            r.row() == row,
            r.section() == section,
            r.value() == value,
    {
        Cell { index: index, column: column, row: row, section: section, value: value }
    }

    /// The cell's linear index.
    pub fn get_index(&self) -> (r: &usize)
        ensures
            *r == self.index(),
    {
        &self.index
    }

    /// The cell's column.
    pub fn get_column(&self) -> (r: &usize)
        ensures
            *r == self.column(),
    {
        &self.column
    }

    /// The cell's row.
    pub fn get_row(&self) -> (r: &usize)
        ensures
            *r == self.row(),
    {
        &self.row
    }

    /// The section that the cell lies in.
    pub fn get_section(&self) -> (r: &usize)
        ensures
            *r == self.section(),
    {
        &self.section
    }

    /// What the cell holds.
    pub fn get_value(&self) -> (r: &DigitValue)
        ensures
            *r == self.value(),
    {
        &self.value
    }

    /// Writes a value to the cell, which stays where it lies.
    pub fn set_value(&mut self, value: DigitValue)
        ensures
            final(self).value() == value,
            final(self).same_place(old(self)),
    {
        self.value = value;
    }
}

/// Shape of a grid: its extent in rows and columns, and the shape of one
/// rectangular section.
#[derive(Debug, Clone)]
pub struct GridDimensions {
    row_count: usize,
    column_count: usize,
    section_width: usize,
    section_height: usize,
}

impl GridDimensions {
    /// Number of rows.
    pub closed spec fn rows(&self) -> nat {
        self.row_count as nat
    }

    /// Number of columns.
    pub closed spec fn columns(&self) -> nat {
        self.column_count as nat
    }

    /// Number of columns that one section spans.
    pub closed spec fn block_width(&self) -> nat {
        self.section_width as nat
    }

    /// Number of rows that one section spans.
    pub closed spec fn block_height(&self) -> nat {
        self.section_height as nat
    }

    /// The cell count and the size of a section fit in a machine word.
    pub open spec fn wf(&self) -> bool {
        &&& self.rows() * self.columns() <= usize::MAX
        &&& self.block_width() * self.block_height() <= usize::MAX
    }

    /// Number of cells.
    pub open spec fn cell_count(&self) -> nat {
        self.rows() * self.columns()
    }

    /// Number of bands of sections stacked from top to bottom.
    pub open spec fn block_rows(&self) -> nat {
        if self.block_height() == 0 {
            0
        } else {
            self.rows() / self.block_height()
        }
    }

    /// Number of sections that lie side by side in one band.
    pub open spec fn block_columns(&self) -> nat {
        if self.block_width() == 0 {
            0
        } else {
            self.columns() / self.block_width()
        }
    }

    /// Number of sections.
    pub open spec fn section_count(&self) -> nat {
        self.block_rows() * self.block_columns()
    }

    /// Number of cells in one section, which is also the size of the alphabet.
    pub open spec fn section_size(&self) -> nat {
        self.block_width() * self.block_height()
    }

    /// The sections tile the grid without remainder.
    pub open spec fn valid(&self) -> bool {
        &&& self.block_width() > 0
        &&& self.block_height() > 0
        &&& self.rows() % self.block_height() == 0
        &&& self.columns() % self.block_width() == 0
    }

    /// Linear index of the cell at (`row`, `column`).
    pub open spec fn linear_index(&self, row: nat, column: nat) -> nat {
        row * self.columns() + column
    }

    /// Section that holds the cell at (`row`, `column`): sections are numbered
    /// band by band, and from left to right within a band.
    pub open spec fn section_of(&self, row: nat, column: nat) -> nat {
        if self.block_width() == 0 || self.block_height() == 0 {
            0
        } else {
            (row / self.block_height()) * self.block_columns() + column / self.block_width()
        }
    }

    /// Linear index of the `k`-th cell of `section`, the cells of a section
    /// counted row by row.
    pub open spec fn section_cell(&self, section: nat, k: nat) -> nat
        recommends
            self.block_width() > 0,
            self.block_columns() > 0,
    {
        let row = (section / self.block_columns()) * self.block_height() + k / self.block_width();
        let column = (section % self.block_columns()) * self.block_width() + k % self.block_width();
        row * self.columns() + column
    }

    /// Place of the cell at (`row`, `column`) within its section, the cells of
    /// a section counted row by row.
    pub open spec fn place_in_section(&self, row: nat, column: nat) -> nat
        recommends
            self.block_width() > 0,
            self.block_height() > 0,
    {
        (row % self.block_height()) * self.block_width() + column % self.block_width()
    }

    /// Indices of the cells of `row`, from left to right; empty where there is
    /// no such row.
    pub open spec fn row_indices(&self, row: nat) -> Seq<usize> {
        if row < self.rows() {
            Seq::new(self.columns(), |k: int| (row * self.columns() + k) as usize)
        } else {
            Seq::empty()
        }
    }

    /// Indices of the cells of `column`, from top to bottom; empty where there
    /// is no such column.
    pub open spec fn column_indices(&self, column: nat) -> Seq<usize> {
        if column < self.columns() {
            Seq::new(self.rows(), |k: int| (k * self.columns() + column) as usize)
        } else {
            Seq::empty()
        }
    }

    /// Indices of the cells of `section`, row by row; empty where there is no
    /// such section.
    pub open spec fn section_indices(&self, section: nat) -> Seq<usize> {
        if section < self.section_count() {
            Seq::new(self.section_size(), |k: int| self.section_cell(section, k as nat) as usize)
        } else {
            Seq::empty()
        }
    }

    /// A shape of the given extents.
    pub fn new(columns: usize, rows: usize, section_width: usize, section_height: usize) -> (r:
        Self)
        requires
            rows * columns <= usize::MAX,
            section_width * section_height <= usize::MAX,
        ensures
            r.wf(),
            r.rows() == rows,
            r.columns() == columns,
            r.block_width() == section_width,
            r.block_height() == section_height,
    {
        GridDimensions {
            row_count: rows,
            column_count: columns,
            section_width: section_width,
            section_height: section_height,
        }
    }

    /// Whether the sections tile the grid without remainder.
    pub fn is_valid(&self) -> (r: bool)
        ensures
            r == self.valid(),
    {
        self.section_width != 0 && self.section_height != 0 && self.row_count
            % self.section_height == 0 && self.column_count % self.section_width == 0
    }

    /// Number of rows.
    pub fn get_row_count(&self) -> (r: &usize)
        ensures
            *r == self.rows(),
    {
        &self.row_count
    }

    /// Number of columns.
    pub fn get_column_count(&self) -> (r: &usize)
        ensures
            *r == self.columns(),
    {
        &self.column_count
    }

    /// Number of rows that one section spans.
    pub fn get_section_height(&self) -> (r: &usize)
        ensures
            *r == self.block_height(),
    {
        &self.section_height
    }

    /// Number of columns that one section spans.
    pub fn get_section_width(&self) -> (r: &usize)
        ensures
            *r == self.block_width(),
    {
        &self.section_width
    }

    /// Number of cells.
    pub fn get_cell_count(&self) -> (r: usize)
        requires
            self.wf(),
        ensures
            r == self.cell_count(),
    {
        self.row_count * self.column_count
    }

    /// Number of cells that a buffer for the grid holds.
    pub fn get_data_size(&self) -> (r: usize)
        requires
            self.wf(),
        ensures
            r == self.cell_count(),
    {
        self.row_count * self.column_count
    }

    /// Number of bands of sections: the row count divided by a section's
    /// height, and zero where that height is zero.
    pub fn get_sections_in_row(&self) -> (r: usize)
        ensures
            r == self.block_rows(),
    {
        if self.section_height == 0 {
            0
        } else {
            self.row_count / self.section_height
        }
    }

    /// Number of sections side by side: the column count divided by a
    /// section's width, and zero where that width is zero.
    pub fn get_sections_in_column(&self) -> (r: usize)
        ensures
            r == self.block_columns(),
    {
        if self.section_width == 0 {
            0
        } else {
            self.column_count / self.section_width
        }
    }

    /// Number of sections.
    pub fn get_section_count(&self) -> (r: usize)
        requires
            self.wf(),
        ensures
            r == self.section_count(),
    {
        proof {
            self.lemma_section_count_bound();
        }
        self.get_sections_in_row() * self.get_sections_in_column()
    }

    /// Number of cells in one section.
    pub fn get_section_size(&self) -> (r: usize)
        requires
            self.wf(),
        ensures
            r == self.section_size(),
    {
        assert(self.block_width() * self.block_height() == self.block_height()
            * self.block_width()) by (nonlinear_arith);
        self.section_height * self.section_width
    }

    /// Linear index of the cell at (`column`, `row`).
    pub fn get_index_for_position(&self, column: usize, row: usize) -> (r: usize)
        requires
            self.wf(),
            row < self.rows(),
            column < self.columns(),
        ensures
            r == self.linear_index(row as nat, column as nat),
            r < self.cell_count(),
    {
        proof {
            self.lemma_cell_in_range(row as nat, column as nat);
        }
        row * self.column_count + column
    }

    /// Section that holds the cell at (`column`, `row`).
    pub fn get_section_for_position(&self, column: usize, row: usize) -> (r: usize)
        requires
            self.wf(),
            row < self.rows(),
            column < self.columns(),
        ensures
            r == self.section_of(row as nat, column as nat),
    {
        if self.section_width == 0 || self.section_height == 0 {
            0
        } else {
            let band: usize = row / self.section_height;
            let across: usize = column / self.section_width;
            let stride: usize = self.column_count / self.section_width;
            proof {
                let bh = self.block_height() as int;
                let bw = self.block_width() as int;
                vstd::arithmetic::div_mod::lemma_div_is_ordered_by_denominator(row as int, 1, bh);
                vstd::arithmetic::div_mod::lemma_div_is_ordered_by_denominator(
                    column as int,
                    1,
                    bw,
                );
                vstd::arithmetic::div_mod::lemma_div_is_ordered_by_denominator(
                    self.columns() as int,
                    1,
                    bw,
                );
                assert(band <= row);
                assert(across <= column);
                assert(stride <= self.columns());
                assert(band * stride <= row * self.columns()) by (nonlinear_arith)
                    requires
                        0 <= band <= row,
                        0 <= stride <= self.columns(),
                ;
                self.lemma_cell_in_range(row as nat, column as nat);
            }
            band * stride + across
        }
    }

    /// Indices of the cells of `row`, from left to right; empty where there is
    /// no such row.
    pub fn get_indices_for_row(&self, row: usize) -> (r: Vec<usize>)
        requires
            self.wf(),
        ensures
            r@ == self.row_indices(row as nat),
    {
        let mut result: Vec<usize> = Vec::new();
        if row < self.row_count {
            let mut k: usize = 0;
            while k < self.column_count
                invariant
                    self.wf(),
                    row < self.rows(),
                    k <= self.column_count,
                    self.column_count == self.columns(),
                    result@.len() == k,
                    forall|j: int| 0 <= j < k ==> result@[j] == row * self.columns() + j,
                decreases self.column_count - k,
            {
                proof {
                    self.lemma_cell_in_range(row as nat, k as nat);
                }
                result.push(row * self.column_count + k);
                k += 1;
            }
            proof {
                assert forall|j: int| 0 <= j < self.columns() implies result@[j]
                    == self.row_indices(row as nat)[j] by {
                    self.lemma_cell_in_range(row as nat, j as nat);
                }
                assert(result@ =~= self.row_indices(row as nat));
            }
        }
        result
    }

    /// Indices of the cells of `column`, from top to bottom; empty where there
    /// is no such column.
    pub fn get_indices_for_column(&self, column: usize) -> (r: Vec<usize>)
        requires
            self.wf(),
        ensures
            r@ == self.column_indices(column as nat),
    {
        let mut result: Vec<usize> = Vec::new();
        if column < self.column_count {
            let mut k: usize = 0;
            while k < self.row_count
                invariant
                    self.wf(),
                    column < self.columns(),
                    k <= self.row_count,
                    self.row_count == self.rows(),
                    self.column_count == self.columns(),
                    result@.len() == k,
                    forall|j: int| 0 <= j < k ==> result@[j] == j * self.columns() + column,
                decreases self.row_count - k,
            {
                proof {
                    self.lemma_cell_in_range(k as nat, column as nat);
                }
                result.push(k * self.column_count + column);
                k += 1;
            }
            proof {
                assert forall|j: int| 0 <= j < self.rows() implies result@[j]
                    == self.column_indices(column as nat)[j] by {
                    self.lemma_cell_in_range(j as nat, column as nat);
                }
                assert(result@ =~= self.column_indices(column as nat));
            }
        }
        result
    }

    /// Linear index of the `index`-th cell of `section`.
    pub fn get_index_for_section_index(&self, section: usize, index: usize) -> (r: usize)
        requires
            self.wf(),
            section < self.section_count(),
            index < self.section_size(),
        ensures
            r == self.section_cell(section as nat, index as nat),
            r < self.cell_count(),
    {
        proof {
            self.lemma_section_cell_in_range(section as nat, index as nat);
            self.lemma_section_count_bound();
        }
        let stride: usize = self.column_count / self.section_width;
        let column_offset: usize = index % self.section_width;
        let row_offset: usize = index / self.section_width;
        let column: usize = (section % stride) * self.section_width + column_offset;
        let row: usize = (section / stride) * self.section_height + row_offset;
        row * self.column_count + column
    }

    /// Indices of the cells of `section`, row by row; empty where there is no
    /// such section.
    pub fn get_indices_for_section(&self, section: usize) -> (r: Vec<usize>)
        requires
            self.wf(),
        ensures
            r@ == self.section_indices(section as nat),
    {
        let mut result: Vec<usize> = Vec::new();
        if section < self.get_section_count() {
            let size: usize = self.get_section_size();
            let mut k: usize = 0;
            while k < size
                invariant
                    self.wf(),
                    section < self.section_count(),
                    size == self.section_size(),
                    k <= size,
                    result@.len() == k,
                    forall|j: int|
                        0 <= j < k ==> result@[j] == self.section_cell(section as nat, j as nat),
                decreases size - k,
            {
                let index: usize = self.get_index_for_section_index(section, k);
                result.push(index);
                k += 1;
            }
            proof {
                assert forall|j: int| 0 <= j < self.section_size() implies result@[j]
                    == self.section_indices(section as nat)[j] by {
                    self.lemma_section_cell_in_range(section as nat, j as nat);
                }
                assert(result@ =~= self.section_indices(section as nat));
            }
        }
        result
    }

    /// The `k`-th cell of a section lies in the grid, in the band and at the
    /// place across that the section's number gives.
    pub proof fn lemma_section_cell_in_range(&self, section: nat, k: nat)
        requires
            section < self.section_count(),
            k < self.section_size(),
        ensures
            self.block_width() > 0,
            self.block_height() > 0,
            self.block_columns() > 0,
            section / self.block_columns() < self.block_rows(),
            section % self.block_columns() < self.block_columns(),
            k / self.block_width() < self.block_height(),
            k % self.block_width() < self.block_width(),
            (section / self.block_columns()) * self.block_height() + k / self.block_width()
                < self.rows(),
            (section % self.block_columns()) * self.block_width() + k % self.block_width()
                < self.columns(),
            self.section_cell(section, k) < self.cell_count(),
    {
        let bw = self.block_width() as int;
        let bh = self.block_height() as int;
        let bc = self.block_columns() as int;
        let br = self.block_rows() as int;
        assert(br * bc > 0);
        assert(bc > 0 && br > 0) by (nonlinear_arith)
            requires
                br * bc > 0,
                br >= 0,
                bc >= 0,
        ;
        assert(bw > 0 && bh > 0);
        let s = section as int;
        let kk = k as int;
        vstd::arithmetic::div_mod::lemma_fundamental_div_mod(s, bc);
        vstd::arithmetic::div_mod::lemma_mod_bound(s, bc);
        vstd::arithmetic::div_mod::lemma_div_pos_is_pos(s, bc);
        vstd::arithmetic::div_mod::lemma_fundamental_div_mod(kk, bw);
        vstd::arithmetic::div_mod::lemma_mod_bound(kk, bw);
        vstd::arithmetic::div_mod::lemma_div_pos_is_pos(kk, bw);
        assert(s / bc < br) by (nonlinear_arith)
            requires
                s == bc * (s / bc) + s % bc,
                0 <= s % bc,
                s < br * bc,
                bc > 0,
        ;
        assert(kk / bw < bh) by (nonlinear_arith)
            requires
                kk == bw * (kk / bw) + kk % bw,
                0 <= kk % bw,
                kk < bw * bh,
                bw > 0,
        ;
        self.lemma_section_count_bound();
        let row = (s / bc) * bh + kk / bw;
        let column = (s % bc) * bw + kk % bw;
        assert(row < br * bh) by (nonlinear_arith)
            requires
                row == (s / bc) * bh + kk / bw,
                0 <= s / bc < br,
                0 <= kk / bw < bh,
        ;
        assert(column < bc * bw) by (nonlinear_arith)
            requires
                column == (s % bc) * bw + kk % bw,
                0 <= s % bc < bc,
                0 <= kk % bw < bw,
        ;
        assert(0 <= row && 0 <= column) by (nonlinear_arith)
            requires
                row == (s / bc) * bh + kk / bw,
                column == (s % bc) * bw + kk % bw,
                0 <= s / bc,
                0 <= kk / bw,
                0 <= s % bc,
                0 <= kk % bw,
                bh > 0,
                bw > 0,
        ;
        self.lemma_cell_in_range(row as nat, column as nat);
    }

    /// Every row lists as many cells as there are columns, each of them a cell
    /// of the grid.
    pub proof fn lemma_row_indices_in_range(&self, row: nat, k: nat)
        requires
            self.wf(),
            row < self.rows(),
            k < self.columns(),
        ensures
            self.row_indices(row).len() == self.columns(),
            self.row_indices(row)[k as int] == self.linear_index(row, k),
            self.row_indices(row)[k as int] < self.cell_count(),
    {
        self.lemma_cell_in_range(row, k);
    }

    /// Every column lists as many cells as there are rows, each of them a cell
    /// of the grid.
    pub proof fn lemma_column_indices_in_range(&self, column: nat, k: nat)
        requires
            self.wf(),
            column < self.columns(),
            k < self.rows(),
        ensures
            self.column_indices(column).len() == self.rows(),
            self.column_indices(column)[k as int] == self.linear_index(k, column),
            self.column_indices(column)[k as int] < self.cell_count(),
    {
        self.lemma_cell_in_range(k, column);
    }

    /// Every section lists as many cells as a section has, each of them a cell
    /// of the grid.
    pub proof fn lemma_section_indices_in_range(&self, section: nat, k: nat)
        requires
            self.wf(),
            section < self.section_count(),
            k < self.section_size(),
        ensures
            self.section_indices(section).len() == self.section_size(),
            self.section_indices(section)[k as int] == self.section_cell(section, k),
            self.section_indices(section)[k as int] < self.cell_count(),
    {
        self.lemma_section_cell_in_range(section, k);
    }

    /// A cell's index gives back its row and its column.
    pub proof fn lemma_position_of_index(&self, row: nat, column: nat)
        requires
            row < self.rows(),
            column < self.columns(),
        ensures
            self.linear_index(row, column) / self.columns() == row,
            self.linear_index(row, column) % self.columns() == column,
    {
        vstd::arithmetic::div_mod::lemma_fundamental_div_mod_converse(
            self.linear_index(row, column) as int,
            self.columns() as int,
            row as int,
            column as int,
        );
    }

    /// An index of the grid has a row and a column in range, which give it
    /// back.
    pub proof fn lemma_index_has_position(&self, index: nat)
        requires
            index < self.cell_count(),
        ensures
            self.columns() > 0,
            index / self.columns() < self.rows(),
            index % self.columns() < self.columns(),
            self.linear_index(index / self.columns(), index % self.columns()) == index,
    {
        let c = self.columns() as int;
        let r = self.rows() as int;
        let i = index as int;
        assert(c > 0) by (nonlinear_arith)
            requires
                i < r * c,
                i >= 0,
                r >= 0,
                c >= 0,
        ;
        vstd::arithmetic::div_mod::lemma_fundamental_div_mod(i, c);
        vstd::arithmetic::div_mod::lemma_mod_bound(i, c);
        vstd::arithmetic::div_mod::lemma_div_pos_is_pos(i, c);
        assert(i / c < r) by (nonlinear_arith)
            requires
                i == c * (i / c) + i % c,
                0 <= i % c,
                i < r * c,
                c > 0,
        ;
        assert(c * (i / c) == (i / c) * c) by (nonlinear_arith);
    }

    /// The rows partition the grid: each index of the grid stands in exactly
    /// one row, at exactly one place.
    pub proof fn lemma_rows_partition(&self, index: nat)
        requires
            self.wf(),
            index < self.cell_count(),
        ensures
            index / self.columns() < self.rows(),
            index % self.columns() < self.columns(),
            self.row_indices(index / self.columns())[(index % self.columns()) as int] == index,
            forall|row: nat, k: nat|
                row < self.rows() && k < self.columns() && #[trigger] self.row_indices(row)[k as int]
                    == index ==> row == index / self.columns() && k == index % self.columns(),
    {
        self.lemma_index_has_position(index);
        self.lemma_row_indices_in_range(index / self.columns(), index % self.columns());
        assert forall|row: nat, k: nat|
            row < self.rows() && k < self.columns() && #[trigger] self.row_indices(row)[k as int]
                == index implies row == index / self.columns() && k == index % self.columns() by {
            self.lemma_row_indices_in_range(row, k);
            self.lemma_position_of_index(row, k);
        }
    }

    /// The columns partition the grid: each index of the grid stands in
    /// exactly one column, at exactly one place.
    pub proof fn lemma_columns_partition(&self, index: nat)
        requires
            self.wf(),
            index < self.cell_count(),
        ensures
            index % self.columns() < self.columns(),
            index / self.columns() < self.rows(),
            self.column_indices(index % self.columns())[(index / self.columns()) as int] == index,
            forall|column: nat, k: nat|
                column < self.columns() && k < self.rows() && #[trigger] self.column_indices(
                    column,
                )[k as int] == index ==> column == index % self.columns() && k == index
                    / self.columns(),
    {
        self.lemma_index_has_position(index);
        self.lemma_column_indices_in_range(index % self.columns(), index / self.columns());
        assert forall|column: nat, k: nat|
            column < self.columns() && k < self.rows() && #[trigger] self.column_indices(
                column,
            )[k as int] == index implies column == index % self.columns() && k == index
                / self.columns() by {
            self.lemma_column_indices_in_range(column, k);
            self.lemma_position_of_index(k, column);
        }
    }

    /// The cell that a section lists at a place lies in that section, at that
    /// place.
    pub proof fn lemma_section_cell_position(&self, section: nat, k: nat)
        requires
            section < self.section_count(),
            k < self.section_size(),
        ensures
            ({
                let row = (section / self.block_columns()) * self.block_height() + k
                    / self.block_width();
                let column = (section % self.block_columns()) * self.block_width() + k
                    % self.block_width();
                &&& row < self.rows()
                &&& column < self.columns()
                &&& self.section_cell(section, k) == self.linear_index(row, column)
                &&& self.section_of(row, column) == section
                &&& self.place_in_section(row, column) == k
            }),
    {
        self.lemma_section_cell_in_range(section, k);
        let bw = self.block_width() as int;
        let bh = self.block_height() as int;
        let bc = self.block_columns() as int;
        let s = section as int;
        let kk = k as int;
        let row = (s / bc) * bh + kk / bw;
        let column = (s % bc) * bw + kk % bw;
        vstd::arithmetic::div_mod::lemma_fundamental_div_mod_converse(row, bh, s / bc, kk / bw);
        vstd::arithmetic::div_mod::lemma_fundamental_div_mod_converse(
            column,
            bw,
            s % bc,
            kk % bw,
        );
        vstd::arithmetic::div_mod::lemma_fundamental_div_mod(s, bc);
        vstd::arithmetic::div_mod::lemma_fundamental_div_mod(kk, bw);
        assert(bc * (s / bc) == (s / bc) * bc) by (nonlinear_arith);
        assert(bw * (kk / bw) == (kk / bw) * bw) by (nonlinear_arith);
    }

    /// A cell of a grid whose sections tile it lies in the section that its
    /// row and column give, at the place that they give.
    pub proof fn lemma_section_of_position(&self, row: nat, column: nat)
        requires
            self.valid(),
            row < self.rows(),
            column < self.columns(),
        ensures
            self.section_of(row, column) < self.section_count(),
            self.place_in_section(row, column) < self.section_size(),
            self.section_cell(self.section_of(row, column), self.place_in_section(row, column))
                == self.linear_index(row, column),
    {
        let bw = self.block_width() as int;
        let bh = self.block_height() as int;
        let bc = self.block_columns() as int;
        let br = self.block_rows() as int;
        let r = row as int;
        let c = column as int;
        let rows = self.rows() as int;
        let cols = self.columns() as int;
        vstd::arithmetic::div_mod::lemma_fundamental_div_mod(rows, bh);
        vstd::arithmetic::div_mod::lemma_fundamental_div_mod(cols, bw);
        vstd::arithmetic::div_mod::lemma_fundamental_div_mod(r, bh);
        vstd::arithmetic::div_mod::lemma_fundamental_div_mod(c, bw);
        vstd::arithmetic::div_mod::lemma_mod_bound(r, bh);
        vstd::arithmetic::div_mod::lemma_mod_bound(c, bw);
        vstd::arithmetic::div_mod::lemma_div_pos_is_pos(r, bh);
        vstd::arithmetic::div_mod::lemma_div_pos_is_pos(c, bw);
        assert(rows == bh * br);
        assert(cols == bw * bc);
        assert(r / bh < br) by (nonlinear_arith)
            requires
                r == bh * (r / bh) + r % bh,
                0 <= r % bh,
                r < bh * br,
                bh > 0,
        ;
        assert(c / bw < bc) by (nonlinear_arith)
            requires
                c == bw * (c / bw) + c % bw,
                0 <= c % bw,
                c < bw * bc,
                bw > 0,
        ;
        let s = (r / bh) * bc + c / bw;
        let k = (r % bh) * bw + c % bw;
        assert(s < br * bc) by (nonlinear_arith)
            requires
                s == (r / bh) * bc + c / bw,
                0 <= r / bh < br,
                0 <= c / bw < bc,
        ;
        assert(k < bw * bh) by (nonlinear_arith)
            requires
                k == (r % bh) * bw + c % bw,
                0 <= r % bh < bh,
                0 <= c % bw < bw,
        ;
        vstd::arithmetic::div_mod::lemma_fundamental_div_mod_converse(s, bc, r / bh, c / bw);
        vstd::arithmetic::div_mod::lemma_fundamental_div_mod_converse(k, bw, r % bh, c % bw);
        assert((r / bh) * bh == bh * (r / bh)) by (nonlinear_arith);
        assert((c / bw) * bw == bw * (c / bw)) by (nonlinear_arith);
    }

    /// The sections of a grid that they tile partition it: each index of the
    /// grid stands in exactly one section, at exactly one place, and that
    /// section is the one that the cell's row and column give.
    pub proof fn lemma_sections_partition(&self, index: nat)
        requires
            self.wf(),
            self.valid(),
            index < self.cell_count(),
        ensures
            ({
                let row = index / self.columns();
                let column = index % self.columns();
                let section = self.section_of(row, column);
                let place = self.place_in_section(row, column);
                &&& section < self.section_count()
                &&& place < self.section_size()
                &&& self.section_indices(section)[place as int] == index
                &&& forall|s: nat, k: nat|
                    s < self.section_count() && k < self.section_size()
                        && #[trigger] self.section_indices(s)[k as int] == index ==> s == section
                        && k == place
            }),
    {
        self.lemma_index_has_position(index);
        let row = index / self.columns();
        let column = index % self.columns();
        let section = self.section_of(row, column);
        let place = self.place_in_section(row, column);
        self.lemma_section_of_position(row, column);
        self.lemma_section_indices_in_range(section, place);
        assert forall|s: nat, k: nat|
            s < self.section_count() && k < self.section_size()
                && #[trigger] self.section_indices(s)[k as int] == index implies s == section && k
            == place by {
            self.lemma_section_indices_in_range(s, k);
            self.lemma_section_cell_position(s, k);
            let r2 = (s / self.block_columns()) * self.block_height() + k / self.block_width();
            let c2 = (s % self.block_columns()) * self.block_width() + k % self.block_width();
            self.lemma_position_of_index(r2, c2);
        }
    }

    /// The cells of an empty grid of this shape, in the order of their
    /// indices.
    pub fn new_grid(&self) -> (r: Vec<Cell>)
        requires
            self.wf(),
        ensures
            r@.len() == self.cell_count(),
            forall|i: int|
                0 <= i < r@.len() ==> (#[trigger] r@[i]).placed(self, i as nat) && r@[i].value()
                    is None,
    {
        let mut result: Vec<Cell> = Vec::new();
        let mut row: usize = 0;
        while row < self.row_count
            invariant
                self.wf(),
                row <= self.row_count,
                self.row_count == self.rows(),
                self.column_count == self.columns(),
                result@.len() == row * self.columns(),
                forall|i: int|
                    0 <= i < result@.len() ==> (#[trigger] result@[i]).placed(self, i as nat)
                        && result@[i].value() is None,
            decreases self.row_count - row,
        {
            let mut column: usize = 0;
            while column < self.column_count
                invariant
                    self.wf(),
                    row < self.row_count,
                    column <= self.column_count,
                    self.row_count == self.rows(),
                    self.column_count == self.columns(),
                    result@.len() == row * self.columns() + column,
                    forall|i: int|
                        0 <= i < result@.len() ==> (#[trigger] result@[i]).placed(self, i as nat)
                            && result@[i].value() is None,
                decreases self.column_count - column,
            {
                let index: usize = self.get_index_for_position(column, row);
                let section: usize = self.get_section_for_position(column, row);
                proof {
                    self.lemma_position_of_index(row as nat, column as nat);
                }
                result.push(Cell::new(index, column, row, section, None));
                column += 1;
            }
            assert((row + 1) * self.columns() == row * self.columns() + self.columns())
                by (nonlinear_arith);
            row += 1;
        }
        result
    }

    /// A section that exists has cells, and its first cell lies in the grid.
    pub proof fn lemma_section_origin(&self, section: nat)
        requires
            section < self.section_count(),
        ensures
            self.block_width() > 0,
            self.block_height() > 0,
            self.block_columns() > 0,
            self.section_size() > 0,
            (section / self.block_columns()) * self.block_height() < self.rows(),
            (section % self.block_columns()) * self.block_width() < self.columns(),
    {
        let bw = self.block_width() as int;
        let bh = self.block_height() as int;
        let br = self.block_rows() as int;
        let bc = self.block_columns() as int;
        assert(bc > 0 && br > 0) by (nonlinear_arith)
            requires
                br * bc > 0,
                br >= 0,
                bc >= 0,
        ;
        assert(bw * bh > 0) by (nonlinear_arith)
            requires
                bw > 0,
                bh > 0,
        ;
        self.lemma_section_cell_in_range(section, 0);
    }

    /// Each extent of the shape fits in a machine word.
    pub proof fn lemma_extents_fit(&self)
        ensures
            self.rows() <= usize::MAX,
            self.columns() <= usize::MAX,
            self.block_width() <= usize::MAX,
            self.block_height() <= usize::MAX,
    {
    }

    /// In range, a row and a column name a cell of the grid.
    pub proof fn lemma_cell_in_range(&self, row: nat, column: nat)
        requires
            row < self.rows(),
            column < self.columns(),
        ensures
            row * self.columns() + column < self.cell_count(),
            row * self.columns() + column == self.linear_index(row, column),
    {
        assert(row * self.columns() + column < self.rows() * self.columns()) by (nonlinear_arith)
            requires
                row < self.rows(),
                column < self.columns(),
        ;
    }

    /// There are at most as many sections as cells, and the sections that lie
    /// in the grid cover no more than the grid.
    pub proof fn lemma_section_count_bound(&self)
        ensures
            self.block_rows() * self.block_height() <= self.rows(),
            self.block_columns() * self.block_width() <= self.columns(),
            self.block_rows() <= self.rows(),
            self.block_columns() <= self.columns(),
            self.section_count() <= self.cell_count(),
    {
        let bh = self.block_height() as int;
        let bw = self.block_width() as int;
        if bh > 0 {
            vstd::arithmetic::div_mod::lemma_fundamental_div_mod(self.rows() as int, bh);
            vstd::arithmetic::div_mod::lemma_mod_bound(self.rows() as int, bh);
            assert(bh * (self.rows() as int / bh) == (self.rows() as int / bh) * bh)
                by (nonlinear_arith);
            assert(self.block_rows() <= self.block_rows() * bh) by (nonlinear_arith)
                requires
                    bh >= 1,
            ;
        }
        if bw > 0 {
            vstd::arithmetic::div_mod::lemma_fundamental_div_mod(self.columns() as int, bw);
            vstd::arithmetic::div_mod::lemma_mod_bound(self.columns() as int, bw);
            assert(bw * (self.columns() as int / bw) == (self.columns() as int / bw) * bw)
                by (nonlinear_arith);
            assert(self.block_columns() <= self.block_columns() * bw) by (nonlinear_arith)
                requires
                    bw >= 1,
            ;
        }
        assert(self.block_rows() * self.block_columns() <= self.rows() * self.columns())
            by (nonlinear_arith)
            requires
                self.block_rows() <= self.rows(),
                self.block_columns() <= self.columns(),
        ;
    }
}

} // verus!
