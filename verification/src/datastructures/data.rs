use super::digit::DigitValue;
use super::griddimensions::GridDimensions;
use vstd::prelude::*;

verus! {

/// The values that `values` holds at `indices`, in their order.
pub open spec fn select(values: Seq<DigitValue>, indices: Seq<usize>) -> Seq<DigitValue> {
    Seq::new(indices.len(), |k: int| values[indices[k] as int])
}

/// The flat buffer of a grid's cell values, row by row.
#[derive(Debug, Clone)]
pub struct Data {
    data: Vec<DigitValue>,
    dimensions: GridDimensions,
}

impl View for Data {
    type V = Seq<DigitValue>;

    closed spec fn view(&self) -> Seq<DigitValue> {
        self.data@
    }
}

impl Data {
    /// The shape of the grid.
    pub closed spec fn dimensions(&self) -> GridDimensions {
        self.dimensions
    }

    /// The buffer holds one value for each cell of the grid.
    pub open spec fn wf(&self) -> bool {
        &&& self.dimensions().wf()
        &&& self@.len() == self.dimensions().cell_count()
    }

    /// The values of a row, from left to right.
    pub open spec fn row_values(&self, row: nat) -> Seq<DigitValue> {
        select(self@, self.dimensions().row_indices(row))
    }

    /// The values of a column, from top to bottom.
    pub open spec fn column_values(&self, column: nat) -> Seq<DigitValue> {
        select(self@, self.dimensions().column_indices(column))
    }

    /// The values of a section, row by row.
    pub open spec fn section_values(&self, section: nat) -> Seq<DigitValue> {
        select(self@, self.dimensions().section_indices(section))
    }

    /// A grid of the given shape with every cell unset.
    pub fn new(columns: usize, rows: usize, section_width: usize, section_height: usize) -> (r:
        Self)
        requires
            rows * columns <= usize::MAX,
            section_width * section_height <= usize::MAX,
        ensures
            r.wf(),
            r.dimensions().rows() == rows,
            r.dimensions().columns() == columns,
            r.dimensions().block_width() == section_width,
            r.dimensions().block_height() == section_height,
            forall|i: int| 0 <= i < r@.len() ==> r@[i] is None,
    {
        let size: usize = rows * columns;
        let mut data: Vec<DigitValue> = Vec::new();
        let mut k: usize = 0;
        while k < size
            invariant
                k <= size,
                data@.len() == k,
                forall|i: int| 0 <= i < k ==> data@[i] is None,
            decreases size - k,
        {
            data.push(None);
            k += 1;
        }
        Data {
            data: data,
            dimensions: GridDimensions::new(columns, rows, section_width, section_height),
        }
    }

    /// Number of rows.
    pub fn get_row_count(&self) -> (r: &usize)
        ensures
            *r == self.dimensions().rows(),
    {
        self.dimensions.get_row_count()
    }

    /// Number of columns.
    pub fn get_column_count(&self) -> (r: &usize)
        ensures
            *r == self.dimensions().columns(),
    {
        self.dimensions.get_column_count()
    }

    /// Number of rows that one section spans.
    pub fn get_section_height(&self) -> (r: &usize)
        ensures
            *r == self.dimensions().block_height(),
    {
        self.dimensions.get_section_height()
    }

    /// Number of columns that one section spans.
    pub fn get_section_width(&self) -> (r: &usize)
        ensures
            *r == self.dimensions().block_width(),
    {
        self.dimensions.get_section_width()
    }

    /// The shape of the grid.
    pub fn get_dimensions(&self) -> (r: &GridDimensions)
        ensures
            *r == self.dimensions(),
    {
        &self.dimensions
    }

    /// The value of the cell at `position`.
    pub fn get_value(&self, position: usize) -> (r: &DigitValue)
        requires
            position < self@.len(),
        ensures
            *r == self@[position as int],
    {
        &self.data[position]
    }

    /// The cell at `position`, for writing.
    pub fn get_value_mut(&mut self, position: usize) -> (r: &mut DigitValue)
        requires
            position < old(self)@.len(),
        ensures
            *r == old(self)@[position as int],
            final(self)@ == old(self)@.update(position as int, *final(r)),
            final(self).dimensions() == old(self).dimensions(),
    {
        &mut self.data[position]
    }

    /// Number of cells.
    pub fn get_cell_count(&self) -> (r: usize)
        requires
            self.wf(),
        ensures
            r == self.dimensions().cell_count(),
            r == self@.len(),
    {
        self.dimensions.get_cell_count()
    }

    /// Number of bands of sections.
    pub fn get_sections_in_row(&self) -> (r: usize)
        ensures
            r == self.dimensions().block_rows(),
    {
        self.dimensions.get_sections_in_row()
    }

    /// Number of sections side by side.
    pub fn get_sections_in_column(&self) -> (r: usize)
        ensures
            r == self.dimensions().block_columns(),
    {
        self.dimensions.get_sections_in_column()
    }
}

} // verus!
