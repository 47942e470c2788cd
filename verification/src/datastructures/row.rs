use super::data::Data;
use super::digit::DigitValue;
use vstd::prelude::*;

verus! {

/// Walks the values of one row of a grid, from left to right.
pub struct RowIterator<'a> {
    data: &'a Data,
    row: usize,
    current: usize,
}

impl<'a> RowIterator<'a> {
    /// The grid that is walked.
    pub closed spec fn source(&self) -> Data {
        *self.data
    }

    /// The row that is walked.
    pub closed spec fn row(&self) -> nat {
        self.row as nat
    }

    /// How many values have been handed out, or the row's length where there
    /// is no such row.
    pub closed spec fn taken(&self) -> nat {
        self.current as nat
    }

    /// The walk stands within the group of cells that it walks, over a grid of the right size.
    pub open spec fn wf(&self) -> bool {
        &&& self.source().wf()
        &&& self.taken() <= self.source().dimensions().columns()
        &&& self.row() >= self.source().dimensions().rows() ==> self.taken()
            == self.source().dimensions().columns()
    }

    /// The values still to come.
    pub open spec fn remaining(&self) -> Seq<DigitValue> {
        if self.row() < self.source().dimensions().rows() {
            self.source().row_values(self.row()).skip(self.taken() as int)
        } else {
            Seq::empty()
        }
    }

    /// Linear index of the cell that comes next.
    fn get_current_position(&self) -> (r: usize)
        requires
            self.wf(),
            self.taken() < self.source().dimensions().columns(),
        ensures
            r == self.source().dimensions().row_indices(self.row())[self.taken() as int],
            r < self.source()@.len(),
    {
        proof {
            self.data.dimensions().lemma_row_indices_in_range(self.row(), self.taken());
        }
        self.row * *self.data.get_column_count() + self.current
    }

    /// Whether every cell has been handed out.
    fn at_end(&self) -> (r: bool)
        ensures
            r == (self.taken() >= self.source().dimensions().columns()),
            !r ==> self.taken() < usize::MAX,
    {
        self.current >= *self.data.get_column_count()
    }

    /// A walk over `row` of `data`, which hands out nothing where there is no
    /// such row.
    pub fn new(data: &'a Data, row: usize) -> (r: Self)
        requires
            data.wf(),
        ensures
            r.wf(),
            r.source() == *data,
            r.row() == row,
            r.remaining() == data.row_values(row as nat),
    {
        let init_current: usize;
        if row < *data.get_row_count() {
            init_current = 0;
        } else {
            init_current = *data.get_column_count();
        }
        let result = RowIterator { data: data, row: row, current: init_current };
        assert(result.remaining() =~= data.row_values(row as nat));
        result
    }

    /// Hands out the next value of the row, or `None` after the last.
    pub fn next(&mut self) -> (r: Option<&'a DigitValue>)
        requires
            old(self).wf(),
        ensures
            final(self).wf(),
            final(self).source() == old(self).source(),
            final(self).row() == old(self).row(),
            match r {
                Some(value) => old(self).remaining().len() > 0 && *value == old(
                    self,
                ).remaining()[0] && final(self).remaining() == old(self).remaining().skip(1),
                None => old(self).remaining().len() == 0 && final(self).remaining() == old(
                    self,
                ).remaining(),
            },
    {
        if self.at_end() {
            return None;
        }
        let position: usize = self.get_current_position();
        self.current += 1;
        assert(self.remaining() =~= old(self).remaining().skip(1));
        Some(self.data.get_value(position))
    }
}

/// Walks the cells of one row of a grid, from left to right, and lets each
/// be written.
pub struct RowIteratorMut<'a> {
    /// The grid that is walked: when the walk is over, the grid stands as
    /// this reference left it.
    pub data: &'a mut Data,
    /// The row that is walked.
    pub row: usize,
    /// How many cells have been handed out, or the row's length where there
    /// is no such row.
    pub current: usize,
}

impl<'a> RowIteratorMut<'a> {
    /// The grid that is walked, as it stands.
    pub open spec fn source(&self) -> Data {
        *self.data
    }


    /// The row that is walked.
    pub open spec fn row(&self) -> nat {
        self.row as nat
    }

    /// How many cells have been handed out, or the row's length where there
    /// is no such row.
    pub open spec fn taken(&self) -> nat {
        self.current as nat
    }

    /// The walk stands within the group of cells that it walks, over a grid of the right size.
    pub open spec fn wf(&self) -> bool {
        &&& self.source().wf()
        &&& self.taken() <= self.source().dimensions().columns()
        &&& self.row() >= self.source().dimensions().rows() ==> self.taken()
            == self.source().dimensions().columns()
    }

    /// The indices of the cells still to come.
    pub open spec fn remaining(&self) -> Seq<usize> {
        if self.row() < self.source().dimensions().rows() {
            self.source().dimensions().row_indices(self.row()).skip(self.taken() as int)
        } else {
            Seq::empty()
        }
    }

    /// Linear index of the cell that comes next.
    fn get_current_position(&self) -> (r: usize)
        requires
            self.wf(),
            self.taken() < self.source().dimensions().columns(),
        ensures
            r == self.source().dimensions().row_indices(self.row())[self.taken() as int],
            r < self.source()@.len(),
    {
        proof {
            self.data.dimensions().lemma_row_indices_in_range(self.row(), self.taken());
        }
        self.row * *self.data.get_column_count() + self.current
    }

    /// Whether every cell has been handed out.
    fn at_end(&self) -> (r: bool)
        ensures
            r == (self.taken() >= self.source().dimensions().columns()),
            !r ==> self.taken() < usize::MAX,
    {
        self.current >= *self.data.get_column_count()
    }

    /// A walk over `row` of `data`, which hands out nothing where there is no
    /// such row.
    pub fn new(data: &'a mut Data, row: usize) -> (r: Self)
        requires
            old(data).wf(),
        ensures
            r.wf(),
            r.source() == *old(data),
            r.row() == row,
            r.remaining() == old(data).dimensions().row_indices(row as nat),
            *final(r.data) == *final(data),
    {
        let init_current: usize;
        if row < *data.get_row_count() {
            init_current = 0;
        } else {
            init_current = *data.get_column_count();
        }
        let result = RowIteratorMut { data: data, row: row, current: init_current };
        assert(result.remaining() =~= old(data).dimensions().row_indices(row as nat));
        result
    }

    /// Hands out the next cell of the row for writing, or `None` after the
    /// last.
    pub fn next(&mut self) -> (r: Option<&mut DigitValue>)
        requires
            old(self).wf(),
        ensures
            final(self).wf(),
            final(self).row() == old(self).row(),
            *final(final(self).data) == *final(old(self).data),
            final(self).source().dimensions() == old(self).source().dimensions(),
            match r {
                Some(slot) => old(self).remaining().len() > 0 && *slot == old(self).source()@[old(
                    self,
                ).remaining()[0] as int] && final(self).source()@ == old(self).source()@.update(
                    old(self).remaining()[0] as int,
                    *final(slot),
                ) && final(self).remaining() == old(self).remaining().skip(1),
                None => old(self).remaining().len() == 0 && final(self).source() == old(
                    self,
                ).source() && final(self).remaining() == old(self).remaining(),
            },
    {
        if self.at_end() {
            return None;
        }
        let position: usize = self.get_current_position();
        self.current += 1;
        assert(self.remaining() =~= old(self).remaining().skip(1));
        Some(self.data.get_value_mut(position))
    }

    /// Writes `value` to the next cell of the row and moves on; `false` after
    /// the last cell, where nothing is written.
    pub fn write_next(&mut self, value: DigitValue) -> (r: bool)
        requires
            old(self).wf(),
        ensures
            final(self).wf(),
            final(self).row() == old(self).row(),
            *final(final(self).data) == *final(old(self).data),
            final(self).source().dimensions() == old(self).source().dimensions(),
            r == (old(self).remaining().len() > 0),
            r ==> final(self).source()@ == old(self).source()@.update(
                old(self).remaining()[0] as int,
                value,
            ) && final(self).remaining() == old(self).remaining().skip(1),
            !r ==> final(self).source() == old(self).source() && final(self).remaining() == old(
                self,
            ).remaining(),
    {
        if self.at_end() {
            return false;
        }
        let position: usize = self.get_current_position();
        let slot = self.data.get_value_mut(position);
        *slot = value;
        self.current += 1;
        assert(self.remaining() =~= old(self).remaining().skip(1));
        true
    }
}

} // verus!
