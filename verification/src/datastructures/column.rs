use super::data::Data;
use super::digit::DigitValue;
use vstd::prelude::*;

verus! {

/// Walks the values of one column of a grid, from top to bottom.
pub struct ColumnIterator<'a> {
    data: &'a Data,
    column: usize,
    current: usize,
}

impl<'a> ColumnIterator<'a> {
    /// The grid that is walked.
    pub closed spec fn source(&self) -> Data {
        *self.data
    }

    /// The column that is walked.
    pub closed spec fn column(&self) -> nat {
        self.column as nat
    }

    /// How many values have been handed out, or the column's length where
    /// there is no such column.
    pub closed spec fn taken(&self) -> nat {
        self.current as nat
    }

    /// The walk stands within the group of cells that it walks, over a grid of the right size.
    pub open spec fn wf(&self) -> bool {
        &&& self.source().wf()
        &&& self.taken() <= self.source().dimensions().rows()
        &&& self.column() >= self.source().dimensions().columns() ==> self.taken()
            == self.source().dimensions().rows()
    }

    /// The values still to come.
    pub open spec fn remaining(&self) -> Seq<DigitValue> {
        if self.column() < self.source().dimensions().columns() {
            self.source().column_values(self.column()).skip(self.taken() as int)
        } else {
            Seq::empty()
        }
    }

    /// Linear index of the cell that comes next.
    fn get_current_position(&self) -> (r: usize)
        requires
            self.wf(),
            self.taken() < self.source().dimensions().rows(),
        ensures
            r == self.source().dimensions().column_indices(self.column())[self.taken() as int],
            r < self.source()@.len(),
    {
        proof {
            self.data.dimensions().lemma_column_indices_in_range(self.column(), self.taken());
        }
        self.current * *self.data.get_column_count() + self.column
    }

    /// Whether every cell has been handed out.
    fn at_end(&self) -> (r: bool)
        ensures
            r == (self.taken() >= self.source().dimensions().rows()),
            !r ==> self.taken() < usize::MAX,
    {
        self.current >= *self.data.get_row_count()
    }

    /// A walk over `column` of `data`, which hands out nothing where there is
    /// no such column.
    pub fn new(data: &'a Data, column: usize) -> (r: Self)
        requires
            data.wf(),
        ensures
            r.wf(),
            r.source() == *data,
            r.column() == column,
            r.remaining() == data.column_values(column as nat),
    {
        let init_current: usize;
        if column < *data.get_column_count() {
            init_current = 0;
        } else {
            init_current = *data.get_row_count();
        }
        let result = ColumnIterator { data: data, column: column, current: init_current };
        assert(result.remaining() =~= data.column_values(column as nat));
        result
    }

    /// Hands out the next value of the column, or `None` after the last.
    pub fn next(&mut self) -> (r: Option<&'a DigitValue>)
        requires
            old(self).wf(),
        ensures
            final(self).wf(),
            final(self).source() == old(self).source(),
            final(self).column() == old(self).column(),
            match r {
                Some(value) => old(self).remaining().len() > 0 && *value == old(
                    self,
                ).remaining()[0] && final(self).remaining() == old(self).remaining().skip(1),
                None => old(self).remaining().len() == 0 && final(self).remaining() == old(
                    self,
                ).remaining(),
            },
    {
        if self.at_end() {
            return None;
        }
        let position: usize = self.get_current_position();
        self.current += 1;
        assert(self.remaining() =~= old(self).remaining().skip(1));
        Some(self.data.get_value(position))
    }
}

} // verus!
