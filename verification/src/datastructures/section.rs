use super::data::Data;
use super::digit::DigitValue;
use vstd::prelude::*;

verus! {

/// One section of a grid.
pub struct Section<'a> {
    data: &'a Data,
    section: usize,
}

impl<'a> Section<'a> {
    /// The grid that the section belongs to.
    pub closed spec fn source(&self) -> Data {
        *self.data
    }

    /// The section's number.
    pub closed spec fn number(&self) -> nat {
        self.section as nat
    }

    /// The values of the section, row by row; empty where the grid has no
    /// such section.
    pub open spec fn values(&self) -> Seq<DigitValue> {
        self.source().section_values(self.number())
    }

    /// Number of cells in one section.
    fn get_section_size(&self) -> (r: usize)
        requires
            self.source().wf(),
        ensures
            r == self.source().dimensions().section_size(),
    {
        self.data.get_dimensions().get_section_size()
    }

    /// The section of `data` with the given number.
    pub fn new(data: &'a Data, section: usize) -> (r: Self)
        ensures
            r.source() == *data,
            r.number() == section,
    {
        Section { data: data, section: section }
    }

    /// Number of sections of the grid.
    fn get_section_count(&self) -> (r: usize)
        requires
            self.source().wf(),
        ensures
            r == self.source().dimensions().section_count(),
    {
        self.data.get_dimensions().get_section_count()
    }

    /// The first row of the section.
    fn get_section_top(&self) -> (r: usize)
        requires
            self.source().wf(),
            self.number() < self.source().dimensions().section_count(),
        ensures
            r == (self.number() / self.source().dimensions().block_columns())
                * self.source().dimensions().block_height(),
    {
        let dimensions = self.data.get_dimensions();
        proof {
            dimensions.lemma_section_origin(self.number());
            dimensions.lemma_extents_fit();
        }
        (self.section / dimensions.get_sections_in_column()) * *dimensions.get_section_height()
    }

    /// The first column of the section.
    fn get_section_left(&self) -> (r: usize)
        requires
            self.source().wf(),
            self.number() < self.source().dimensions().section_count(),
        ensures
            r == (self.number() % self.source().dimensions().block_columns())
                * self.source().dimensions().block_width(),
    {
        let dimensions = self.data.get_dimensions();
        proof {
            dimensions.lemma_section_origin(self.number());
            dimensions.lemma_extents_fit();
        }
        (self.section % dimensions.get_sections_in_column()) * *dimensions.get_section_width()
    }
}

/// Walks the values of one section of a grid, row by row.
pub struct SectionIterator<'a> {
    section: Section<'a>,
    current: usize,
}

impl<'a> SectionIterator<'a> {
    /// The grid that is walked.
    pub closed spec fn source(&self) -> Data {
        self.section.source()
    }

    /// The number of the section that is walked.
    pub closed spec fn number(&self) -> nat {
        self.section.number()
    }

    /// How many values have been handed out, or the size of a section where
    /// there is no such section.
    pub closed spec fn taken(&self) -> nat {
        self.current as nat
    }

    /// The walk stands within the group of cells that it walks, over a grid of the right size.
    pub open spec fn wf(&self) -> bool {
        &&& self.source().wf()
        &&& self.taken() <= self.source().dimensions().section_size()
        &&& self.number() >= self.source().dimensions().section_count() ==> self.taken()
            == self.source().dimensions().section_size()
    }

    /// The values still to come.
    pub open spec fn remaining(&self) -> Seq<DigitValue> {
        if self.number() < self.source().dimensions().section_count() {
            self.source().section_values(self.number()).skip(self.taken() as int)
        } else {
            Seq::empty()
        }
    }

    /// Linear index of the cell that comes next.
    fn get_current_position(&self) -> (r: usize)
        requires
            self.wf(),
            self.taken() < self.source().dimensions().section_size(),
        ensures
            r == self.source().dimensions().section_indices(self.number())[self.taken() as int],
            r < self.source()@.len(),
    {
        let dimensions = self.section.data.get_dimensions();
        proof {
            dimensions.lemma_section_indices_in_range(self.number(), self.taken());
            dimensions.lemma_section_cell_in_range(self.number(), self.taken());
            dimensions.lemma_section_origin(self.number());
            dimensions.lemma_extents_fit();
        }
        let width: usize = *dimensions.get_section_width();
        let row: usize = self.section.get_section_top() + self.current / width;
        let column: usize = self.section.get_section_left() + self.current % width;
        dimensions.get_index_for_position(column, row)
    }

    /// A walk over `section`, which hands out nothing where the grid has no
    /// such section.
    pub fn new(section: Section<'a>) -> (r: Self)
        requires
            section.source().wf(),
        ensures
            r.wf(),
            r.source() == section.source(),
            r.number() == section.number(),
            r.remaining() == section.values(),
    {
        let init_current: usize;
        if section.section < section.get_section_count() {
            init_current = 0;
        } else {
            init_current = section.get_section_size();
        }
        let result = SectionIterator { section: section, current: init_current };
        assert(result.remaining() =~= section.values());
        result
    }

    /// Hands out the next value of the section, or `None` after the last.
    pub fn next(&mut self) -> (r: Option<&'a DigitValue>)
        requires
            old(self).wf(),
        ensures
            final(self).wf(),
            final(self).source() == old(self).source(),
            final(self).number() == old(self).number(),
            match r {
                Some(value) => old(self).remaining().len() > 0 && *value == old(
                    self,
                ).remaining()[0] && final(self).remaining() == old(self).remaining().skip(1),
                None => old(self).remaining().len() == 0 && final(self).remaining() == old(
                    self,
                ).remaining(),
            },
    {
        if self.current >= self.section.get_section_size() {
            return None;
        }
        let position: usize = self.get_current_position();
        self.current += 1;
        assert(self.remaining() =~= old(self).remaining().skip(1));
        Some(self.section.data.get_value(position))
    }
}

} // verus!
