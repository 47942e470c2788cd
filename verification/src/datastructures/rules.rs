use super::data::select;
use super::digit::{alphabet, Digit, DigitValue};
use super::griddimensions::GridDimensions;
use vstd::prelude::*;

verus! {

/// Some digit occurs twice among the values.
pub open spec fn has_duplicate(values: Seq<DigitValue>) -> bool {
    exists|i: int, j: int|
        0 <= i < j < values.len() && values[i] is Some && #[trigger] values[i] == #[trigger] values[j]
}

/// The digits that occur among the values.
pub open spec fn used(values: Seq<DigitValue>) -> Set<Digit> {
    Set::new(|d: Digit| values.contains(Some(d)))
}

/// The digits of an alphabet of the given size that do not occur among the
/// values.
pub open spec fn unused(values: Seq<DigitValue>, size: nat) -> Set<Digit> {
    alphabet(size).difference(used(values))
}

/// The values of a row of the grid `cells`, from left to right.
pub open spec fn row_values(dimensions: GridDimensions, cells: Seq<DigitValue>, row: nat) -> Seq<
    DigitValue,
> {
    select(cells, dimensions.row_indices(row))
}

/// The values of a column of the grid `cells`, from top to bottom.
pub open spec fn column_values(
    dimensions: GridDimensions,
    cells: Seq<DigitValue>,
    column: nat,
) -> Seq<DigitValue> {
    select(cells, dimensions.column_indices(column))
}

/// The values of a section of the grid `cells`, row by row.
pub open spec fn section_values(
    dimensions: GridDimensions,
    cells: Seq<DigitValue>,
    section: nat,
) -> Seq<DigitValue> {
    select(cells, dimensions.section_indices(section))
}

/// The digits that may still be placed where three groups of values meet:
/// none where a group holds a digit twice, and otherwise the digits of the
/// alphabet that none of the groups holds.
pub open spec fn free_digits(
    first: Seq<DigitValue>,
    second: Seq<DigitValue>,
    third: Seq<DigitValue>,
    size: nat,
) -> Option<Set<Digit>> {
    if has_duplicate(first) || has_duplicate(second) || has_duplicate(third) {
        None
    } else {
        Some(unused(first, size).intersect(unused(second, size)).intersect(unused(third, size)))
    }
}

/// The digits that may still be placed in the cell at `index`: what its row,
/// its column and its section leave free.
pub open spec fn available(dimensions: GridDimensions, cells: Seq<DigitValue>, index: nat) -> Option<
    Set<Digit>,
> {
    let row = index / dimensions.columns();
    let column = index % dimensions.columns();
    free_digits(
        row_values(dimensions, cells, row),
        column_values(dimensions, cells, column),
        section_values(dimensions, cells, dimensions.section_of(row, column)),
        dimensions.section_size(),
    )
}

/// The candidates for the cell at `index`: the digits that may still be
/// placed there, and none where its row, column or section holds a digit
/// twice.
pub open spec fn candidates(dimensions: GridDimensions, cells: Seq<DigitValue>, index: nat) -> Set<
    Digit,
> {
    match available(dimensions, cells, index) {
        Some(digits) => digits,
        None => Set::empty(),
    }
}

/// No row, no column and no section of the grid holds a digit twice.
pub open spec fn consistent(dimensions: GridDimensions, cells: Seq<DigitValue>) -> bool {
    &&& forall|row: nat|
        row < dimensions.rows() ==> !has_duplicate(#[trigger] row_values(dimensions, cells, row))
    &&& forall|column: nat|
        column < dimensions.columns() ==> !has_duplicate(
            #[trigger] column_values(dimensions, cells, column),
        )
    &&& forall|section: nat|
        section < dimensions.section_count() ==> !has_duplicate(
            #[trigger] section_values(dimensions, cells, section),
        )
}

/// Adding a value to the end brings a duplicate exactly where the value is a
/// digit that occurs already.
pub proof fn lemma_duplicate_push(values: Seq<DigitValue>, value: DigitValue)
    ensures
        has_duplicate(values.push(value)) <==> has_duplicate(values) || (value is Some
            && values.contains(value)),
        used(values.push(value)) == match value {
            Some(d) => used(values).insert(d),
            None => used(values),
        },
{
    let longer = values.push(value);
    if has_duplicate(values) {
        let (i, j) = choose|i: int, j: int|
            0 <= i < j < values.len() && values[i] is Some && #[trigger] values[i]
                == #[trigger] values[j];
        assert(longer[i] is Some && longer[i] == longer[j]);
    }
    if value is Some && values.contains(value) {
        let i = choose|i: int| 0 <= i < values.len() && values[i] == value;
        assert(longer[i] is Some && longer[i] == longer[values.len() as int]);
    }
    if has_duplicate(longer) {
        let (i, j) = choose|i: int, j: int|
            0 <= i < j < longer.len() && longer[i] is Some && #[trigger] longer[i]
                == #[trigger] longer[j];
        if j < values.len() {
            assert(values[i] is Some && values[i] == values[j]);
        } else {
            assert(values[i] == value);
        }
    }
    assert forall|d: Digit| used(longer).contains(d) <==> (used(values).contains(d) || value
        == Some(d)) by {
        if used(values).contains(d) {
            let i = choose|i: int| 0 <= i < values.len() && values[i] == Some(d);
            assert(longer[i] == Some(d));
        }
        if value == Some(d) {
            assert(longer[values.len() as int] == Some(d));
        }
    }
    match value {
        Some(d) => {
            assert(used(longer) =~= used(values).insert(d));
        },
        None => {
            assert(used(longer) =~= used(values));
        },
    }
}

/// Among no values no digit occurs, and none twice.
pub proof fn lemma_no_values()
    ensures
        !has_duplicate(Seq::<DigitValue>::empty()),
        used(Seq::<DigitValue>::empty()) == Set::<Digit>::empty(),
{
    assert(used(Seq::<DigitValue>::empty()) =~= Set::<Digit>::empty());
}

/// No index occurs twice in the sequence.
pub open spec fn distinct(indices: Seq<usize>) -> bool {
    forall|a: int, b: int|
        0 <= a < indices.len() && 0 <= b < indices.len() && a != b ==> #[trigger] indices[a]
            != #[trigger] indices[b]
}

/// Every index of the sequence is below `bound`.
pub open spec fn bounded(indices: Seq<usize>, bound: nat) -> bool {
    forall|a: int| 0 <= a < indices.len() ==> #[trigger] indices[a] < bound
}

/// The grid `later` agrees with `earlier` wherever `earlier` holds a digit.
pub open spec fn extends(earlier: Seq<DigitValue>, later: Seq<DigitValue>) -> bool {
    &&& later.len() == earlier.len()
    &&& forall|i: int| 0 <= i < earlier.len() && earlier[i] is Some ==> #[trigger] later[i] == earlier[i]
}

/// Among unset values no digit occurs, and none twice; every digit of the
/// alphabet is unused.
pub proof fn lemma_unset_values(values: Seq<DigitValue>, size: nat)
    requires
        forall|k: int| 0 <= k < values.len() ==> (#[trigger] values[k]) is None,
    ensures
        !has_duplicate(values),
        used(values) == Set::<Digit>::empty(),
        unused(values, size) == alphabet(size),
{
    assert(used(values) =~= Set::<Digit>::empty());
    assert(unused(values, size) =~= alphabet(size));
}

/// Writing a digit to an unset cell brings no duplicate into a group of
/// cells that held none, unless the cell is of the group and the group held
/// the digit already.
pub proof fn lemma_group_after_placing(
    cells: Seq<DigitValue>,
    indices: Seq<usize>,
    index: int,
    digit: Digit,
)
    requires
        0 <= index < cells.len(),
        cells[index] is None,
        bounded(indices, cells.len()),
        distinct(indices),
        !has_duplicate(select(cells, indices)),
        indices.contains(index as usize) ==> !used(select(cells, indices)).contains(digit),
    ensures
        !has_duplicate(select(cells.update(index, Some(digit)), indices)),
{
    let before = select(cells, indices);
    let after = select(cells.update(index, Some(digit)), indices);
    if has_duplicate(after) {
        let (a, b) = choose|a: int, b: int|
            0 <= a < b < after.len() && after[a] is Some && #[trigger] after[a]
                == #[trigger] after[b];
        assert(indices[a] != indices[b]);
        if indices[a] == index {
            assert(before[b] == Some(digit));
        } else if indices[b] == index {
            assert(before[a] == Some(digit));
        } else {
            assert(before[a] is Some && before[a] == before[b]);
        }
    }
}

/// A group of cells that holds no digit twice in a later grid held none
/// twice before, and did not hold the digit that the later grid has where
/// the earlier one had an unset cell of the group.
pub proof fn lemma_group_before_placing(
    earlier: Seq<DigitValue>,
    later: Seq<DigitValue>,
    indices: Seq<usize>,
    place: int,
)
    requires
        extends(earlier, later),
        bounded(indices, earlier.len()),
        !has_duplicate(select(later, indices)),
        0 <= place < indices.len(),
        earlier[indices[place] as int] is None,
        later[indices[place] as int] is Some,
    ensures
        !has_duplicate(select(earlier, indices)),
        !used(select(earlier, indices)).contains(later[indices[place] as int].unwrap()),
{
    let before = select(earlier, indices);
    let after = select(later, indices);
    if has_duplicate(before) {
        let (a, b) = choose|a: int, b: int|
            0 <= a < b < before.len() && before[a] is Some && #[trigger] before[a]
                == #[trigger] before[b];
        assert(after[a] is Some && after[a] == after[b]);
    }
    let digit = later[indices[place] as int].unwrap();
    if used(before).contains(digit) {
        let q = choose|q: int| 0 <= q < before.len() && before[q] == Some(digit);
        assert(q != place);
        assert(after[q] == Some(digit));
        assert(after[place] == Some(digit));
        if q < place {
            assert(after[q] is Some && after[q] == after[place]);
        } else {
            assert(after[place] is Some && after[place] == after[q]);
        }
    }
}

} // verus!
