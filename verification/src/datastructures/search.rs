use super::completion::{completes, lemma_solution_complete, lemma_solution_sound};
use super::digit::{Digit, DigitHashSet, DigitValue, ALPHABET_SIZE};
use super::griddimensions::GridDimensions;
use super::rules::{candidates, consistent};
use super::sudoku::Sudoku;
use vstd::prelude::*;

verus! {

/// Number of unset cells among the first `n`.
pub open spec fn unset_below(cells: Seq<DigitValue>, n: nat) -> nat
    decreases n,
{
    if n == 0 || n > cells.len() {
        0
    } else if cells[n - 1] is None {
        unset_below(cells, (n - 1) as nat) + 1
    } else {
        unset_below(cells, (n - 1) as nat)
    }
}

/// Number of unset cells.
pub open spec fn unset_count(cells: Seq<DigitValue>) -> nat {
    unset_below(cells, cells.len())
}

/// Every cell holds a digit.
pub open spec fn full(cells: Seq<DigitValue>) -> bool {
    forall|i: int| 0 <= i < cells.len() ==> (#[trigger] cells[i]) is Some
}

/// The cell to fill next, among the first `n`: the unset cell with the fewest
/// candidates, and of several such the one with the lowest index; `None`
/// where all of them are set.
pub open spec fn choice_below(dimensions: GridDimensions, cells: Seq<DigitValue>, n: nat) -> Option<
    nat,
>
    decreases n,
{
    if n == 0 || n > cells.len() {
        None
    } else {
        let earlier = choice_below(dimensions, cells, (n - 1) as nat);
        let last = (n - 1) as nat;
        if cells[last as int] is Some {
            earlier
        } else {
            match earlier {
                None => Some(last),
                Some(best) => if candidates(dimensions, cells, last).len() < candidates(
                    dimensions,
                    cells,
                    best,
                ).len() {
                    Some(last)
                } else {
                    Some(best)
                },
            }
        }
    }
}

/// The cell to fill next: the unset cell with the fewest candidates, and of
/// several such the one with the lowest index; `None` where the grid is full.
pub open spec fn choice(dimensions: GridDimensions, cells: Seq<DigitValue>) -> Option<nat> {
    choice_below(dimensions, cells, cells.len())
}

/// Writing a digit to an unset cell leaves one unset cell fewer.
pub proof fn lemma_unset_below_update(cells: Seq<DigitValue>, index: int, digit: Digit, n: nat)
    requires
        0 <= index < cells.len(),
        cells[index] is None,
        n <= cells.len(),
    ensures
        unset_below(cells.update(index, Some(digit)), n) == if index < n {
            unset_below(cells, n) - 1
        } else {
            unset_below(cells, n) as int
        },
        index < n ==> unset_below(cells, n) > 0,
    decreases n,
{
    if n > 0 {
        lemma_unset_below_update(cells, index, digit, (n - 1) as nat);
    }
}

/// The grid that the search reaches from `cells`, if it reaches one: the
/// search fills the cell of its choice with each of that cell's candidates
/// in turn, in the order of the alphabet, and goes on from there; the first
/// full grid that it meets is its result.
pub open spec fn search(dimensions: GridDimensions, cells: Seq<DigitValue>) -> Option<
    Seq<DigitValue>,
>
    decreases unset_count(cells), ALPHABET_SIZE + 1,
{
    match choice(dimensions, cells) {
        None => Some(cells),
        Some(index) => search_from(dimensions, cells, index, 0),
    }
}

/// The grid that the search reaches from `cells` by filling the cell at
/// `index` with one of its candidates from position `k` of the alphabet on.
pub open spec fn search_from(
    dimensions: GridDimensions,
    cells: Seq<DigitValue>,
    index: nat,
    k: nat,
) -> Option<Seq<DigitValue>>
    decreases unset_count(cells), ALPHABET_SIZE - k,
{
    if k >= ALPHABET_SIZE || index >= cells.len() || cells[index as int] is Some {
        None
    } else if candidates(dimensions, cells, index).contains(Digit::at(k as int)) {
        proof {
            lemma_unset_below_update(cells, index as int, Digit::at(k as int), cells.len());
        }
        match search(dimensions, cells.update(index as int, Some(Digit::at(k as int)))) {
            Some(found) => Some(found),
            None => search_from(dimensions, cells, index, k + 1),
        }
    } else {
        search_from(dimensions, cells, index, k + 1)
    }
}

/// Number of attempts that the search makes from `cells`: one for each digit
/// that it writes to a cell.
pub open spec fn search_cost(dimensions: GridDimensions, cells: Seq<DigitValue>) -> nat
    decreases unset_count(cells), ALPHABET_SIZE + 1,
{
    match choice(dimensions, cells) {
        None => 0,
        Some(index) => search_cost_from(dimensions, cells, index, 0),
    }
}

/// Number of attempts that the search makes from `cells` by filling the cell
/// at `index` with its candidates from position `k` of the alphabet on.
pub open spec fn search_cost_from(
    dimensions: GridDimensions,
    cells: Seq<DigitValue>,
    index: nat,
    k: nat,
) -> nat
    decreases unset_count(cells), ALPHABET_SIZE - k,
{
    if k >= ALPHABET_SIZE || index >= cells.len() || cells[index as int] is Some {
        0
    } else if candidates(dimensions, cells, index).contains(Digit::at(k as int)) {
        proof {
            lemma_unset_below_update(cells, index as int, Digit::at(k as int), cells.len());
        }
        let placed = cells.update(index as int, Some(Digit::at(k as int)));
        if search(dimensions, placed) is Some {
            1 + search_cost(dimensions, placed)
        } else {
            1 + search_cost(dimensions, placed) + search_cost_from(dimensions, cells, index, k + 1)
        }
    } else {
        search_cost_from(dimensions, cells, index, k + 1)
    }
}

/// Number of attempts that solving makes from `cells`.
pub open spec fn solution_cost(dimensions: GridDimensions, cells: Seq<DigitValue>) -> nat {
    if consistent(dimensions, cells) {
        search_cost(dimensions, cells)
    } else {
        0
    }
}

/// How a search stands.
#[derive(Debug, Clone, Copy, PartialEq, Eq, Structural)]
pub enum SolveState {
    /// The search was given up before it came to an end.
    Searching,
    /// The grid is complete.
    Solved,
    /// The grid cannot be completed.
    Unsolvable,
}

/// The grid that solving reaches from `cells`: none where a row, a column or
/// a section holds a digit twice, and otherwise what the search reaches.
pub open spec fn solution(dimensions: GridDimensions, cells: Seq<DigitValue>) -> Option<
    Seq<DigitValue>,
> {
    if consistent(dimensions, cells) {
        search(dimensions, cells)
    } else {
        None
    }
}

/// The choice among the first `n` cells is an unset cell among them, and
/// there is none only where all of them are set.
pub proof fn lemma_choice_below(dimensions: GridDimensions, cells: Seq<DigitValue>, n: nat)
    requires
        n <= cells.len(),
    ensures
        match choice_below(dimensions, cells, n) {
            Some(index) => index < n && cells[index as int] is None,
            None => forall|i: int| 0 <= i < n ==> (#[trigger] cells[i]) is Some,
        },
    decreases n,
{
    if n > 0 {
        lemma_choice_below(dimensions, cells, (n - 1) as nat);
    }
}

/// Solving reaches a grid exactly where the grid that it starts from can be
/// completed, and the grid that it reaches is a completion.
pub proof fn lemma_solution_decides(dimensions: GridDimensions, cells: Seq<DigitValue>)
    requires
        dimensions.wf(),
        dimensions.valid(),
        cells.len() == dimensions.cell_count(),
    ensures
        solution(dimensions, cells) is Some <==> exists|completed: Seq<DigitValue>| #[trigger]
            completes(dimensions, cells, completed),
        solution(dimensions, cells) is Some ==> completes(
            dimensions,
            cells,
            solution(dimensions, cells).unwrap(),
        ),
{
    if solution(dimensions, cells) is Some {
        lemma_solution_sound(dimensions, cells);
    } else {
        assert forall|completed: Seq<DigitValue>| !#[trigger] completes(
            dimensions,
            cells,
            completed,
        ) by {
            if completes(dimensions, cells, completed) {
                lemma_solution_complete(dimensions, cells, completed);
            }
        }
    }
}

impl Sudoku {
    /// The candidates for the cell at `index`.
    pub fn candidates_for_index(&self, index: usize) -> (r: DigitHashSet)
        requires
            self.wf(),
            index < self@.len(),
        ensures
            r@ == candidates(self.dimensions(), self@, index as nat),
    {
        match self.get_cell(index) {
            Some(cell) => {
                match self.available_digits_for_cell(cell) {
                    Some(digits) => digits,
                    None => DigitHashSet::new(),
                }
            },
            None => DigitHashSet::new(),
        }
    }

    /// The cell to fill next: the unset cell with the fewest candidates, and
    /// of several such the one with the lowest index; `None` where the grid
    /// is full.
    pub fn choose_cell(&self) -> (r: Option<usize>)
        requires
            self.wf(),
        ensures
            match r {
                Some(index) => choice(self.dimensions(), self@) == Some(index as nat),
                None => choice(self.dimensions(), self@) is None,
            },
    {
        let count: usize = self.get_dimensions().get_data_size();
        let mut best: Option<usize> = None;
        let mut fewest: usize = 0;
        let mut n: usize = 0;
        while n < count
            invariant
                self.wf(),
                count == self@.len(),
                n <= count,
                match best {
                    Some(index) => choice_below(self.dimensions(), self@, n as nat) == Some(
                        index as nat,
                    ) && index < n && fewest == candidates(
                        self.dimensions(),
                        self@,
                        index as nat,
                    ).len(),
                    None => choice_below(self.dimensions(), self@, n as nat) is None,
                },
            decreases count - n,
        {
            if self.get_digit_for_cell(n).is_none() {
                let options: usize = self.candidates_for_index(n).len();
                match best {
                    Some(_) => {
                        if options < fewest {
                            best = Some(n);
                            fewest = options;
                        }
                    },
                    None => {
                        best = Some(n);
                        fewest = options;
                    },
                }
            }
            n += 1;
        }
        best
    }

    /// Fills the unset cells by search. On success the grid is the one that
    /// the search reaches; otherwise it is left as it was.
    fn search(&mut self) -> (r: bool)
        requires
            old(self).wf(),
        ensures
            final(self).wf(),
            final(self).dimensions() == old(self).dimensions(),
            match search(old(self).dimensions(), old(self)@) {
                Some(found) => r && final(self)@ == found,
                None => !r && final(self)@ == old(self)@,
            },
        decreases unset_count(old(self)@),
    {
        match self.choose_cell() {
            None => true,
            Some(index) => {
                proof {
                    lemma_choice_below(self.dimensions(), self@, self@.len());
                }
                let options = self.candidates_for_index(index);
                let mut k: usize = 0;
                while k < ALPHABET_SIZE
                    invariant
                        self.wf(),
                        self.dimensions() == old(self).dimensions(),
                        self@ == old(self)@,
                        k <= ALPHABET_SIZE,
                        index < self@.len(),
                        self@[index as int] is None,
                        options@ == candidates(self.dimensions(), self@, index as nat),
                        search(self.dimensions(), self@) == search_from(
                            self.dimensions(),
                            self@,
                            index as nat,
                            k as nat,
                        ),
                    decreases ALPHABET_SIZE - k,
                {
                    let digit = Digit::from_ordinal(k);
                    if options.contains(&digit) {
                        proof {
                            lemma_unset_below_update(self@, index as int, digit, self@.len());
                        }
                        self.set_digit_for_cell(index, Some(digit));
                        if self.search() {
                            return true;
                        }
                        self.set_digit_for_cell(index, None);
                        assert(self@ =~= old(self)@);
                    }
                    k += 1;
                }
                false
            },
        }
    }

    /// Fills the unset cells by search, making no more attempts than
    /// `attempts` allows, and takes from `attempts` those that it makes. Where
    /// they run out the search is given up and the grid is left as it was.
    fn search_within(&mut self, attempts: &mut usize) -> (r: SolveState)
        requires
            old(self).wf(),
        ensures
            final(self).wf(),
            final(self).dimensions() == old(self).dimensions(),
            ({
                let cost = search_cost(old(self).dimensions(), old(self)@);
                let found = search(old(self).dimensions(), old(self)@);
                if cost <= *old(attempts) {
                    &&& *final(attempts) == *old(attempts) - cost
                    &&& found is Some ==> r is Solved && final(self)@ == found.unwrap()
                    &&& found is None ==> r is Unsolvable && final(self)@ == old(self)@
                } else {
                    &&& r is Searching
                    &&& final(self)@ == old(self)@
                    &&& *final(attempts) == 0
                }
            }),
        decreases unset_count(old(self)@),
    {
        match self.choose_cell() {
            None => SolveState::Solved,
            Some(index) => {
                proof {
                    lemma_choice_below(self.dimensions(), self@, self@.len());
                }
                let options = self.candidates_for_index(index);
                let mut k: usize = 0;
                while k < ALPHABET_SIZE
                    invariant
                        self.wf(),
                        self.dimensions() == old(self).dimensions(),
                        self@ == old(self)@,
                        k <= ALPHABET_SIZE,
                        index < self@.len(),
                        self@[index as int] is None,
                        options@ == candidates(self.dimensions(), self@, index as nat),
                        search(self.dimensions(), self@) == search_from(
                            self.dimensions(),
                            self@,
                            index as nat,
                            k as nat,
                        ),
                        *attempts <= *old(attempts),
                        search_cost(self.dimensions(), self@) == (*old(attempts) - *attempts)
                            + search_cost_from(self.dimensions(), self@, index as nat, k as nat),
                    decreases ALPHABET_SIZE - k,
                {
                    let digit = Digit::from_ordinal(k);
                    if options.contains(&digit) {
                        if *attempts == 0 {
                            return SolveState::Searching;
                        }
                        *attempts = *attempts - 1;
                        proof {
                            lemma_unset_below_update(self@, index as int, digit, self@.len());
                        }
                        self.set_digit_for_cell(index, Some(digit));
                        match self.search_within(attempts) {
                            SolveState::Solved => {
                                return SolveState::Solved;
                            },
                            SolveState::Searching => {
                                self.set_digit_for_cell(index, None);
                                assert(self@ =~= old(self)@);
                                return SolveState::Searching;
                            },
                            SolveState::Unsolvable => {
                                self.set_digit_for_cell(index, None);
                                assert(self@ =~= old(self)@);
                            },
                        }
                    }
                    k += 1;
                }
                SolveState::Unsolvable
            },
        }
    }

    /// Completes the grid where it can be completed and `attempts` allows as
    /// many attempts as that takes, one attempt being one digit written to a
    /// cell; the attempts made are taken from `attempts`. Where they run out
    /// the search is given up, and the grid is left as it was.
    pub fn solve_within(&mut self, attempts: &mut usize) -> (r: SolveState)
        requires
            old(self).wf(),
            old(self).dimensions().valid(),
        ensures
            final(self).wf(),
            final(self).dimensions() == old(self).dimensions(),
            ({
                let cost = solution_cost(old(self).dimensions(), old(self)@);
                let found = solution(old(self).dimensions(), old(self)@);
                if cost <= *old(attempts) {
                    &&& *final(attempts) == *old(attempts) - cost
                    &&& found is Some ==> r is Solved && final(self)@ == found.unwrap()
                    &&& found is None ==> r is Unsolvable && final(self)@ == old(self)@
                } else {
                    &&& r is Searching
                    &&& final(self)@ == old(self)@
                    &&& *final(attempts) == 0
                }
            }),
            r is Solved ==> completes(old(self).dimensions(), old(self)@, final(self)@),
            r is Unsolvable ==> !exists|completed: Seq<DigitValue>| #[trigger]
                completes(old(self).dimensions(), old(self)@, completed),
    {
        proof {
            lemma_solution_decides(self.dimensions(), self@);
        }
        if !self.is_consistent() {
            return SolveState::Unsolvable;
        }
        self.search_within(attempts)
    }

    /// Completes the grid where it can be completed, and only there. On
    /// success every cell holds a digit and no row, column or section holds
    /// one twice; the cells that were set keep their digits, and the others
    /// hold digits of the alphabet. Otherwise the grid is left as it was.
    pub fn solve(&mut self) -> (r: bool)
        requires
            old(self).wf(),
            old(self).dimensions().valid(),
        ensures
            final(self).wf(),
            final(self).dimensions() == old(self).dimensions(),
            match solution(old(self).dimensions(), old(self)@) {
                Some(found) => r && final(self)@ == found,
                None => !r && final(self)@ == old(self)@,
            },
            r <==> exists|completed: Seq<DigitValue>| #[trigger]
                completes(old(self).dimensions(), old(self)@, completed),
            r ==> completes(old(self).dimensions(), old(self)@, final(self)@),
    {
        proof {
            lemma_solution_decides(self.dimensions(), self@);
        }
        if !self.is_consistent() {
            return false;
        }
        self.search()
    }
}

} // verus!
