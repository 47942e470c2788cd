use vstd::prelude::*;

verus! {

/// One symbol of the nine-symbol alphabet.
#[derive(Debug, Clone, Copy, PartialEq, Eq, Hash, Structural)]
pub enum Digit {
    One,
    Two,
    Three,
    Four,
    Five,
    Six,
    Seven,
    Eight,
    Nine,
}

/// A cell's content: a digit, or `None` for an unset cell.
pub type DigitValue = Option<Digit>;

/// Number of digits.
pub const ALPHABET_SIZE: usize = 9;

impl Digit {
    /// Position of the digit in the alphabet, counted from zero.
    pub open spec fn ordinal(self) -> int {
        match self {
            Digit::One => 0,
            Digit::Two => 1,
            Digit::Three => 2,
            Digit::Four => 3,
            Digit::Five => 4,
            Digit::Six => 5,
            Digit::Seven => 6,
            Digit::Eight => 7,
            Digit::Nine => 8,
        }
    }

    /// The digit at a position of the alphabet.
    pub open spec fn at(k: int) -> Digit {
        if k <= 0 {
            Digit::One
        } else if k == 1 {
            Digit::Two
        } else if k == 2 {
            Digit::Three
        } else if k == 3 {
            Digit::Four
        } else if k == 4 {
            Digit::Five
        } else if k == 5 {
            Digit::Six
        } else if k == 6 {
            Digit::Seven
        } else if k == 7 {
            Digit::Eight
        } else {
            Digit::Nine
        }
    }

    /// The digit's position in the alphabet, counted from zero.
    pub fn to_ordinal(self) -> (r: usize)
        ensures
            r == self.ordinal(),
            r < ALPHABET_SIZE,
    {
        match self {
            Digit::One => 0,
            Digit::Two => 1,
            Digit::Three => 2,
            Digit::Four => 3,
            Digit::Five => 4,
            Digit::Six => 5,
            Digit::Seven => 6,
            Digit::Eight => 7,
            Digit::Nine => 8,
        }
    }

    /// The digit at position `k` of the alphabet.
    pub fn from_ordinal(k: usize) -> (r: Digit)
        requires
            k < ALPHABET_SIZE,
        ensures
            r == Digit::at(k as int),
            r.ordinal() == k,
    {
        if k == 0 {
            Digit::One
        } else if k == 1 {
            Digit::Two
        } else if k == 2 {
            Digit::Three
        } else if k == 3 {
            Digit::Four
        } else if k == 4 {
            Digit::Five
        } else if k == 5 {
            Digit::Six
        } else if k == 6 {
            Digit::Seven
        } else if k == 7 {
            Digit::Eight
        } else {
            Digit::Nine
        }
    }

    /// Positions and digits correspond one to one.
    pub proof fn lemma_ordinal_at(self)
        ensures
            0 <= self.ordinal() < ALPHABET_SIZE,
            Digit::at(self.ordinal()) == self,
    {
    }
}

/// The digits in order, each of them once.
pub open spec fn full_digits() -> Seq<DigitValue> {
    Seq::new(ALPHABET_SIZE as nat, |k: int| Some(Digit::at(k)))
}

/// An ordered collection of cell values.
pub struct DigitSet {
    data: Vec<DigitValue>,
}

impl View for DigitSet {
    type V = Seq<DigitValue>;

    closed spec fn view(&self) -> Seq<DigitValue> {
        self.data@
    }
}

impl DigitSet {
    /// An empty collection.
    pub fn new() -> (r: Self)
        ensures
            r@ == Seq::<DigitValue>::empty(),
    {
        DigitSet { data: Vec::new() }
    }

    /// The nine digits in the order of the alphabet.
    pub fn new_full() -> (r: Self)
        ensures
            r@ == full_digits(),
    {
        let mut data: Vec<DigitValue> = Vec::new();
        let mut k: usize = 0;
        while k < ALPHABET_SIZE
            invariant
                k <= ALPHABET_SIZE,
                data@.len() == k,
                forall|j: int| 0 <= j < k ==> data@[j] == Some(Digit::at(j)),
            decreases ALPHABET_SIZE - k,
        {
            data.push(Some(Digit::from_ordinal(k)));
            k += 1;
        }
        assert(data@ =~= full_digits());
        DigitSet { data }
    }

    /// The nine digits in the order of the alphabet, the first `times` of them
    /// moved to the end.
    pub fn new_full_and_rotate_left(times: usize) -> (r: Self)
        requires
            times <= ALPHABET_SIZE,
        ensures
            r@ == rotated_left(full_digits(), times as int),
    {
        let mut result = DigitSet::new_full();
        result.rotate_left(times);
        result
    }

    /// Whether the collection holds the digit.
    pub fn contains(&self, digit: Digit) -> (r: bool)
        ensures
            r == self@.contains(Some(digit)),
    {
        let mut k: usize = 0;
        while k < self.data.len()
            invariant
                k <= self.data@.len(),
                forall|j: int| 0 <= j < k ==> self.data@[j] != Some(digit),
            decreases self.data@.len() - k,
        {
            if is_digit(&self.data[k], digit) {
                return true;
            }
            k += 1;
        }
        false
    }

    /// Moves the last `times` values to the front, in their order.
    pub fn rotate_right(&mut self, times: usize)
        requires
            times <= old(self)@.len(),
        ensures
            final(self)@ == rotated_left(old(self)@, old(self)@.len() - times),
    {
        let split: usize = self.data.len() - times;
        self.rotate_left(split);
    }

    /// Moves the first `times` values to the end, in their order.
    pub fn rotate_left(&mut self, times: usize)
        requires
            times <= old(self)@.len(),
        ensures
            final(self)@ == rotated_left(old(self)@, times as int),
    {
        let len: usize = self.data.len();
        let mut turned: Vec<DigitValue> = Vec::new();
        let mut k: usize = times;
        while k < len
            invariant
                times <= k <= len,
                len == self.data@.len(),
                turned@ == self.data@.subrange(times as int, k as int),
            decreases len - k,
        {
            turned.push(self.data[k]);
            assert(turned@ =~= self.data@.subrange(times as int, k + 1));
            k += 1;
        }
        let mut j: usize = 0;
        while j < times
            invariant
                j <= times <= len,
                len == self.data@.len(),
                turned@ == self.data@.subrange(times as int, len as int) + self.data@.subrange(
                    0,
                    j as int,
                ),
            decreases times - j,
        {
            turned.push(self.data[j]);
            assert(turned@ =~= self.data@.subrange(times as int, len as int)
                + self.data@.subrange(0, j + 1));
            j += 1;
        }
        self.data = turned;
    }

    /// Walks the values in their order.
    pub fn iter<'a>(&'a self) -> (r: core::slice::Iter<'a, DigitValue>)
        ensures
            vstd::std_specs::slice::into_iter_elts(r) == self@,
    {
        self.data.iter()
    }

    /// The digits that the collection holds, as a set.
    pub fn new_hashset(&self) -> (r: DigitHashSet)
        ensures
            r@ == Set::new(|d: Digit| self@.contains(Some(d))),
    {
        let mut result = DigitHashSet::new();
        let mut k: usize = 0;
        while k < self.data.len()
            invariant
                k <= self.data@.len(),
                result@ == Set::new(|d: Digit| self.data@.subrange(0, k as int).contains(Some(d))),
            decreases self.data@.len() - k,
        {
            match self.data[k] {
                Some(d) => {
                    result.insert(d);
                },
                None => {},
            }
            proof {
                let prefix = self.data@.subrange(0, k as int);
                let longer = self.data@.subrange(0, k + 1);
                assert(longer =~= prefix.push(self.data@[k as int]));
                assert forall|d: Digit| result@.contains(d) <==> longer.contains(Some(d)) by {
                    if prefix.contains(Some(d)) {
                        let i = choose|i: int| 0 <= i < prefix.len() && prefix[i] == Some(d);
                        assert(longer[i] == Some(d));
                    }
                    if self.data@[k as int] == Some(d) {
                        assert(longer[k as int] == Some(d));
                    }
                }
                assert(result@ =~= Set::new(|d: Digit| longer.contains(Some(d))));
            }
            k += 1;
        }
        assert(self.data@.subrange(0, k as int) =~= self.data@);
        result
    }

    /// A copy of the values, in their order.
    pub fn get_data(&self) -> (r: Vec<DigitValue>)
        ensures
            r@ == self@,
    {
        let mut copy: Vec<DigitValue> = Vec::new();
        let mut k: usize = 0;
        while k < self.data.len()
            invariant
                k <= self.data@.len(),
                copy@ == self.data@.subrange(0, k as int),
            decreases self.data@.len() - k,
        {
            copy.push(self.data[k]);
            assert(copy@ =~= self.data@.subrange(0, k + 1));
            k += 1;
        }
        assert(self.data@.subrange(0, k as int) =~= self.data@);
        copy
    }
}

/// The digits whose position in the alphabet is below `size`.
pub open spec fn alphabet(size: nat) -> Set<Digit> {
    Set::new(|d: Digit| d.ordinal() < size)
}

/// The digits of `set` whose position is below `k`, in the order of the
/// alphabet.
pub open spec fn ascending_below(set: Set<Digit>, k: int) -> Seq<Digit>
    decreases k,
{
    if k <= 0 {
        Seq::empty()
    } else if set.contains(Digit::at(k - 1)) {
        ascending_below(set, k - 1).push(Digit::at(k - 1))
    } else {
        ascending_below(set, k - 1)
    }
}

/// The digits of `set` in the order of the alphabet.
pub open spec fn ascending(set: Set<Digit>) -> Seq<Digit> {
    ascending_below(set, ALPHABET_SIZE as int)
}

/// The digits of `set` whose position is below `k`.
pub open spec fn below(set: Set<Digit>, k: int) -> Set<Digit> {
    Set::new(|d: Digit| set.contains(d) && d.ordinal() < k)
}

/// A set of digits is finite, and lists in ascending order as many digits as
/// it holds.
pub proof fn lemma_digit_set_size(set: Set<Digit>, k: int)
    requires
        0 <= k <= ALPHABET_SIZE,
    ensures
        below(set, k).finite(),
        below(set, k).len() == ascending_below(set, k).len(),
        below(set, k).len() <= k,
        k == ALPHABET_SIZE ==> below(set, k) == set,
    decreases k,
{
    if k == 0 {
        assert(below(set, k) =~= Set::<Digit>::empty());
    } else {
        lemma_digit_set_size(set, k - 1);
        let d = Digit::at(k - 1);
        if set.contains(d) {
            assert(below(set, k) =~= below(set, k - 1).insert(d));
        } else {
            assert(below(set, k) =~= below(set, k - 1));
        }
    }
    if k == ALPHABET_SIZE {
        assert forall|d: Digit| set.contains(d) implies below(set, k).contains(d) by {
            d.lemma_ordinal_at();
        }
        assert(below(set, k) =~= set);
    }
}

/// A set of digits with constant-time membership: a digit's position in the
/// alphabet is its slot.
#[derive(Debug, PartialEq, Eq)]
pub struct DigitHashSet {
    present: Vec<bool>,
}

impl View for DigitHashSet {
    type V = Set<Digit>;

    closed spec fn view(&self) -> Set<Digit> {
        Set::new(|d: Digit| d.ordinal() < self.present@.len() && self.present@[d.ordinal()])
    }
}

impl Clone for DigitHashSet {
    fn clone(&self) -> (r: Self)
        ensures
            r@ == self@,
    {
        proof {
            use_type_invariant(self);
        }
        let mut present: Vec<bool> = Vec::new();
        let mut k: usize = 0;
        while k < ALPHABET_SIZE
            invariant
                k <= ALPHABET_SIZE,
                self.present@.len() == ALPHABET_SIZE,
                present@ == self.present@.subrange(0, k as int),
            decreases ALPHABET_SIZE - k,
        {
            present.push(self.present[k]);
            assert(present@ =~= self.present@.subrange(0, k + 1));
            k += 1;
        }
        assert(present@ =~= self.present@);
        DigitHashSet { present }
    }
}

impl DigitHashSet {
    /// There is one slot for each digit of the alphabet.
    #[verifier::type_invariant]
    spec fn slots(&self) -> bool {
        self.present@.len() == ALPHABET_SIZE
    }

    /// The empty set.
    pub fn new() -> (r: Self)
        ensures
            r@ == Set::<Digit>::empty(),
    {
        let mut present: Vec<bool> = Vec::new();
        let mut k: usize = 0;
        while k < ALPHABET_SIZE
            invariant
                k <= ALPHABET_SIZE,
                present@.len() == k,
                forall|j: int| 0 <= j < k ==> !present@[j],
            decreases ALPHABET_SIZE - k,
        {
            present.push(false);
            k += 1;
        }
        let result = DigitHashSet { present };
        assert(result@ =~= Set::<Digit>::empty());
        result
    }

    /// The first `size` digits of the alphabet, and all of them where `size`
    /// is the alphabet's size or more.
    pub fn first(size: usize) -> (r: Self)
        ensures
            r@ == alphabet(size as nat),
    {
        let mut present: Vec<bool> = Vec::new();
        let mut k: usize = 0;
        while k < ALPHABET_SIZE
            invariant
                k <= ALPHABET_SIZE,
                present@.len() == k,
                forall|j: int| 0 <= j < k ==> present@[j] == (j < size),
            decreases ALPHABET_SIZE - k,
        {
            present.push(k < size);
            k += 1;
        }
        let result = DigitHashSet { present };
        proof {
            assert forall|d: Digit| result@.contains(d) <==> alphabet(size as nat).contains(
                d,
            ) by {
                d.lemma_ordinal_at();
            }
            assert(result@ =~= alphabet(size as nat));
        }
        result
    }

    /// Whether the set holds the digit.
    pub fn contains(&self, digit: &Digit) -> (r: bool)
        ensures
            r == self@.contains(*digit),
    {
        proof {
            use_type_invariant(self);
        }
        self.present[digit.to_ordinal()]
    }

    /// Adds a digit, and says whether it was new to the set.
    pub fn insert(&mut self, digit: Digit) -> (r: bool)
        ensures
            final(self)@ == old(self)@.insert(digit),
            r == !old(self)@.contains(digit),
    {
        proof {
            use_type_invariant(&*self);
        }
        let k: usize = digit.to_ordinal();
        let was: bool = self.present[k];
        self.present = with_slot(&self.present, k, true);
        proof {
            assert forall|d: Digit| final(self)@.contains(d) <==> old(self)@.insert(
                digit,
            ).contains(d) by {
                d.lemma_ordinal_at();
                digit.lemma_ordinal_at();
            }
            assert(self@ =~= old(self)@.insert(digit));
        }
        !was
    }

    /// Takes a digit out, and says whether the set held it.
    pub fn remove(&mut self, digit: &Digit) -> (r: bool)
        ensures
            final(self)@ == old(self)@.remove(*digit),
            r == old(self)@.contains(*digit),
    {
        proof {
            use_type_invariant(&*self);
        }
        let k: usize = digit.to_ordinal();
        let was: bool = self.present[k];
        self.present = with_slot(&self.present, k, false);
        proof {
            assert forall|d: Digit| final(self)@.contains(d) <==> old(self)@.remove(
                *digit,
            ).contains(d) by {
                d.lemma_ordinal_at();
                digit.lemma_ordinal_at();
            }
            assert(self@ =~= old(self)@.remove(*digit));
        }
        was
    }

    /// The digits that both sets hold.
    pub fn intersection(&self, other: &DigitHashSet) -> (r: DigitHashSet)
        ensures
            r@ == self@.intersect(other@),
    {
        proof {
            use_type_invariant(self);
            use_type_invariant(other);
        }
        let mut present: Vec<bool> = Vec::new();
        let mut k: usize = 0;
        while k < ALPHABET_SIZE
            invariant
                k <= ALPHABET_SIZE,
                self.present@.len() == ALPHABET_SIZE,
                other.present@.len() == ALPHABET_SIZE,
                present@.len() == k,
                forall|j: int|
                    0 <= j < k ==> present@[j] == (self.present@[j] && other.present@[j]),
            decreases ALPHABET_SIZE - k,
        {
            present.push(self.present[k] && other.present[k]);
            k += 1;
        }
        let result = DigitHashSet { present };
        assert(result@ =~= self@.intersect(other@));
        result
    }

    /// The digits of this set that `other` does not hold.
    pub fn difference(&self, other: &DigitHashSet) -> (r: DigitHashSet)
        ensures
            r@ == self@.difference(other@),
    {
        proof {
            use_type_invariant(self);
            use_type_invariant(other);
        }
        let mut present: Vec<bool> = Vec::new();
        let mut k: usize = 0;
        while k < ALPHABET_SIZE
            invariant
                k <= ALPHABET_SIZE,
                self.present@.len() == ALPHABET_SIZE,
                other.present@.len() == ALPHABET_SIZE,
                present@.len() == k,
                forall|j: int|
                    0 <= j < k ==> present@[j] == (self.present@[j] && !other.present@[j]),
            decreases ALPHABET_SIZE - k,
        {
            present.push(self.present[k] && !other.present[k]);
            k += 1;
        }
        let result = DigitHashSet { present };
        assert(result@ =~= self@.difference(other@));
        result
    }

    /// The digits of the set in the order of the alphabet.
    pub fn to_vec(&self) -> (r: Vec<Digit>)
        ensures
            r@ == ascending(self@),
            r@.len() == self@.len(),
            self@.finite(),
    {
        proof {
            use_type_invariant(self);
        }
        let mut result: Vec<Digit> = Vec::new();
        let mut k: usize = 0;
        while k < ALPHABET_SIZE
            invariant
                k <= ALPHABET_SIZE,
                self.present@.len() == ALPHABET_SIZE,
                result@ == ascending_below(self@, k as int),
            decreases ALPHABET_SIZE - k,
        {
            if self.present[k] {
                result.push(Digit::from_ordinal(k));
            }
            k += 1;
        }
        proof {
            lemma_digit_set_size(self@, ALPHABET_SIZE as int);
        }
        result
    }

    /// The number of digits in the set.
    pub fn len(&self) -> (r: usize)
        ensures
            r == self@.len(),
            r <= ALPHABET_SIZE,
            self@.finite(),
    {
        proof {
            use_type_invariant(self);
        }
        let mut count: usize = 0;
        let mut k: usize = 0;
        while k < ALPHABET_SIZE
            invariant
                k <= ALPHABET_SIZE,
                self.present@.len() == ALPHABET_SIZE,
                count == ascending_below(self@, k as int).len(),
                count <= k,
            decreases ALPHABET_SIZE - k,
        {
            if self.present[k] {
                count += 1;
            }
            k += 1;
        }
        proof {
            lemma_digit_set_size(self@, ALPHABET_SIZE as int);
        }
        count
    }

    /// Whether the set holds no digit.
    pub fn is_empty(&self) -> (r: bool)
        ensures
            r == (self@ == Set::<Digit>::empty()),
    {
        let n: usize = self.len();
        proof {
            if n == 0 {
                assert(self@ =~= Set::<Digit>::empty());
            }
        }
        n == 0
    }

    /// Walks the digits of the set in the order of the alphabet.
    pub fn iter(&self) -> (r: std::vec::IntoIter<Digit>)
        ensures
            vstd::std_specs::vec::into_iter_elts(r) == ascending(self@),
    {
        self.to_vec().into_iter()
    }
}

/// A copy of `slots` with the slot at `k` set to `value`.
fn with_slot(slots: &Vec<bool>, k: usize, value: bool) -> (r: Vec<bool>)
    requires
        k < slots@.len(),
    ensures
        r@ == slots@.update(k as int, value),
{
    let mut result: Vec<bool> = Vec::new();
    let mut j: usize = 0;
    while j < slots.len()
        invariant
            j <= slots@.len(),
            k < slots@.len(),
            result@ == slots@.update(k as int, value).subrange(0, j as int),
        decreases slots@.len() - j,
    {
        if j == k {
            result.push(value);
        } else {
            result.push(slots[j]);
        }
        assert(result@ =~= slots@.update(k as int, value).subrange(0, j + 1));
        j += 1;
    }
    assert(result@ =~= slots@.update(k as int, value));
    result
}

/// Whether a cell value is the given digit.
pub fn is_digit(value: &DigitValue, digit: Digit) -> (r: bool)
    ensures
        r == (*value == Some(digit)),
{
    match value {
        Some(d) => d.to_ordinal() == digit.to_ordinal(),
        None => false,
    }
}

/// A sequence with its first `times` values moved to the end.
pub open spec fn rotated_left<T>(s: Seq<T>, times: int) -> Seq<T>
    recommends
        0 <= times <= s.len(),
{
    s.subrange(times, s.len() as int) + s.subrange(0, times)
}

} // verus!
