//! One square of the grid: the set of digits still possible there, and
//! whether its value has been fixed.
use vstd::prelude::*;
use vstd::string::StringExecFns;

verus! {

/// Abstract state of a cell: `cands[d]` says whether digit `d + 1` is
/// still possible; `locked` says whether the value has been fixed.
pub struct CellView {
    pub cands: Seq<bool>,
    pub locked: bool,
}

/// The digits `1..=k` whose slot in `s` is set, ascending.
pub open spec fn digits_upto(s: Seq<bool>, k: int) -> Seq<u8>
    decreases k,
{
    if k <= 0 {
        Seq::empty()
    } else if s[k - 1] {
        digits_upto(s, k - 1).push(k as u8)
    } else {
        digits_upto(s, k - 1)
    }
}

/// The candidate digits of a candidate set, ascending.
pub open spec fn candidate_digits(s: Seq<bool>) -> Seq<u8> {
    digits_upto(s, 9)
}

/// A candidate set with no digit left.
pub open spec fn is_empty_set(s: Seq<bool>) -> bool {
    forall|d: int| 0 <= d < 9 ==> !#[trigger] s[d]
}

impl CellView {
    /// A cell has the shape of a candidate set of nine digits, and a locked
    /// cell holds exactly one candidate.
    pub open spec fn wf(self) -> bool {
        &&& self.cands.len() == 9
        &&& self.locked ==> candidate_digits(self.cands).len() == 1
    }

    /// The digit of a locked cell, 0 for an open one.
    pub open spec fn value(self) -> u8 {
        if self.locked {
            candidate_digits(self.cands)[0]
        } else {
            0
        }
    }

    /// An open cell with no candidate left: no legal value remains.
    pub open spec fn contradictory(self) -> bool {
        !self.locked && is_empty_set(self.cands)
    }

    /// The cell can be locked now: it is open and one candidate remains.
    pub open spec fn lockable(self) -> bool {
        !self.locked && candidate_digits(self.cands).len() == 1
    }

    /// The cell after an attempt to lock it.
    pub open spec fn after_lock(self) -> CellView {
        CellView { cands: self.cands, locked: self.locked || self.lockable() }
    }

    /// The cell after the digits marked in `mask` are struck from it.
    pub open spec fn after_remove(self, mask: Seq<bool>) -> CellView {
        if self.locked {
            self
        } else {
            CellView { cands: Seq::new(9, |d: int| self.cands[d] && !mask[d]), locked: false }
        }
    }

    /// The character that shows the cell.
    pub open spec fn glyph(self) -> char {
        if is_empty_set(self.cands) {
            '0'
        } else if self.locked {
            (self.value() + 48) as char
        } else {
            '.'
        }
    }
}

/// The candidate set that holds `v` alone.
pub open spec fn singleton(v: int) -> Seq<bool> {
    Seq::new(9, |d: int| d == v - 1)
}

pub proof fn lemma_digits_upto(s: Seq<bool>, k: int)
    requires
        0 <= k <= 9,
        s.len() == 9,
    ensures
        digits_upto(s, k).len() <= k,
        forall|i: int| 0 <= i < digits_upto(s, k).len() ==> 1 <= #[trigger] digits_upto(s, k)[i] <= k,
        forall|i: int, j: int|
            0 <= i < j < digits_upto(s, k).len() ==> digits_upto(s, k)[i] < digits_upto(s, k)[j],
        forall|d: int| 0 <= d < k ==> (s[d] <==> #[trigger] digits_upto(s, k).contains((d + 1) as u8)),
    decreases k,
{
    if k > 0 {
        lemma_digits_upto(s, k - 1);
        let p = digits_upto(s, k - 1);
        let q = digits_upto(s, k);
        assert forall|d: int| 0 <= d < k implies (s[d] <==> #[trigger] q.contains((d + 1) as u8)) by {
            let x = (d + 1) as u8;
            if q.contains(x) {
                let i = choose|i: int| 0 <= i < q.len() && q[i] == x;
                if i < p.len() {
                    assert(p[i] == x);
                    assert(p.contains(x));
                }
            }
            if d < k - 1 {
                if p.contains(x) {
                    let i = choose|i: int| 0 <= i < p.len() && p[i] == x;
                    assert(q[i] == x);
                }
            } else if s[k - 1] {
                assert(q[p.len() as int] == x);
            }
        }
    }
}

/// In a set with exactly one candidate, slot `d` is set exactly when the
/// candidate is `d + 1`.
pub proof fn lemma_single(s: Seq<bool>)
    requires
        s.len() == 9,
        candidate_digits(s).len() == 1,
    ensures
        forall|d: int| 0 <= d < 9 ==> (#[trigger] s[d] <==> candidate_digits(s)[0] == d + 1),
        1 <= candidate_digits(s)[0] <= 9,
        !is_empty_set(s),
{
    lemma_digits_upto(s, 9);
    let q = candidate_digits(s);
    let v = q[0];
    assert forall|d: int| 0 <= d < 9 implies (#[trigger] s[d] <==> v == d + 1) by {
        assert(s[d] <==> q.contains((d + 1) as u8));
        if q.contains((d + 1) as u8) {
            let i = choose|i: int| 0 <= i < q.len() && q[i] == (d + 1) as u8;
            assert(i == 0);
        }
        if v == d + 1 {
            assert(q[0] == (d + 1) as u8);
        }
    }
    assert(s[v - 1]);
}

/// The candidate set of a single digit has that digit as its only candidate.
pub proof fn lemma_singleton(v: int)
    requires
        1 <= v <= 9,
    ensures
        candidate_digits(singleton(v)) == seq![v as u8],
{
    let s = singleton(v);
    reveal_with_fuel(digits_upto, 10);
    assert(candidate_digits(s) =~= seq![v as u8]);
}

/// One cell: slot `d` of `possible_values` says whether digit `d + 1` is
/// still possible.
#[derive(Clone, Copy, Debug)]
pub struct SudokuCell {
    possible_values: [bool; 9],
    locked: bool,
}

impl View for SudokuCell {
    type V = CellView;

    closed spec fn view(&self) -> CellView {
        CellView { cands: self.possible_values@, locked: self.locked }
    }
}

/// The digit of a candidate set that holds exactly one digit; 0 for an
/// empty set or one with several digits.
pub fn encode_to_decimal(v: &[bool; 9]) -> (r: u8)
    ensures
        r == if candidate_digits(v@).len() == 1 {
            candidate_digits(v@)[0]
        } else {
            0
        },
{
    let mut count: usize = 0;
    let mut found: u8 = 0;
    let mut check: usize = 0;
    while check < 9
        invariant
            check <= 9,
            count == digits_upto(v@, check as int).len(),
            count > 0 ==> found == digits_upto(v@, check as int).last(),
            count <= check,
        decreases 9 - check,
    {
        if v[check] {
            count += 1;
            found = (check + 1) as u8;
        }
        check += 1;
    }
    if count == 1 {
        found
    } else {
        0
    }
}

impl SudokuCell {
    /// A cell with all nine digits possible.
    pub fn new() -> (r: SudokuCell)
        ensures
            r@.cands == Seq::new(9, |d: int| true),
            !r@.locked,
            r@.wf(),
    {
        let r = SudokuCell { possible_values: [true; 9], locked: false };
        assert(r@.cands =~= Seq::new(9, |d: int| true));
        r
    }

    /// A cell whose candidate set is `{v}`, not yet locked.
    pub fn given(v: u8) -> (r: SudokuCell)
        requires
            1 <= v <= 9,
        ensures
            r@ == (CellView { cands: singleton(v as int), locked: false }),
            r@.wf(),
    {
        let mut a = [false; 9];
        a[(v - 1) as usize] = true;
        let r = SudokuCell { possible_values: a, locked: false };
        assert(r@.cands =~= singleton(v as int));
        r
    }

    /// Whether no candidate is left.
    pub fn no_possible_value(&self) -> (r: bool)
        ensures
            r == is_empty_set(self@.cands),
    {
        let mut d: usize = 0;
        while d < 9
            invariant
                d <= 9,
                forall|e: int| 0 <= e < d ==> !self@.cands[e],
            decreases 9 - d,
        {
            if self.possible_values[d] {
                return false;
            }
            d += 1;
        }
        true
    }

    /// The character that shows the cell: `0` for a contradiction, the
    /// digit once locked, `.` otherwise.
    pub fn glyph(&self) -> (r: char)
        requires
            self@.wf(),
        ensures
            r == self@.glyph(),
    {
        if self.no_possible_value() {
            '0'
        } else if self.locked {
            let v = encode_to_decimal(&self.possible_values);
            proof {
                lemma_single(self@.cands);
            }
            (v + 48) as char
        } else {
            '.'
        }
    }

    /// The cell shown as a one-character string.
    pub fn stringify(&self) -> (r: String)
        requires
            self@.wf(),
        ensures
            r@ == seq![self@.glyph()],
    {
        let g = self.glyph();
        let r = if g == '0' {
            String::from_str("0")
        } else if g == '1' {
            String::from_str("1")
        } else if g == '2' {
            String::from_str("2")
        } else if g == '3' {
            String::from_str("3")
        } else if g == '4' {
            String::from_str("4")
        } else if g == '5' {
            String::from_str("5")
        } else if g == '6' {
            String::from_str("6")
        } else if g == '7' {
            String::from_str("7")
        } else if g == '8' {
            String::from_str("8")
        } else if g == '9' {
            String::from_str("9")
        } else {
            String::from_str(".")
        };
        proof {
            reveal_strlit("0");
            reveal_strlit("1");
            reveal_strlit("2");
            reveal_strlit("3");
            reveal_strlit("4");
            reveal_strlit("5");
            reveal_strlit("6");
            reveal_strlit("7");
            reveal_strlit("8");
            reveal_strlit("9");
            reveal_strlit(".");
            if self@.locked && !is_empty_set(self@.cands) {
                lemma_single(self@.cands);
            }
        }
        r
    }

    /// The digit of a locked cell, 0 for an open one.
    pub fn get_value(&self) -> (r: u8)
        requires
            self@.wf(),
        ensures
            r == self@.value(),
            self@.locked ==> 1 <= r <= 9,
    {
        if self.locked {
            proof {
                lemma_single(self@.cands);
            }
            encode_to_decimal(&self.possible_values)
        } else {
            0
        }
    }

    /// Strikes the digits marked in `values` from an open cell; a locked cell
    /// is left as it is.
    pub fn remove_possible_values(&mut self, values: &[bool; 9])
        requires
            old(self)@.wf(),
        ensures
            final(self)@ == old(self)@.after_remove(values@),
            final(self)@.wf(),
    {
        if !self.locked {
            let mut d: usize = 0;
            while d < 9
                invariant
                    d <= 9,
                    !self.locked,
                    forall|e: int|
                        0 <= e < 9 ==> #[trigger] self.possible_values@[e] == if e < d {
                            old(self)@.cands[e] && !values@[e]
                        } else {
                            old(self)@.cands[e]
                        },
                decreases 9 - d,
            {
                let keep = self.possible_values[d] && !values[d];
                self.possible_values[d] = keep;
                d += 1;
            }
            assert(self@.cands =~= old(self)@.after_remove(values@).cands);
        }
    }

    /// Locks the cell if it is open with exactly one candidate left; returns
    /// whether it did.
    pub fn apply_lock(&mut self) -> (r: bool)
        requires
            old(self)@.wf(),
        ensures
            r == old(self)@.lockable(),
            final(self)@ == old(self)@.after_lock(),
            final(self)@.wf(),
    {
        let open = self.get_value_vec();
        if open.len() == 1 {
            self.locked = true;
            true
        } else {
            false
        }
    }

    /// The candidate digits of an open cell, ascending; empty for a locked
    /// cell.
    pub fn get_value_vec(&self) -> (r: Vec<u8>)
        ensures
            r@ == if self@.locked {
                Seq::<u8>::empty()
            } else {
                candidate_digits(self@.cands)
            },
    {
        let mut vec_values: Vec<u8> = Vec::new();
        if self.locked {
            return vec_values;
        }
        let mut check: usize = 0;
        while check < 9
            invariant
                check <= 9,
                vec_values@ == digits_upto(self@.cands, check as int),
            decreases 9 - check,
        {
            if self.possible_values[check] {
                vec_values.push((check + 1) as u8);
            }
            check += 1;
        }
        vec_values
    }

    /// Whether the cell's value is fixed.
    pub fn is_locked(&self) -> (r: bool)
        ensures
            r == self@.locked,
    {
        self.locked
    }
}

} // verus!
