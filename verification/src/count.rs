//! Line tallies and their addition.

use vstd::prelude::*;

verus! {

/// The mathematical value of a tally: four unbounded naturals.
pub struct Tally {
    pub lines: nat,
    pub blank: nat,
    pub comment: nat,
    pub code: nat,
}

impl Tally {
    /// The tally of nothing.
    pub open spec fn zero() -> Tally {
        Tally { lines: 0, blank: 0, comment: 0, code: 0 }
    }

    /// Pointwise addition.
    pub open spec fn plus(self, other: Tally) -> Tally {
        Tally {
            lines: self.lines + other.lines,
            blank: self.blank + other.blank,
            comment: self.comment + other.comment,
            code: self.code + other.code,
        }
    }

    /// Every column fits in a `u64`.
    pub open spec fn fits(self) -> bool {
        &&& self.lines <= u64::MAX
        &&& self.blank <= u64::MAX
        &&& self.comment <= u64::MAX
        &&& self.code <= u64::MAX
    }
}

/// Addition of tallies is commutative and associative, and the zero tally
/// is its identity: in whatever order and grouping tallies are merged, the
/// sum is the same.
pub proof fn lemma_plus_laws(a: Tally, b: Tally, c: Tally)
    ensures
        a.plus(b) == b.plus(a),
        a.plus(b).plus(c) == a.plus(b.plus(c)),
        a.plus(Tally::zero()) == a,
        Tally::zero().plus(a) == a,
{
}

/// Blank, comment, code and total line counts of one file or of an aggregate.
#[derive(Clone, Copy, Debug, PartialEq, Eq, Structural)]
pub struct Count {
    pub code: u64,
    pub comment: u64,
    pub blank: u64,
    pub lines: u64,
}

impl View for Count {
    type V = Tally;

    open spec fn view(&self) -> Tally {
        Tally {
            lines: self.lines as nat,
            blank: self.blank as nat,
            comment: self.comment as nat,
            code: self.code as nat,
        }
    }
}

impl Count {
    /// The zero tally, identity of `merge`.
    pub fn zero() -> (c: Count)
        ensures
            c@ == Tally::zero(),
    {
        Count { code: 0, comment: 0, blank: 0, lines: 0 }
    }

    /// Builds a tally from its four columns.
    pub fn new(lines: u64, blank: u64, comment: u64, code: u64) -> (c: Count)
        ensures
            c.lines == lines,
            c.blank == blank,
            c.comment == comment,
            c.code == code,
    {
        Count { code, comment, blank, lines }
    }

    /// Adds `other` into `self`, column by column.
    pub fn merge(&mut self, other: &Count)
        requires
            old(self)@.plus(other@).fits(),
        ensures
            final(self)@ == old(self)@.plus(other@),
    {
        self.code = self.code + other.code;
        self.comment = self.comment + other.comment;
        self.blank = self.blank + other.blank;
        self.lines = self.lines + other.lines;
    }

    /// The column-wise sum of `self` and `other`, or `None` when a column of
    /// the sum does not fit in a `u64`.
    pub fn checked_merge(&self, other: &Count) -> (sum: Option<Count>)
        ensures
            sum is Some <==> self@.plus(other@).fits(),
            sum matches Some(c) ==> c@ == self@.plus(other@),
    {
        let code = match self.code.checked_add(other.code) {
            Some(v) => v,
            None => { return None; },
        };
        let comment = match self.comment.checked_add(other.comment) {
            Some(v) => v,
            None => { return None; },
        };
        let blank = match self.blank.checked_add(other.blank) {
            Some(v) => v,
            None => { return None; },
        };
        let lines = match self.lines.checked_add(other.lines) {
            Some(v) => v,
            None => { return None; },
        };
        Some(Count { code, comment, blank, lines })
    }
}

} // verus!
