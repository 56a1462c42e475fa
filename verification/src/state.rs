//! A state of the counter machine and the row that encodes it.

use crate::counts::{inc, inc_spec, is_representable, round};
use vstd::prelude::*;

verus! {

/// A state: the two counts and the indices of its four successors in the
/// state table.
///
/// `s00` and `s01` follow an input of 0, `s10` and `s11` an input of 1; the
/// second digit says whether the probabilistic increment succeeded.
#[derive(PartialEq, Eq, Structural, PartialOrd, Ord, Clone, Copy, Debug)]
pub struct E {
    pub n0: u32,
    pub n1: u32,
    pub s00: u32,
    pub s01: u32,
    pub s10: u32,
    pub s11: u32,
}

/// The encoded form of a state: two display weights, the four successor
/// indices and the two increment probabilities as fractions of 2^32.
#[derive(PartialEq, Eq, Structural, Clone, Copy, Debug)]
pub struct Row {
    pub get0: u32,
    pub get1: u32,
    pub s00: u32,
    pub s01: u32,
    pub s10: u32,
    pub s11: u32,
    pub p01: u32,
    pub p11: u32,
}

/// The display weight of a count `a` beside the opposing count `b`.
///
/// A count of zero weighs nothing; beside a zero it weighs four times
/// itself; the larger of two counts weighs their ratio, rounded down, and the
/// smaller or equal one weighs 1.
pub open spec fn weight_spec(a: int, b: int) -> int {
    if a == 0 {
        0
    } else if b == 0 {
        4 * a
    } else if a > b {
        (2 * a) / (2 * b)
    } else {
        1
    }
}

/// The probability that an increment of the count `n` succeeds, as a
/// fraction of 2^32: `0xFFFF_FFFF` divided by the size of the step, and 0
/// where there is no step.
pub open spec fn prob_spec(n: int) -> int {
    let delta = inc_spec(n) - n;
    if delta != 0 {
        0xFFFF_FFFFint / delta
    } else {
        0
    }
}

impl E {
    /// The pair of counts that identifies the state.
    pub open spec fn counts(self) -> (int, int) {
        (self.n0 as int, self.n1 as int)
    }

    /// Both counts are representable.
    pub open spec fn wf(self) -> bool {
        is_representable(self.n0 as int) && is_representable(self.n1 as int)
    }

    /// No successor has been resolved yet.
    pub open spec fn unresolved(self) -> bool {
        self.s00 == 0 && self.s01 == 0 && self.s10 == 0 && self.s11 == 0
    }

    /// The row that encodes the state.
    pub open spec fn row_spec(self) -> Row {
        Row {
            get0: weight_spec(self.n0 as int, self.n1 as int) as u32,
            get1: weight_spec(self.n1 as int, self.n0 as int) as u32,
            s00: self.s00,
            s01: self.s01,
            s10: self.s10,
            s11: self.s11,
            p01: prob_spec(self.n0 as int) as u32,
            p11: prob_spec(self.n1 as int) as u32,
        }
    }

    /// A state with the counts `(i, j)` and no successor resolved.
    pub fn new(i: u32, j: u32) -> (e: E)
        ensures
            e == (E { n0: i, n1: j, s00: 0, s01: 0, s10: 0, s11: 0 }),
    {
        E { n0: i, n1: j, s00: 0, s01: 0, s10: 0, s11: 0 }
    }

    /// Whether both counts are representable.
    pub fn is_valid(&self) -> (b: bool)
        ensures
            b == self.wf(),
    {
        round(self.n0) == self.n0 && round(self.n1) == self.n1
    }

    /// Encodes the state as a row.
    pub fn encode(&self) -> (row: Row)
        requires
            self.wf(),
        ensures
            row == self.row_spec(),
            row.get0 == weight_spec(self.n0 as int, self.n1 as int),
            row.get1 == weight_spec(self.n1 as int, self.n0 as int),
            row.p01 == prob_spec(self.n0 as int),
            row.p11 == prob_spec(self.n1 as int),
    {
        let delta0: u32 = inc(self.n0) - self.n0;
        let delta1: u32 = inc(self.n1) - self.n1;
        let mut get0: u32 = self.n0 * 2;
        let mut get1: u32 = self.n1 * 2;
        if self.n0 == 0 {
            get1 *= 2;
        } else if self.n1 == 0 {
            get0 *= 2;
        } else if self.n0 > self.n1 {
            get0 /= get1;
            get1 = 1;
        } else if self.n1 > self.n0 {
            get1 /= get0;
            get0 = 1;
        } else {
            get0 = 1;
            get1 = 1;
        }
        let p01: u32 = if delta0 != 0 {
            0xFFFF_FFFF / delta0
        } else {
            0
        };
        let p11: u32 = if delta1 != 0 {
            0xFFFF_FFFF / delta1
        } else {
            0
        };
        Row { get0, get1, s00: self.s00, s01: self.s01, s10: self.s10, s11: self.s11, p01, p11 }
    }
}

} // verus!
