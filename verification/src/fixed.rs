use vstd::prelude::*;

verus! {

/// Largest magnitude, in thousandth units, that a well-formed value may
/// have.  The bound keeps every sum and product that the statistics
/// engine forms inside `i128` range.
pub const RAW_BOUND: i64 = 1_000_000_000_000;

/// A numeric cell value in fixed-point form: `raw` counts thousandths of
/// the represented value, so `Fx { raw: 2500 }` stands for `2.5`.
#[derive(Clone, Copy, PartialEq, Eq, Structural, Debug)]
pub struct Fx {
    pub raw: i64,
}

impl Fx {
    /// A value whose magnitude the engine accepts for exact arithmetic.
    pub open spec fn wf(self) -> bool {
        -RAW_BOUND <= self.raw <= RAW_BOUND
    }

    /// Builds the value `raw / 1000`.
    pub fn new(raw: i64) -> (r: Fx)
        requires
            -RAW_BOUND <= raw <= RAW_BOUND,
        ensures
            r.raw == raw,
            r.wf(),
    {
        Fx { raw }
    }

    /// Builds the whole number `units`.
    pub fn from_units(units: i64) -> (r: Fx)
        requires
            -1_000_000_000 <= units <= 1_000_000_000,
        ensures
            r.raw == units * 1000,
            r.wf(),
    {
        Fx { raw: units * 1000 }
    }

    /// The count of thousandths, for callers that leave verified code.
    pub fn milli(self) -> (r: i64)
        ensures
            r == self.raw,
    {
        self.raw
    }
}

/// Every element of the column is well formed.
pub open spec fn all_wf(s: Seq<Fx>) -> bool {
    forall|i: int| 0 <= i < s.len() ==> (#[trigger] s[i]).wf()
}

} // verus!
