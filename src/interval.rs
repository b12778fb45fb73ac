use vstd::prelude::*;

verus! {

/// Largest ray parameter a query may ask about; it stands for "no upper limit".
/// In fixed point it is 65536 times the ray direction's length.
pub const T_MAX: i64 = 0x1_0000_0000;

/// A closed range `[min, max]` of admissible ray parameters.
#[derive(Clone, Copy, Debug, PartialEq, Eq, Structural)]
pub struct Interval {
    pub min: i64,
    pub max: i64,
}

impl Interval {
    /// Both ends lie within `[-T_MAX, T_MAX]`.
    pub open spec fn valid(&self) -> bool {
        -T_MAX <= self.min && self.max <= T_MAX
    }

    pub open spec fn contains_spec(&self, x: int) -> bool {
        self.min <= x && x <= self.max
    }

    pub fn new(min: i64, max: i64) -> (r: Interval)
        ensures
            r.min == min && r.max == max,
    {
        Interval { min, max }
    }

    pub fn contains(&self, x: i64) -> (r: bool)
        ensures
            r == self.contains_spec(x as int),
    {
        self.min <= x && x <= self.max
    }
}

} // verus!
