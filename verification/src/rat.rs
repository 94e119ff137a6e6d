//! An exact rational value: the numeric core stores every fitted
//! coefficient as `num / den` with `den >= 1`, so model arithmetic is
//! reproducible and free of rounding.
use vstd::prelude::*;

verus! {

#[derive(Clone, Copy, Debug, PartialEq, Eq, Structural)]
pub struct Rat {
    pub num: i128,
    pub den: i128,
}

impl Rat {
    pub open spec fn wf(self) -> bool {
        self.den >= 1
    }

    /// The rational n / 1.
    pub fn whole(n: i128) -> (r: Rat)
        ensures
            r.num == n,
            r.den == 1,
            r.wf(),
    {
        Rat { num: n, den: 1 }
    }
}

} // verus!
