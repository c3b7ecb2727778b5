use vstd::prelude::*;

verus! {

/// A node of the problem: a depot, a customer, any stop a vehicle can make.
#[derive(Clone, Copy, PartialEq, Eq, Structural, PartialOrd, Ord, Hash, Debug)]
pub struct NodeId(pub u32);

/// A vehicle of the fleet, by its position in the model.
#[derive(Clone, Copy, PartialEq, Eq, Structural, PartialOrd, Ord, Hash, Debug)]
pub struct VehicleId(pub u32);

/// Scaled integer cost. No floats: ties and comparisons must be deterministic.
pub type Cost = i64;

/// `x` is representable as an `i64`.
pub open spec fn fits(x: int) -> bool {
    i64::MIN <= x <= i64::MAX
}

/// `a + b`, or `None` once the running value leaves the `i64` range.
pub open spec fn add_checked(acc: Option<int>, x: int) -> Option<int> {
    match acc {
        Some(a) => if fits(a + x) { Some(a + x) } else { None },
        None => None,
    }
}

/// The integer an optional `i64` stands for.
pub open spec fn opt_int(r: Option<i64>) -> Option<int> {
    match r {
        Some(x) => Some(x as int),
        None => None,
    }
}

impl NodeId {
    pub fn index(self) -> (r: usize)
        ensures
            r == self.0,
    {
        self.0 as usize
    }
}

impl VehicleId {
    pub fn index(self) -> (r: usize)
        ensures
            r == self.0,
    {
        self.0 as usize
    }
}

} // verus!
