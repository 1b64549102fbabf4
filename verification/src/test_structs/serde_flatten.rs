//! The hierarchy of `fast_flatten` as plain data, for serde's own flattening
//! (`#[serde(flatten)]` on `b`, `c` and `d`) to serialize, so that the two
//! outputs can be compared.
use vstd::prelude::*;

verus! {

#[derive(PartialEq, Eq, Debug, Structural)]
pub struct A {
    pub num1: u64,
    /// Flattened into `A`.
    pub b: B,
    /// Flattened into `A`.
    pub d: D,
}

#[derive(PartialEq, Eq, Debug, Structural)]
pub struct B {
    pub num2: u64,
    /// Flattened into `B`.
    pub c: C,
}

#[derive(PartialEq, Eq, Debug, Structural)]
pub struct C {
    pub num3: u64,
    pub num4: u64,
}

#[derive(PartialEq, Eq, Debug, Structural)]
pub struct D {
    pub num5: u64,
    pub num6: u64,
}

/// The example value `A { num1: 1, b: { num2: 2, c: { num3: 3, num4: 4 } }, d: { num5: 5, num6: 6 } }`.
pub fn test_value() -> (res: A)
    ensures
        res == (A { num1: 1, b: B { num2: 2, c: C { num3: 3, num4: 4 } }, d: D { num5: 5, num6: 6 } }),
{
    A { num1: 1, b: B { num2: 2, c: C { num3: 3, num4: 4 } }, d: D { num5: 5, num6: 6 } }
}

} // verus!
