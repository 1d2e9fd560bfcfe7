use vstd::prelude::*;

use crate::physics::Kinematics;

verus! {

/// The explicit Euler scheme: first order, and not symplectic.
pub struct Euler;

impl Kinematics for Euler {
    open spec fn label(&self) -> Seq<char> {
        "Euler"@
    }

    fn name(&self) -> (name: &'static str) {
        "Euler"
    }
}

} // verus!
