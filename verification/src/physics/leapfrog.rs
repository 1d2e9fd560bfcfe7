use vstd::prelude::*;

use crate::physics::euler::Euler;
use crate::physics::Kinematics;

verus! {

/// The leapfrog scheme in its position form: second order, and symplectic.
pub struct Leapfrog;

impl Kinematics for Leapfrog {
    open spec fn label(&self) -> Seq<char> {
        "Leapfrog"@
    }

    fn name(&self) -> (name: &'static str) {
        "Leapfrog"
    }
}

/// The leapfrog scheme as kick, drift, kick.
pub struct LeapfrogKDK;

impl Kinematics for LeapfrogKDK {
    open spec fn label(&self) -> Seq<char> {
        "Leapfrog (KDK)"@
    }

    fn name(&self) -> (name: &'static str) {
        "Leapfrog (KDK)"
    }
}

/// The three schemes are told apart by their names.
pub proof fn lemma_names_differ()
    ensures
        Euler.label() != Leapfrog.label(),
        Euler.label() != LeapfrogKDK.label(),
        Leapfrog.label() != LeapfrogKDK.label(),
{
    reveal_strlit("Euler");
    reveal_strlit("Leapfrog");
    reveal_strlit("Leapfrog (KDK)");
    assert("Euler"@.len() == 5);
    assert("Leapfrog"@.len() == 8);
    assert("Leapfrog (KDK)"@.len() == 14);
}

} // verus!
