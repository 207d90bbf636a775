//! Defaults for the radial-basis configuration.
//!
//! The radial bases themselves (Gaussian-type orbitals and tabulated
//! splines) live outside the verified core: their parameters are
//! floating-point. Only the switch below is integral and belongs here.

use vstd::prelude::*;

verus! {

/// Default for the switch that computes the radial integral with splines
/// rather than with the base implementation: splines are much faster, so
/// they are on unless asked otherwise.
pub fn serde_default_splined_radial_integral() -> (r: bool)
    ensures
        r == true,
{
    true
}

} // verus!
