//! Integer-side helpers of the SIMD-batched two-electron integral backend:
//! screening-method codes, SIMD width rounding, and work-buffer sizing.

use vstd::prelude::*;

verus! {

/// Code of the "no screening" method in the backend's C interface.
pub const SIMINT_SCREEN_NONE: u32 = 0;

/// Code of Schwarz screening.
pub const SIMINT_SCREEN_SCHWARZ: u32 = 1;

/// Code of fast Schwarz screening.
pub const SIMINT_SCREEN_FASTSCHWARZ: u32 = 2;

/// How the two-electron backend screens shell pairs.
#[derive(Clone, Copy, Debug, PartialEq, Eq, Structural)]
pub enum SimintScreenMethod {
    NoScreen,
    Schwarz,
    FastSchwarz,
}

impl SimintScreenMethod {
    /// Decode a screening-method code; any other code is a caller bug.
    pub fn from(sm: u32) -> (r: SimintScreenMethod)
        requires
            sm == SIMINT_SCREEN_NONE || sm == SIMINT_SCREEN_SCHWARZ || sm
                == SIMINT_SCREEN_FASTSCHWARZ,
        ensures
            sm == SIMINT_SCREEN_NONE ==> r == SimintScreenMethod::NoScreen,
            sm == SIMINT_SCREEN_SCHWARZ ==> r == SimintScreenMethod::Schwarz,
            sm == SIMINT_SCREEN_FASTSCHWARZ ==> r == SimintScreenMethod::FastSchwarz,
    {
        if sm == SIMINT_SCREEN_NONE {
            SimintScreenMethod::NoScreen
        } else if sm == SIMINT_SCREEN_SCHWARZ {
            SimintScreenMethod::Schwarz
        } else {
            SimintScreenMethod::FastSchwarz
        }
    }

    /// Encode a screening method as its code.
    pub fn to(sm: SimintScreenMethod) -> (r: u32)
        ensures
            sm == SimintScreenMethod::NoScreen ==> r == SIMINT_SCREEN_NONE,
            sm == SimintScreenMethod::Schwarz ==> r == SIMINT_SCREEN_SCHWARZ,
            sm == SimintScreenMethod::FastSchwarz ==> r == SIMINT_SCREEN_FASTSCHWARZ,
    {
        match sm {
            SimintScreenMethod::NoScreen => SIMINT_SCREEN_NONE,
            SimintScreenMethod::Schwarz => SIMINT_SCREEN_SCHWARZ,
            SimintScreenMethod::FastSchwarz => SIMINT_SCREEN_FASTSCHWARZ,
        }
    }
}

/// Decoding then encoding a screening method gives the code back, and the
/// other way round.
pub proof fn lemma_screen_code_round_trip(sm: u32)
    requires
        sm == SIMINT_SCREEN_NONE || sm == SIMINT_SCREEN_SCHWARZ || sm == SIMINT_SCREEN_FASTSCHWARZ,
    ensures
        forall|m: SimintScreenMethod, back: u32|
            call_ensures(SimintScreenMethod::from, (sm,), m) && call_ensures(
                SimintScreenMethod::to,
                (m,),
                back,
            ) ==> back == sm,
{
}

/// Round `x` up to the next multiple of the SIMD width `len`.
pub fn simd_round(x: usize, len: usize) -> (r: usize)
    requires
        1 <= len,
        x + len <= usize::MAX,
    ensures
        r % len == 0,
        x <= r < x + len,
{
    let t = x + (len - 1);
    let q = t / len;
    proof {
        assert(q * len <= t && t - len < q * len && (q * len) % (len as int) == 0)
            by (nonlinear_arith)
            requires
                q == (t as int) / (len as int),
                len >= 1,
                t >= 0,
        ;
    }
    let r = q * len;
    r
}

/// Work-buffer element count of the two-electron backend for the given
/// derivative order and maximum angular momentum; sizing is not implemented
/// yet, so no elements are requested.
pub fn ostei_worksize(derorder: usize, maxam: usize) -> (r: usize)
    ensures
        r == 0,
{
    0
}

/// Work-buffer size in bytes: the element count times the width of a C
/// double.
pub fn ostei_workmem(derorder: usize, maxam: usize) -> (r: usize)
    ensures
        r == 0,
{
    ostei_worksize(derorder, maxam) * 8
}

} // verus!
