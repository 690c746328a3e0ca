//! The Fisher–Rao distance between two categorical distributions is twice the
//! arc cosine of their Bhattacharyya coefficient. This module prepares the
//! argument of that arc cosine.
use crate::binary64::Binary64;
use crate::error::{adopt, Error};
use crate::snap::{spec_stabilize, stabilize};
use logp::Error as LogpError;
use vstd::prelude::*;

verus! {

/// What `rao_coefficient` returns.
pub open spec fn spec_rao_coefficient(
    coefficient: Result<Binary64, LogpError>,
    tol: Binary64,
) -> Result<Binary64, Error> {
    match coefficient {
        Ok(bc) => Ok(spec_stabilize(bc, tol)),
        Err(cause) => Err(Error::Logp(cause)),
    }
}

/// The cosine of half the Rao distance, from the outcome of
/// `logp::bhattacharyya_coeff` on the two distributions and the tolerance
/// that they were validated with.
///
/// A coefficient is stabilized; a validation failure is passed on with its
/// cause. Twice the arc cosine of the result is the distance in radians.
pub fn rao_coefficient(coefficient: Result<Binary64, LogpError>, tol: Binary64) -> (r: Result<
    Binary64,
    Error,
>)
    ensures
        r == spec_rao_coefficient(coefficient, tol),
        r is Ok <==> coefficient is Ok,
        coefficient matches Ok(bc) ==> bc.spec_is_nan() || r->Ok_0.in_unit_interval(),
{
    match adopt(coefficient) {
        Ok(bc) => Ok(stabilize(bc, tol)),
        Err(error) => Err(error),
    }
}

} // verus!
