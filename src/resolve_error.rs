//! Collapses what a resolver error reports into the failure cause of a
//! sub-query.
use vstd::prelude::*;

use crate::classify::FailureCause;

verus! {

/// What the pipeline reads of a resolver error.
#[derive(Clone, Copy, Debug, PartialEq, Eq, Structural)]
pub enum ErrorShape {
    /// The server answered without records, with this DNS response code.
    NoRecords(u16),
    /// The query timed out.
    Timeout,
    /// Any other failure.
    Other,
}

/// DNS response codes that the classification reads.
pub const RCODE_NO_ERROR: u16 = 0;
pub const RCODE_SERV_FAIL: u16 = 2;
pub const RCODE_NX_DOMAIN: u16 = 3;

/// The failure cause of an error of the given shape.
pub open spec fn cause_for(shape: ErrorShape) -> FailureCause {
    match shape {
        ErrorShape::NoRecords(code) => if code == RCODE_NX_DOMAIN {
            FailureCause::NameDoesNotExist
        } else if code == RCODE_NO_ERROR {
            FailureCause::NoDataOfRequestedType
        } else if code == RCODE_SERV_FAIL {
            FailureCause::ServerFailure
        } else {
            FailureCause::Other
        },
        ErrorShape::Timeout => FailureCause::Timeout,
        ErrorShape::Other => FailureCause::Other,
    }
}

/// The failure cause of an error of the given shape.
pub fn cause_of_shape(shape: ErrorShape) -> (r: FailureCause)
    ensures
        r == cause_for(shape),
{
    match shape {
        ErrorShape::NoRecords(code) => {
            if code == RCODE_NX_DOMAIN {
                FailureCause::NameDoesNotExist
            } else if code == RCODE_NO_ERROR {
                FailureCause::NoDataOfRequestedType
            } else if code == RCODE_SERV_FAIL {
                FailureCause::ServerFailure
            } else {
                FailureCause::Other
            }
        },
        ErrorShape::Timeout => FailureCause::Timeout,
        ErrorShape::Other => FailureCause::Other,
    }
}

} // verus!
