//! Generic compressed-slack predicate used by kinetic maintenance.
use vstd::prelude::*;
use crate::iv32::NumericError;

verus! {

/// A perturbation preserves an ordering only when it is strictly smaller
/// than the minimum slack. Negative inputs are refused.
pub fn slack_preserves(minimum_slack_raw: i32, perturbation_raw: i32) -> (r: Result<
    bool,
    NumericError,
>)
    ensures
        r == (if minimum_slack_raw < 0 || perturbation_raw < 0 {
            Err(NumericError::InvalidDomain)
        } else {
            Ok(perturbation_raw < minimum_slack_raw)
        }),
{
    if minimum_slack_raw < 0 || perturbation_raw < 0 {
        return Err(NumericError::InvalidDomain);
    }
    Ok(perturbation_raw < minimum_slack_raw)
}

} // verus!
