//! Left folds that stop at the first error.
use vstd::prelude::*;
use crate::iv32::NumericError;

verus! {

/// Applies `step(acc, 0)`, `step(acc, 1)`, ..., `step(acc, n - 1)` in order,
/// stopping at the first error.
pub open spec fn fold_checked<T>(
    n: nat,
    init: T,
    step: spec_fn(T, int) -> Result<T, NumericError>,
) -> Result<T, NumericError>
    decreases n,
{
    if n == 0 {
        Ok(init)
    } else {
        match fold_checked((n - 1) as nat, init, step) {
            Ok(acc) => step(acc, n - 1),
            Err(e) => Err(e),
        }
    }
}

/// One more step of a fold.
pub proof fn lemma_fold_next<T>(
    n: nat,
    init: T,
    step: spec_fn(T, int) -> Result<T, NumericError>,
)
    ensures
        fold_checked(n + 1, init, step) == (match fold_checked(n, init, step) {
            Ok(acc) => step(acc, n as int),
            Err(e) => Err(e),
        }),
{
    assert(((n + 1) - 1) as nat == n);
}

/// Once a fold has failed, every longer fold fails with the same error.
pub proof fn lemma_fold_error_persists<T>(
    m: nat,
    n: nat,
    init: T,
    step: spec_fn(T, int) -> Result<T, NumericError>,
)
    requires
        m <= n,
        fold_checked(m, init, step) is Err,
    ensures
        fold_checked(n, init, step) == fold_checked(m, init, step),
    decreases n - m,
{
    if m < n {
        lemma_fold_error_persists(m, (n - 1) as nat, init, step);
    }
}

} // verus!
