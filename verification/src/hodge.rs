//! The checks that the Hodge decomposition makes on its input before any numerics.
use vstd::prelude::*;
use crate::error::HodgeError;

verus! {

/// What decomposing a signal of length `signal_len` with an `n x n` Laplacian reports
/// before it computes anything: an empty Laplacian first, then a length mismatch.
pub open spec fn signal_check(n: usize, signal_len: usize) -> Result<(), HodgeError> {
    if n == 0 {
        Err(HodgeError::EmptyMatrix)
    } else if signal_len != n {
        Err(HodgeError::DimensionMismatch { expected: n, actual: signal_len })
    } else {
        Ok(())
    }
}

/// Checks that a signal of length `signal_len` can be decomposed with a Laplacian
/// of `n` rows.
pub fn validate_signal(n: usize, signal_len: usize) -> (r: Result<(), HodgeError>)
    ensures
        r == signal_check(n, signal_len),
        r is Ok <==> (n > 0 && signal_len == n),
        n == 0 ==> r == Err::<(), HodgeError>(HodgeError::EmptyMatrix),
        n > 0 && signal_len != n ==> r == Err::<(), HodgeError>(
            HodgeError::DimensionMismatch { expected: n, actual: signal_len },
        ),
{
    if n == 0 {
        return Err(HodgeError::EmptyMatrix);
    }
    if signal_len != n {
        return Err(HodgeError::DimensionMismatch { expected: n, actual: signal_len });
    }
    Ok(())
}

/// A signal passes the check exactly when the Laplacian is not empty and the
/// signal has one entry per vertex; an empty Laplacian is reported first, and any
/// other length, shorter or longer, is reported with both lengths.
pub proof fn lemma_signal_check_accepts_exactly_matching_lengths(n: usize, signal_len: usize)
    ensures
        signal_check(n, signal_len) is Ok <==> (n > 0 && signal_len == n),
        n == 0 ==> signal_check(n, signal_len) == Err::<(), HodgeError>(HodgeError::EmptyMatrix),
        n > 0 && signal_len != n ==> signal_check(n, signal_len) == Err::<(), HodgeError>(
            HodgeError::DimensionMismatch { expected: n, actual: signal_len },
        ),
{
}

} // verus!
