//! Errors reported by the decomposition routines, with their messages.
use vstd::prelude::*;
use vstd::string::StringExecFns;

verus! {

/// What can go wrong when decomposing a signal.
#[derive(Debug, Clone, PartialEq, Eq, Structural)]
pub enum HodgeError {
    EmptyMatrix,
    SingularMatrix,
    DimensionMismatch { expected: usize, actual: usize },
    NoConvergence(usize),
}

/// The text of one decimal digit `d` (`0 <= d < 10`).
pub open spec fn digit_text(d: nat) -> Seq<char> {
    if d == 0 { "0"@ }
    else if d == 1 { "1"@ }
    else if d == 2 { "2"@ }
    else if d == 3 { "3"@ }
    else if d == 4 { "4"@ }
    else if d == 5 { "5"@ }
    else if d == 6 { "6"@ }
    else if d == 7 { "7"@ }
    else if d == 8 { "8"@ }
    else { "9"@ }
}

/// The decimal notation of `n`, most significant digit first, without leading zeros.
pub open spec fn decimal_text(n: nat) -> Seq<char>
    decreases n,
{
    if n < 10 {
        digit_text(n)
    } else {
        decimal_text(n / 10) + digit_text(n % 10)
    }
}

/// The message that describes an error.
pub open spec fn message_text(e: HodgeError) -> Seq<char> {
    match e {
        HodgeError::EmptyMatrix => "empty matrix"@,
        HodgeError::SingularMatrix => "singular matrix"@,
        HodgeError::DimensionMismatch { expected, actual } =>
            "dimension mismatch: expected "@ + decimal_text(expected as nat) + ", got "@
                + decimal_text(actual as nat),
        HodgeError::NoConvergence(iters) =>
            "no convergence after "@ + decimal_text(iters as nat) + " iterations"@,
    }
}

fn digit_str(d: usize) -> (s: &'static str)
    requires
        d < 10,
    ensures
        s@ == digit_text(d as nat),
{
    if d == 0 { "0" }
    else if d == 1 { "1" }
    else if d == 2 { "2" }
    else if d == 3 { "3" }
    else if d == 4 { "4" }
    else if d == 5 { "5" }
    else if d == 6 { "6" }
    else if d == 7 { "7" }
    else if d == 8 { "8" }
    else { "9" }
}

/// Appends the decimal notation of `n` to `out`.
pub fn push_decimal(out: &mut String, n: usize)
    ensures
        final(out)@ == old(out)@ + decimal_text(n as nat),
    decreases n,
{
    if n >= 10 {
        push_decimal(out, n / 10);
    }
    out.append(digit_str(n % 10));
}

impl HodgeError {
    /// The human-readable message of this error.
    pub fn message(&self) -> (s: String)
        ensures
            s@ == message_text(*self),
    {
        match self {
            HodgeError::EmptyMatrix => String::from_str("empty matrix"),
            HodgeError::SingularMatrix => String::from_str("singular matrix"),
            HodgeError::DimensionMismatch { expected, actual } => {
                let mut s = String::from_str("dimension mismatch: expected ");
                push_decimal(&mut s, *expected);
                s.append(", got ");
                push_decimal(&mut s, *actual);
                s
            },
            HodgeError::NoConvergence(iters) => {
                let mut s = String::from_str("no convergence after ");
                push_decimal(&mut s, *iters);
                s.append(" iterations");
                s
            },
        }
    }
}

} // verus!
