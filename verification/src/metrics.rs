//! ErrorMetrics: the decision core of the error measures.
//!
//! The numeric parts of the metrics — `|approx - exact| / |exact|` for the
//! relative error, `ln(|e_prev| / |e_curr|) / ln 2` for the empirical
//! order of convergence — are floating-point arithmetic and stay with the
//! caller.  What the engine itself decides, and what this module
//! verifies, is *when* the empirical order is defined at all: it is
//! undefined exactly when either adjacent error is zero, which
//! short-circuits the logarithm-of-zero degeneracy.  Non-finite error
//! values (as a zero exact reference produces in the relative error) are
//! not zero patterns and therefore propagate, as they must.

use crate::bits::is_zero_bits;
use vstd::prelude::*;

verus! {

/// Whether an empirical order of convergence is defined for a pair of
/// adjacent errors: it is, unless either error is exactly zero.
pub open spec fn order_defined(err_prev: u64, err_curr: u64) -> bool {
    !is_zero_bits(err_prev) && !is_zero_bits(err_curr)
}

/// Decide whether the empirical order of convergence is defined for the
/// two adjacent errors, given as binary64 bit patterns.
pub fn observed_order_defined(err_prev: u64, err_curr: u64) -> (r: bool)
    ensures
        r == order_defined(err_prev, err_curr),
{
    !crate::bits::is_zero(err_prev) && !crate::bits::is_zero(err_curr)
}

/// The empirical order is undefined whenever either of the two errors is
/// exactly zero — positive or negative zero alike — whatever the other
/// one holds.
pub proof fn lemma_order_undefined_on_zero(err_prev: u64, err_curr: u64)
    requires
        is_zero_bits(err_prev) || is_zero_bits(err_curr),
    ensures
        !order_defined(err_prev, err_curr),
{
}

} // verus!
