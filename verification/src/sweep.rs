//! SweepEngine: the ordered record series of one sweep.
//!
//! For a fixed case and method, a sweep walks an ordered sequence of
//! control-parameter values and produces one record per value.  The
//! numeric work of a step — evaluating the approximation and the signed
//! error `exact - approx` (the sign convention used throughout) — is
//! floating-point arithmetic done by the caller, who hands the results in
//! as binary64 bit patterns, together with a candidate empirical-order
//! value for every adjacent pair of steps.  The engine decides, per
//! record, whether that order value counts: it is kept only from the
//! second record on and only while neither adjacent error is zero, and
//! the previous error is carried forward regardless, so a single
//! zero-error step does not break order estimation for later steps.

use crate::metrics::order_defined;
use vstd::prelude::*;

verus! {

/// One sweep observation: the case and method names, the
/// control-parameter value `h`, the approximate value, the signed error
/// (exact minus approximate), and the empirical order of convergence
/// when it is defined.  All numeric fields are binary64 bit patterns.
pub struct Row {
    pub case: String,
    pub method: String,
    pub h: u64,
    pub approx: u64,
    pub err: u64,
    pub order: Option<u64>,
}

/// The mathematical content of a `Row`: names as character sequences,
/// numbers as bit patterns.
pub struct RowView {
    pub case: Seq<char>,
    pub method: Seq<char>,
    pub h: u64,
    pub approx: u64,
    pub err: u64,
    pub order: Option<u64>,
}

impl View for Row {
    type V = RowView;

    open spec fn view(&self) -> RowView {
        RowView {
            case: self.case@,
            method: self.method@,
            h: self.h,
            approx: self.approx,
            err: self.err,
            order: self.order,
        }
    }
}

/// The views of a sequence of rows.
pub open spec fn rows_view(rows: Seq<Row>) -> Seq<RowView> {
    rows.map(|i: int, r: Row| r@)
}

impl Row {
    /// An owned copy of the record with the same mathematical content.
    pub fn duplicate(&self) -> (r: Row)
        ensures
            r@ == self@,
    {
        Row {
            case: self.case.clone(),
            method: self.method.clone(),
            h: self.h,
            approx: self.approx,
            err: self.err,
            order: self.order,
        }
    }
}

/// The order entry of record `i` of a sweep: absent for the first record
/// and whenever either adjacent error is zero, otherwise the caller's
/// candidate value for the step from `i - 1` to `i`.
pub open spec fn spec_order(errs: Seq<u64>, candidates: Seq<u64>, i: int) -> Option<u64> {
    if i <= 0 || !order_defined(errs[i - 1], errs[i]) {
        None
    } else {
        Some(candidates[i])
    }
}

/// Produce the record series of one sweep over `params`, whose
/// approximate values, signed errors and candidate order values the
/// caller has computed step by step.  The series keeps the traversal
/// order and has exactly one record per control-parameter value.
pub fn sweep(
    case: &str,
    method: &str,
    params: &Vec<u64>,
    approxs: &Vec<u64>,
    errs: &Vec<u64>,
    candidates: &Vec<u64>,
) -> (rows: Vec<Row>)
    requires
        approxs.len() == params.len(),
        errs.len() == params.len(),
        candidates.len() == params.len(),
    ensures
        rows.len() == params.len(),
        forall|i: int|
            0 <= i < rows.len() ==> rows[i]@ == (RowView {
                case: case@,
                method: method@,
                h: params[i],
                approx: approxs[i],
                err: errs[i],
                order: spec_order(errs@, candidates@, i),
            }),
{
    let mut rows: Vec<Row> = Vec::new();
    let n = params.len();
    for i in 0..n
        invariant
            params.len() == n,
            approxs.len() == n,
            errs.len() == n,
            candidates.len() == n,
            rows.len() == i,
            forall|j: int|
                0 <= j < i ==> rows[j]@ == (RowView {
                    case: case@,
                    method: method@,
                    h: params[j],
                    approx: approxs[j],
                    err: errs[j],
                    order: spec_order(errs@, candidates@, j),
                }),
    {
        let order: Option<u64> = if i == 0 {
            None
        } else if crate::metrics::observed_order_defined(errs[i - 1], errs[i]) {
            Some(candidates[i])
        } else {
            None
        };
        rows.push(
            Row {
                case: case.to_owned(),
                method: method.to_owned(),
                h: params[i],
                approx: approxs[i],
                err: errs[i],
                order,
            },
        );
    }
    rows
}

} // verus!
