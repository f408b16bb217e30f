//! ApproximationCatalog: the closed set of named test cases and
//! approximation methods.
//!
//! The set is small, fixed and known at start, so each case and method
//! is one tagged variant.  The numeric evaluation rules behind the
//! variants (series sums, finite differences, Horner's rule) are
//! floating-point arithmetic and live with the caller; the catalog owns
//! the names, under which records are grouped and files are written,
//! and the sweep plan over the case × method cross product.

use vstd::prelude::*;

verus! {

/// The two series truncations that approximate `exp(-x)`: the
/// alternating Taylor series, and the reciprocal of the series of
/// `exp(x)`.
#[derive(PartialEq, Eq, Structural, Clone, Copy, Debug)]
pub enum ApproximationType {
    Alternating,
    Reciprocal,
}

/// What `ApproximationType::name` returns.
pub open spec fn approximation_name(t: ApproximationType) -> Seq<char> {
    match t {
        ApproximationType::Alternating => "Alternating"@,
        ApproximationType::Reciprocal => "Reciprocal"@,
    }
}

impl ApproximationType {
    /// The display name of the series, which also names its output
    /// directory.
    pub fn name(&self) -> (r: String)
        ensures
            r@ == approximation_name(*self),
    {
        match self {
            ApproximationType::Alternating => "Alternating".to_owned(),
            ApproximationType::Reciprocal => "Reciprocal".to_owned(),
        }
    }
}

/// The registered derivative test cases: each pairs a scalar function
/// with its analytic derivative as the exact oracle.
#[derive(PartialEq, Eq, Structural, Clone, Copy, Debug)]
pub enum CaseId {
    /// `sqrt(x + 1)`, whose derivative is `1 / (2 sqrt(x + 1))`.
    SqrtXPlus1,
    /// `exp(x)`, its own derivative.
    ExpX,
}

/// What `CaseId::name` returns.
pub open spec fn case_name(c: CaseId) -> Seq<char> {
    match c {
        CaseId::SqrtXPlus1 => "sqrt(x+1)"@,
        CaseId::ExpX => "exp(x)"@,
    }
}

impl CaseId {
    /// The human-readable case name that keys grouping and naming.
    pub fn name(&self) -> (r: String)
        ensures
            r@ == case_name(*self),
    {
        match self {
            CaseId::SqrtXPlus1 => "sqrt(x+1)".to_owned(),
            CaseId::ExpX => "exp(x)".to_owned(),
        }
    }
}

/// The registered finite-difference estimators of `f'(x)`, each
/// parametrized by the step size `h`.
#[derive(PartialEq, Eq, Structural, Clone, Copy, Debug)]
pub enum MethodId {
    /// `(f(x + h) - f(x)) / h`.
    Forward,
    /// `(f(x) - f(x - h)) / h`.
    Backward,
    /// `(f(x + h) - f(x - h)) / (2 h)`.
    Center,
    /// The Richardson-style combination of two forward estimates,
    /// `2 D(h) - D(2 h)`.
    Special,
}

/// What `MethodId::name` returns.
pub open spec fn method_name(m: MethodId) -> Seq<char> {
    match m {
        MethodId::Forward => "forward"@,
        MethodId::Backward => "backward"@,
        MethodId::Center => "center"@,
        MethodId::Special => "special"@,
    }
}

impl MethodId {
    /// The human-readable method name that keys grouping and naming.
    pub fn name(&self) -> (r: String)
        ensures
            r@ == method_name(*self),
    {
        match self {
            MethodId::Forward => "forward".to_owned(),
            MethodId::Backward => "backward".to_owned(),
            MethodId::Center => "center".to_owned(),
            MethodId::Special => "special".to_owned(),
        }
    }
}

/// The sweep plan of the derivative comparison: the case × method
/// cross product, case-major.
pub open spec fn compare_plan_spec() -> Seq<(CaseId, MethodId)> {
    seq![
        (CaseId::SqrtXPlus1, MethodId::Forward),
        (CaseId::SqrtXPlus1, MethodId::Backward),
        (CaseId::SqrtXPlus1, MethodId::Center),
        (CaseId::SqrtXPlus1, MethodId::Special),
        (CaseId::ExpX, MethodId::Forward),
        (CaseId::ExpX, MethodId::Backward),
        (CaseId::ExpX, MethodId::Center),
        (CaseId::ExpX, MethodId::Special),
    ]
}

/// The case × method pairs of the derivative comparison, case-major:
/// every registered case is swept with every registered method.
pub fn compare_plan() -> (r: Vec<(CaseId, MethodId)>)
    ensures
        r@ == compare_plan_spec(),
{
    let mut r: Vec<(CaseId, MethodId)> = Vec::new();
    r.push((CaseId::SqrtXPlus1, MethodId::Forward));
    r.push((CaseId::SqrtXPlus1, MethodId::Backward));
    r.push((CaseId::SqrtXPlus1, MethodId::Center));
    r.push((CaseId::SqrtXPlus1, MethodId::Special));
    r.push((CaseId::ExpX, MethodId::Forward));
    r.push((CaseId::ExpX, MethodId::Backward));
    r.push((CaseId::ExpX, MethodId::Center));
    r.push((CaseId::ExpX, MethodId::Special));
    proof {
        assert(r@ =~= compare_plan_spec());
    }
    r
}

} // verus!
