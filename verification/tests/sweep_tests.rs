use convergence::catalog::{ApproximationType, CaseId, MethodId, compare_plan};
use convergence::metrics::observed_order_defined;
use convergence::sweep::sweep;

fn bits(xs: &[f64]) -> Vec<u64> {
    xs.iter().map(|x| x.to_bits()).collect()
}

#[test]
fn sweep_has_one_record_per_parameter() {
    // The record-count invariant, for every case/method pair of the plan.
    let params = bits(&[0.5, 0.25, 0.125]);
    let approxs = bits(&[1.0, 1.1, 1.2]);
    let errs = bits(&[0.3, 0.2, 0.1]);
    let cands = bits(&[0.0, 0.585, 1.0]);
    for (case, method) in compare_plan() {
        let rows = sweep(
            case.name().as_str(),
            method.name().as_str(),
            &params,
            &approxs,
            &errs,
            &cands,
        );
        assert_eq!(rows.len(), params.len());
        for r in &rows {
            assert_eq!(r.case, case.name());
            assert_eq!(r.method, method.name());
        }
    }
}

#[test]
fn sweep_copies_step_values_in_traversal_order() {
    let params = bits(&[0.5, 0.25]);
    let approxs = bits(&[2.0, 3.0]);
    let errs = bits(&[-0.5, 0.25]);
    let cands = bits(&[0.0, 1.0]);
    let rows = sweep("exp(x)", "forward", &params, &approxs, &errs, &cands);
    assert_eq!(rows[0].h, 0.5f64.to_bits());
    assert_eq!(rows[1].h, 0.25f64.to_bits());
    assert_eq!(rows[0].approx, 2.0f64.to_bits());
    assert_eq!(rows[1].err, 0.25f64.to_bits());
}

#[test]
fn first_record_has_no_order() {
    let params = bits(&[0.5]);
    let vals = bits(&[1.0]);
    let errs = bits(&[0.5]);
    let rows = sweep("exp(x)", "forward", &params, &vals, &errs, &vals);
    assert!(rows[0].order.is_none());
}

#[test]
fn order_is_undefined_on_zero_errors() {
    // Undefined whenever either adjacent error is exactly zero, and the
    // previous error is carried forward regardless.
    let params = bits(&[0.5, 0.25, 0.125, 0.0625]);
    let approxs = bits(&[1.0, 1.0, 1.0, 1.0]);
    let errs = bits(&[0.4, 0.0, 0.1, 0.05]);
    let cands = bits(&[9.0, 9.0, 9.0, 1.0]);
    let rows = sweep("exp(x)", "center", &params, &approxs, &errs, &cands);
    assert!(rows[0].order.is_none());
    assert!(rows[1].order.is_none()); // current error is zero
    assert!(rows[2].order.is_none()); // previous error is zero
    assert_eq!(rows[3].order, Some(1.0f64.to_bits()));
}

#[test]
fn negative_zero_error_counts_as_zero() {
    assert!(!observed_order_defined((-0.0f64).to_bits(), 1.0f64.to_bits()));
    assert!(!observed_order_defined(1.0f64.to_bits(), (-0.0f64).to_bits()));
    assert!(observed_order_defined((-1.0f64).to_bits(), 1.0f64.to_bits()));
}

#[test]
fn non_finite_errors_do_not_block_order() {
    // Non-finite values propagate; only exact zeros short-circuit.
    assert!(observed_order_defined(f64::INFINITY.to_bits(), 1.0f64.to_bits()));
    assert!(observed_order_defined(f64::NAN.to_bits(), 1.0f64.to_bits()));
}

#[test]
fn exact_halving_of_the_error_gives_an_integer_order() {
    // errCurr = errPrev / 2^k exactly: the ln-ratio candidate is k (up
    // to the last ulp of the logarithms) and the engine keeps it.
    let err_prev = 0.75f64;
    let err_curr = err_prev / 8.0; // k = 3, exact in binary64
    let cand = (err_prev.abs() / err_curr.abs()).ln() / 2.0f64.ln();
    assert!((cand - 3.0).abs() < 1e-12);
    let params = bits(&[0.5, 0.25]);
    let approxs = bits(&[1.0, 1.0]);
    let errs = vec![err_prev.to_bits(), err_curr.to_bits()];
    let cands = vec![0.0f64.to_bits(), cand.to_bits()];
    let rows = sweep("exp(x)", "center", &params, &approxs, &errs, &cands);
    assert_eq!(rows[1].order, Some(cand.to_bits()));
}

#[test]
fn catalog_names_match_registry() {
    assert_eq!(ApproximationType::Alternating.name(), "Alternating");
    assert_eq!(ApproximationType::Reciprocal.name(), "Reciprocal");
    assert_eq!(CaseId::SqrtXPlus1.name(), "sqrt(x+1)");
    assert_eq!(CaseId::ExpX.name(), "exp(x)");
    assert_eq!(MethodId::Forward.name(), "forward");
    assert_eq!(MethodId::Backward.name(), "backward");
    assert_eq!(MethodId::Center.name(), "center");
    assert_eq!(MethodId::Special.name(), "special");
    let plan = compare_plan();
    assert_eq!(plan.len(), 8);
    assert_eq!(plan[0], (CaseId::SqrtXPlus1, MethodId::Forward));
    assert_eq!(plan[7], (CaseId::ExpX, MethodId::Special));
}
