//! End-to-end scenarios: the numeric evaluation rules live with the
//! caller, so the tests compute them here in plain floating point and
//! drive the verified engine with the results.

use convergence::bits::halving_steps;
use convergence::store::write_plan;
use convergence::sweep::sweep;

fn p_standard(x: f64, coeff: &[f64]) -> f64 {
    let mut term: f64 = 1.0;
    coeff.iter().fold(0.0, |acc, &a| {
        let s = acc + a * term;
        term *= x;
        s
    })
}

fn p_horners(x: f64, coeff: &[f64]) -> f64 {
    coeff.iter().rev().fold(0.0, |acc, &a| acc.mul_add(x, a))
}

#[test]
fn horner_beats_naive_summation_on_the_wilkinson_like_polynomial() {
    // (x - 2)^9 over 1000 evenly spaced points in [1.92, 2.08]: the
    // maximum absolute error of Horner's rule stays strictly below the
    // naive left-to-right summation's.
    let coeff = [
        -512.0, 2304.0, -4608.0, 5376.0, -4032.0, 2016.0, -672.0, 144.0, -18.0, 1.0,
    ];
    let n = 1000usize;
    let (a, b) = (1.92f64, 2.08f64);
    let h = (b - a) / (n as f64);
    let mut max_standard = 0.0f64;
    let mut max_horners = 0.0f64;
    for k in 0..n {
        let x = h.mul_add(k as f64, a);
        let exact = (x - 2.0).powi(9);
        max_standard = max_standard.max((exact - p_standard(x, &coeff)).abs());
        max_horners = max_horners.max((exact - p_horners(x, &coeff)).abs());
    }
    assert!(max_horners < max_standard);
}

fn alternating(x: i32, n: i32) -> f64 {
    let x = x as f64;
    let mut term: f64 = 1.0;
    let mut sum: f64 = 1.0;
    for i in 1..=n {
        term *= (-x) / (i as f64);
        sum += term;
    }
    sum
}

#[test]
fn alternating_series_error_shrinks_with_the_truncation_order() {
    // exp(-x) at x = 1 for truncation orders 1..=100: the relative
    // error is non-increasing up to rounding jitter (once the sum sits
    // within an ulp of the limit, adding a term can move it by one ulp
    // either way) and converges toward zero.
    let exact = f64::exp(-1.0);
    let jitter = 4.0 * f64::EPSILON;
    let mut prev = f64::INFINITY;
    for n in 1..=100 {
        let approx = alternating(1, n);
        let rel = (approx - exact).abs() / exact.abs();
        assert!(
            rel <= prev + jitter,
            "error grew at order {}: {} > {}",
            n,
            rel,
            prev
        );
        prev = rel;
    }
    assert!(prev < 1e-15);
}

#[test]
fn centered_difference_orders_cluster_near_two() {
    // exp'(x) at x = 1 by the centered difference over 12 halvings of
    // h = 0.5: the sweep's empirical orders settle near 2, the
    // method's accuracy order.
    let x = 1.0f64;
    let exact = f64::exp(x);
    let hs_bits = halving_steps(0.5f64.to_bits(), 12);
    let hs: Vec<f64> = hs_bits.iter().map(|b| f64::from_bits(*b)).collect();
    let approxs: Vec<f64> = hs
        .iter()
        .map(|h| (f64::exp(x + h) - f64::exp(x - h)) / (2.0 * h))
        .collect();
    let errs: Vec<f64> = approxs.iter().map(|a| exact - a).collect();
    let mut cands: Vec<f64> = vec![0.0];
    for i in 1..errs.len() {
        cands.push((errs[i - 1].abs() / errs[i].abs()).ln() / 2.0f64.ln());
    }
    let rows = sweep(
        "exp(x)",
        "center",
        &hs_bits,
        &approxs.iter().map(|a| a.to_bits()).collect::<Vec<u64>>(),
        &errs.iter().map(|e| e.to_bits()).collect::<Vec<u64>>(),
        &cands.iter().map(|c| c.to_bits()).collect::<Vec<u64>>(),
    );
    assert_eq!(rows.len(), 12);
    assert!(rows[0].order.is_none());
    for r in rows.iter().skip(1) {
        let order = f64::from_bits(r.order.expect("nonzero errors give an order"));
        assert!(
            (order - 2.0).abs() < 0.2,
            "empirical order {} strays from 2",
            order
        );
    }
}

#[test]
fn sweep_and_plan_work_end_to_end() {
    // One sweep per method for exp(x), planned for the store: 5 arrays
    // per method and one exact entry for the case.
    let x = 1.0f64;
    let exact = f64::exp(x);
    let hs_bits = halving_steps(0.5f64.to_bits(), 6);
    let hs: Vec<f64> = hs_bits.iter().map(|b| f64::from_bits(*b)).collect();
    let mut all_rows = Vec::new();
    let diffs: [(&str, fn(f64, f64) -> f64); 2] = [
        ("forward", |x, h| (f64::exp(x + h) - f64::exp(x)) / h),
        ("center", |x, h| (f64::exp(x + h) - f64::exp(x - h)) / (2.0 * h)),
    ];
    for (name, d) in diffs {
        let approxs: Vec<f64> = hs.iter().map(|h| d(x, *h)).collect();
        let errs: Vec<f64> = approxs.iter().map(|a| exact - a).collect();
        let mut cands: Vec<f64> = vec![0.0];
        for i in 1..errs.len() {
            cands.push((errs[i - 1].abs() / errs[i].abs()).ln() / 2.0f64.ln());
        }
        let rows = sweep(
            "exp(x)",
            name,
            &hs_bits,
            &approxs.iter().map(|a| a.to_bits()).collect::<Vec<u64>>(),
            &errs.iter().map(|e| e.to_bits()).collect::<Vec<u64>>(),
            &cands.iter().map(|c| c.to_bits()).collect::<Vec<u64>>(),
        );
        all_rows.extend(rows);
    }
    let plan = write_plan(&all_rows);
    assert_eq!(plan.arrays.len(), 10);
    assert_eq!(plan.exacts.len(), 1);
    assert_eq!(plan.exacts[0].name, "exp_x__exact");
    let reconstructed =
        f64::from_bits(plan.exacts[0].approx) + f64::from_bits(plan.exacts[0].err);
    assert!((reconstructed - exact).abs() < 1e-12);
}
