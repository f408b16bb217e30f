use convergence::bits::F64_NAN_BITS;
use convergence::store::{WritePlan, group_and_sort, group_rows, sort_rows_desc, write_plan};
use convergence::sweep::Row;

fn row(case: &str, method: &str, h: f64, approx: f64, err: f64, order: Option<f64>) -> Row {
    Row {
        case: case.to_string(),
        method: method.to_string(),
        h: h.to_bits(),
        approx: approx.to_bits(),
        err: err.to_bits(),
        order: order.map(|o| o.to_bits()),
    }
}

fn two_group_rows() -> Vec<Row> {
    vec![
        row("exp(x)", "forward", 0.25, 2.6, 0.1, None),
        row("exp(x)", "center", 0.5, 2.8, -0.05, None),
        row("exp(x)", "forward", 0.5, 2.9, 0.2, Some(1.0)),
        row("exp(x)", "center", 0.25, 2.7, -0.01, Some(2.0)),
    ]
}

#[test]
fn grouping_keeps_first_met_order_and_input_order_within_groups() {
    let rows = two_group_rows();
    let groups = group_rows(&rows);
    assert_eq!(groups.len(), 2);
    assert_eq!(groups[0].method, "forward");
    assert_eq!(groups[1].method, "center");
    assert_eq!(groups[0].rows.len(), 2);
    assert_eq!(groups[0].rows[0].h, 0.25f64.to_bits());
    assert_eq!(groups[0].rows[1].h, 0.5f64.to_bits());
}

#[test]
fn sorting_is_by_h_descending() {
    let rows = vec![
        row("exp(x)", "forward", 0.125, 1.0, 0.1, None),
        row("exp(x)", "forward", 0.5, 2.0, 0.2, None),
        row("exp(x)", "forward", 0.25, 3.0, 0.3, None),
    ];
    let sorted = sort_rows_desc(rows);
    let hs: Vec<f64> = sorted.iter().map(|r| f64::from_bits(r.h)).collect();
    assert_eq!(hs, vec![0.5, 0.25, 0.125]);
    // The row payload travels with its step.
    assert_eq!(sorted[0].approx, 2.0f64.to_bits());
}

#[test]
fn sorting_is_by_denoted_value_not_bit_pattern() {
    // A negative step must sort below every positive one, though its
    // bit pattern is the larger integer.
    let rows = vec![
        row("exp(x)", "forward", -1.0, 1.0, 0.1, None),
        row("exp(x)", "forward", 0.5, 2.0, 0.2, None),
        row("exp(x)", "forward", 0.25, 3.0, 0.3, None),
    ];
    let sorted = sort_rows_desc(rows);
    let hs: Vec<f64> = sorted.iter().map(|r| f64::from_bits(r.h)).collect();
    assert_eq!(hs, vec![0.5, 0.25, -1.0]);
}

#[test]
fn sorting_a_nan_step_does_not_panic() {
    // Non-finite values must ride through the pipeline; the order key
    // gives every pattern a fixed place, so nothing unwraps or panics.
    let rows = vec![
        row("exp(x)", "forward", f64::NAN, 1.0, 0.1, None),
        row("exp(x)", "forward", 0.5, 2.0, 0.2, None),
    ];
    let sorted = sort_rows_desc(rows);
    assert_eq!(sorted.len(), 2);
    assert!(sorted.iter().any(|r| f64::from_bits(r.h).is_nan()));
    assert!(sorted.iter().any(|r| f64::from_bits(r.h) == 0.5));
}

#[test]
fn plan_writes_five_arrays_per_group_with_disjoint_names() {
    // Two distinct (case, method) pairs produce two disjoint sets of
    // output files; no array values bleed across groups.
    let rows = two_group_rows();
    let plan = write_plan(&rows);
    assert_eq!(plan.arrays.len(), 10);
    let names: Vec<&str> = plan.arrays.iter().map(|a| a.name.as_str()).collect();
    for (i, n1) in names.iter().enumerate() {
        for (j, n2) in names.iter().enumerate() {
            if i != j {
                assert_ne!(n1, n2);
            }
        }
    }
    assert!(names.contains(&"exp_x__forward__h"));
    assert!(names.contains(&"exp_x__forward__approx"));
    assert!(names.contains(&"exp_x__forward__err"));
    assert!(names.contains(&"exp_x__forward__abs_err"));
    assert!(names.contains(&"exp_x__forward__order"));
    assert!(names.contains(&"exp_x__center__h"));
    assert!(names.contains(&"exp_x__center__order"));
}

#[test]
fn plan_sorts_each_group_and_derives_columns() {
    let rows = two_group_rows();
    let plan = write_plan(&rows);
    // Groups come in ascending (case, method) key order, so the
    // "center" group stands first; its h column is sorted descending.
    assert_eq!(plan.arrays[0].name, "exp_x__center__h");
    assert_eq!(plan.arrays[0].values, vec![0.5f64.to_bits(), 0.25f64.to_bits()]);
    // The approx and err columns follow the sorted order.
    assert_eq!(plan.arrays[1].values, vec![2.8f64.to_bits(), 2.7f64.to_bits()]);
    assert_eq!(
        plan.arrays[2].values,
        vec![(-0.05f64).to_bits(), (-0.01f64).to_bits()]
    );
    // The absolute-error column clears the sign bit.
    assert_eq!(
        plan.arrays[3].values,
        vec![0.05f64.to_bits(), 0.01f64.to_bits()]
    );
    // Undefined orders become the not-a-number pattern, and each order
    // value travels with its record through the sort: the store keeps
    // the originally computed orders, it does not recompute them for
    // the sorted adjacency.
    assert_eq!(plan.arrays[4].values, vec![F64_NAN_BITS, 2.0f64.to_bits()]);
    // The "forward" group follows with its own columns.
    assert_eq!(plan.arrays[5].name, "exp_x__forward__h");
    assert_eq!(plan.arrays[9].values, vec![1.0f64.to_bits(), F64_NAN_BITS]);
    assert!(f64::from_bits(F64_NAN_BITS).is_nan());
}

#[test]
fn plan_writes_exact_entry_once_per_case() {
    let mut rows = two_group_rows();
    rows.push(row("sqrt(x+1)", "forward", 0.5, 0.35, 0.004, None));
    let plan = write_plan(&rows);
    assert_eq!(plan.exacts.len(), 2);
    assert_eq!(plan.exacts[0].name, "exp_x__exact");
    assert_eq!(plan.exacts[1].name, "sqrt_x_1__exact");
    // The entry reconstructs the exact value from the first sorted row
    // of the case's first group in key order — here (exp(x), center).
    assert_eq!(plan.exacts[0].approx, 2.8f64.to_bits());
    assert_eq!(plan.exacts[0].err, (-0.05f64).to_bits());
    let exact = f64::from_bits(plan.exacts[0].approx) + f64::from_bits(plan.exacts[0].err);
    assert!((exact - 2.75).abs() < 1e-12);
}

#[test]
fn plan_is_independent_of_concatenation_order() {
    // The key-ordered traversal makes the whole plan — arrays and the
    // case-level exact entries alike — independent of the order in
    // which the per-group sweeps were concatenated.
    let rows = two_group_rows();
    let mut reversed = two_group_rows();
    reversed.reverse();
    let p1 = write_plan(&rows);
    let p2 = write_plan(&reversed);
    assert!(plans_equal(&p1, &p2));
}

fn plans_equal(a: &WritePlan, b: &WritePlan) -> bool {
    a.arrays.len() == b.arrays.len()
        && a.exacts.len() == b.exacts.len()
        && a
            .arrays
            .iter()
            .zip(b.arrays.iter())
            .all(|(x, y)| x.name == y.name && x.values == y.values)
        && a
            .exacts
            .iter()
            .zip(b.exacts.iter())
            .all(|(x, y)| x.name == y.name && x.approx == y.approx && x.err == y.err)
}

#[test]
fn planning_twice_yields_identical_output() {
    // The plan is a function of the records alone, so writing twice
    // writes bit-identical arrays under the same names.
    let rows = two_group_rows();
    let p1 = write_plan(&rows);
    let p2 = write_plan(&rows);
    assert!(plans_equal(&p1, &p2));
    let g1 = group_and_sort(&rows);
    let g2 = group_and_sort(&rows);
    assert_eq!(g1.len(), g2.len());
}

#[test]
fn empty_input_plans_nothing() {
    let rows: Vec<Row> = vec![];
    let plan = write_plan(&rows);
    assert_eq!(plan.arrays.len(), 0);
    assert_eq!(plan.exacts.len(), 0);
}
