use convergence::naming::slug;

#[test]
fn slug_of_sqrt_case_name() {
    assert_eq!(slug("sqrt(x+1)"), "sqrt_x_1");
}

#[test]
fn slug_is_case_and_separator_insensitive() {
    assert_eq!(slug("sqrt(x+1)"), slug("SQRT X+1"));
    assert_eq!(slug("exp(x)"), slug("exp x"));
    assert_eq!(slug("a--b__c"), slug("A b C"));
}

#[test]
fn slug_collapses_runs_and_trims_edges() {
    assert_eq!(slug("  hello,   world!! "), "hello_world");
    assert_eq!(slug("__a__b__"), "a_b");
    assert_eq!(slug("(x)"), "x");
}

#[test]
fn slug_of_empty_and_separator_only_names() {
    assert_eq!(slug(""), "");
    assert_eq!(slug("()!  ~"), "");
}

#[test]
fn slug_keeps_digits_and_lowers_letters() {
    assert_eq!(slug("Forward2ndOrder"), "forward2ndorder");
    assert_eq!(slug("H = 0.5"), "h_0_5");
}

#[test]
fn slug_of_unicode_separators() {
    assert_eq!(slug("exp·x→1"), "exp_x_1");
}
