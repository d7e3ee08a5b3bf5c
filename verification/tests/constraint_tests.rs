use csp_engine::constraint::{AllDifferentConstraint, AllEqualConstraint, Constraint,
    ConstraintError, ConstraintKind, ConstraintVariable, ExactSumConstraint, FunctionConstraint,
    InSetConstraint, MaxSumConstraint, MinSumConstraint, NotInSetConstraint, SomeInSetConstraint,
    SomeNotInSetConstraint};
use csp_engine::domain::Domain;

fn doms(sets: &[&[i32]]) -> Vec<Domain> {
    sets.iter().map(|s| Domain::new(s)).collect()
}

fn sorted(mut v: Vec<i32>) -> Vec<i32> {
    v.sort();
    v
}

#[test]
fn all_different_detects_duplicates() {
    let c = AllDifferentConstraint::new();
    let vars = vec![0, 1, 2];
    let mut d = doms(&[&[1, 2, 3], &[1, 2, 3], &[1, 2, 3]]);
    let mut asg = vec![Some(1), Some(1), None];
    assert_eq!(c.call(&vars, &mut d, &mut asg, false), Ok(false));
    let mut asg2 = vec![Some(1), Some(2), Some(3)];
    assert_eq!(c.call(&vars, &mut d, &mut asg2, false), Ok(true));
}

#[test]
fn all_different_forward_check_prunes_used_values() {
    // Assigning the first variable 1 removes 1 from the other domains.
    let c = AllDifferentConstraint::new();
    let vars = vec![0, 1, 2];
    let mut d = doms(&[&[1, 2, 3], &[1, 2, 3], &[1, 2, 3]]);
    let mut asg = vec![Some(1), None, None];
    assert_eq!(c.call(&vars, &mut d, &mut asg, true), Ok(true));
    assert_eq!(sorted(d[1].values.clone()), vec![2, 3]);
    assert_eq!(sorted(d[2].values.clone()), vec![2, 3]);
}

#[test]
fn all_different_fails_when_domain_empties() {
    // A variable whose domain holds only the already-used value must fail.
    let c = AllDifferentConstraint::new();
    let vars = vec![0, 1];
    let mut d = doms(&[&[1, 2], &[1]]);
    let mut asg = vec![Some(1), None];
    assert_eq!(c.call(&vars, &mut d, &mut asg, true), Ok(false));
}

#[test]
fn all_equal_checks_and_prunes() {
    let c = AllEqualConstraint::new();
    let vars = vec![0, 1, 2];
    let mut d = doms(&[&[1, 2], &[1, 2, 3], &[1, 2]]);
    let mut asg = vec![Some(2), None, None];
    assert_eq!(c.call(&vars, &mut d, &mut asg, true), Ok(true));
    assert_eq!(d[1].values, vec![2]);
    assert_eq!(d[2].values, vec![2]);
    let mut asg2 = vec![Some(2), Some(3), None];
    let mut d2 = doms(&[&[1, 2], &[1, 2, 3], &[1, 2]]);
    assert_eq!(c.call(&vars, &mut d2, &mut asg2, false), Ok(false));
}

#[test]
fn all_equal_fails_when_fixed_value_is_absent() {
    let c = AllEqualConstraint::new();
    let vars = vec![0, 1];
    let mut d = doms(&[&[5], &[1, 2]]);
    let mut asg = vec![Some(5), None];
    assert_eq!(c.call(&vars, &mut d, &mut asg, true), Ok(false));
}

#[test]
fn max_sum_accepts_totals_up_to_the_bound() {
    let c = MaxSumConstraint::new(5, None);
    let vars = vec![0, 1];
    let mut d = doms(&[&[1, 2, 3], &[1, 2, 3]]);
    let mut asg = vec![Some(2), Some(3)];
    assert_eq!(c.call(&vars, &mut d, &mut asg, false), Ok(true));
    let mut asg2 = vec![Some(3), Some(3)];
    assert_eq!(c.call(&vars, &mut d, &mut asg2, false), Ok(false));
}

#[test]
fn max_sum_forward_check_prunes_overshooting_values() {
    let c = MaxSumConstraint::new(4, None);
    let vars = vec![0, 1];
    let mut d = doms(&[&[1, 2, 3], &[1, 2, 3]]);
    let mut asg = vec![Some(3), None];
    assert_eq!(c.call(&vars, &mut d, &mut asg, true), Ok(true));
    assert_eq!(d[1].values, vec![1]);
}

#[test]
fn max_sum_respects_multipliers() {
    // Weighted: 2*x0 + 1*x1 <= 6.
    let c = MaxSumConstraint::new(6, Some(vec![2, 1]));
    let vars = vec![0, 1];
    let mut d = doms(&[&[1, 2, 3], &[1, 2, 3]]);
    let mut asg = vec![Some(3), None];
    assert_eq!(c.call(&vars, &mut d, &mut asg, false), Ok(true));
    let mut asg2 = vec![Some(3), Some(1)];
    assert_eq!(c.call(&vars, &mut d, &mut asg2, false), Ok(false));
}

#[test]
fn exact_sum_partial_versus_complete() {
    // With target 5 a partial sum of 5 is still acceptable, but a complete
    // assignment must hit the target exactly; the maximum-sum rule keeps
    // accepting any total at or below the bound.
    let exact = ExactSumConstraint::new(5, None);
    let max = MaxSumConstraint::new(5, None);
    let vars = vec![0, 1];
    let mut d = doms(&[&[2, 3, 5], &[1, 2, 3]]);
    let mut partial = vec![Some(5), None];
    assert_eq!(exact.call(&vars, &mut d, &mut partial, false), Ok(true));
    let mut complete = vec![Some(2), Some(2)];
    assert_eq!(exact.call(&vars, &mut d, &mut complete, false), Ok(false));
    assert_eq!(max.call(&vars, &mut d, &mut complete, false), Ok(true));
    let mut on_target = vec![Some(2), Some(3)];
    assert_eq!(exact.call(&vars, &mut d, &mut on_target, false), Ok(true));
    let mut over = vec![Some(5), Some(3)];
    assert_eq!(exact.call(&vars, &mut d, &mut over, false), Ok(false));
    assert_eq!(max.call(&vars, &mut d, &mut over, false), Ok(false));
}

#[test]
fn exact_sum_reports_emptied_domains() {
    let c = ExactSumConstraint::new(3, None);
    let vars = vec![0, 1];
    let mut d = doms(&[&[2], &[5, 6]]);
    let mut asg = vec![Some(2), None];
    assert_eq!(c.call(&vars, &mut d, &mut asg, true), Ok(false));
    assert!(d[1].values.is_empty());
}

#[test]
fn min_sum_is_checked_only_when_complete() {
    let c = MinSumConstraint::new(4, None);
    let vars = vec![0, 1];
    let mut d = doms(&[&[1, 2], &[1, 2]]);
    let mut partial = vec![Some(1), None];
    assert_eq!(c.call(&vars, &mut d, &mut partial, true), Ok(true));
    // No pruning happens even under forward checking.
    assert_eq!(d[1].values, vec![1, 2]);
    let mut low = vec![Some(1), Some(2)];
    assert_eq!(c.call(&vars, &mut d, &mut low, false), Ok(false));
    let mut high = vec![Some(2), Some(2)];
    assert_eq!(c.call(&vars, &mut d, &mut high, false), Ok(true));
}

#[test]
fn in_set_call_is_a_fatal_error() {
    // Set-membership constraints are resolved by preprocessing; invoking
    // their check at search time reports the engine error rather than a
    // silent violation.
    let c = InSetConstraint::new(vec![1, 2]);
    let vars = vec![0];
    let mut d = doms(&[&[1, 2, 3]]);
    let mut asg = vec![Some(1)];
    let r = c.call(&vars, &mut d, &mut asg, false);
    assert!(r.is_err());
    let n = NotInSetConstraint::new(vec![1]);
    assert!(n.call(&vars, &mut d, &mut asg, false).is_err());
}

#[test]
fn in_set_pre_process_filters_domains() {
    let c = InSetConstraint::new(vec![2, 4]);
    let vars = vec![0];
    let mut d = doms(&[&[1, 2, 3, 4, 5]]);
    let remove = c.pre_process(&vars, &mut d);
    assert!(remove);
    assert_eq!(d[0].values, vec![2, 4]);
}

#[test]
fn not_in_set_pre_process_filters_domains() {
    let c = NotInSetConstraint::new(vec![2, 4]);
    let vars = vec![0];
    let mut d = doms(&[&[1, 2, 3, 4, 5]]);
    let remove = c.pre_process(&vars, &mut d);
    assert!(remove);
    assert_eq!(d[0].values, vec![1, 3, 5]);
}

#[test]
fn some_in_set_exact_counting() {
    // Set {1,2}, n = 2, exact: two found and one open is still achievable.
    let c = SomeInSetConstraint::new(vec![1, 2], 2, true);
    let vars = vec![0, 1, 2];
    let mut d = doms(&[&[1], &[2], &[1, 3]]);
    let mut asg = vec![Some(1), Some(2), None];
    assert_eq!(c.call(&vars, &mut d, &mut asg, true), Ok(true));
    // The needed count is already reached, so nothing is forced out.
    assert_eq!(d[2].values, vec![1, 3]);
    // Complete with a third in-set value: the exact count is exceeded.
    let mut all_in = vec![Some(1), Some(2), Some(1)];
    assert_eq!(c.call(&vars, &mut d, &mut all_in, false), Ok(false));
    let mut two_in = vec![Some(1), Some(2), Some(3)];
    assert_eq!(c.call(&vars, &mut d, &mut two_in, false), Ok(true));
}

#[test]
fn some_in_set_forces_membership_when_counts_match() {
    // One in-set value found, one needed, one variable open: every value
    // outside the set must be hidden from the open variable.
    let c = SomeInSetConstraint::new(vec![1, 2], 2, true);
    let vars = vec![0, 1, 2];
    let mut d = doms(&[&[1], &[7], &[2, 9]]);
    let mut asg = vec![Some(1), Some(7), None];
    assert_eq!(c.call(&vars, &mut d, &mut asg, true), Ok(true));
    assert_eq!(d[2].values, vec![2]);
}

#[test]
fn some_not_in_set_counts_outsiders() {
    let c = SomeNotInSetConstraint::new(vec![1, 2], 1, false);
    let vars = vec![0, 1];
    let mut d = doms(&[&[1, 5], &[1, 5]]);
    let mut none_out = vec![Some(1), Some(2)];
    assert_eq!(c.call(&vars, &mut d, &mut none_out, false), Ok(false));
    let mut one_out = vec![Some(1), Some(5)];
    assert_eq!(c.call(&vars, &mut d, &mut one_out, false), Ok(true));
}

#[test]
fn function_constraint_judges_complete_tuples() {
    let even_sum = |vals: Vec<i32>| -> Result<bool, ConstraintError> {
        Ok(vals.iter().sum::<i32>() % 2 == 0)
    };
    let c = FunctionConstraint::new(even_sum, false);
    let vars = vec![0, 1];
    let mut d = doms(&[&[1, 2], &[1, 2]]);
    let mut ok = vec![Some(1), Some(1)];
    assert_eq!(c.call(&vars, &mut d, &mut ok, false), Ok(true));
    let mut bad = vec![Some(1), Some(2)];
    assert_eq!(c.call(&vars, &mut d, &mut bad, false), Ok(false));
}

#[test]
fn function_constraint_prunes_through_trials() {
    // With one open variable, each candidate is trial-evaluated and the
    // failing ones are hidden.
    let even_sum = |vals: Vec<i32>| -> Result<bool, ConstraintError> {
        Ok(vals.iter().sum::<i32>() % 2 == 0)
    };
    let c = FunctionConstraint::new(even_sum, true);
    let vars = vec![0, 1];
    let mut d = doms(&[&[1], &[1, 2, 3]]);
    let mut asg = vec![Some(1), None];
    assert_eq!(c.call(&vars, &mut d, &mut asg, true), Ok(true));
    assert_eq!(d[1].values, vec![1, 3]);
    assert_eq!(asg, vec![Some(1), None]);
}

#[test]
fn function_constraint_propagates_predicate_errors() {
    let failing = |_vals: Vec<i32>| -> Result<bool, ConstraintError> {
        Err(ConstraintError::new("the predicate cannot judge this tuple"))
    };
    let c = FunctionConstraint::new(failing, false);
    let vars = vec![0];
    let mut d = doms(&[&[1]]);
    let mut asg = vec![Some(1)];
    assert!(c.call(&vars, &mut d, &mut asg, false).is_err());
}

#[test]
fn forward_check_helper_prunes_the_lone_open_variable() {
    let c = AllDifferentConstraint::new();
    let vars = vec![0, 1];
    let mut d = doms(&[&[1, 2], &[1, 2]]);
    let mut asg = vec![Some(1), None];
    assert!(c.forward_check(&vars, &mut d, &mut asg));
    assert_eq!(d[1].values, vec![2]);
    assert_eq!(asg, vec![Some(1), None]);
    // With two open variables the helper cannot identify the lone one.
    let mut asg2 = vec![None, None];
    let mut d2 = doms(&[&[1, 2], &[1, 2]]);
    assert!(!c.forward_check(&vars, &mut d2, &mut asg2));
}

#[test]
fn default_pre_process_bakes_unary_constraints() {
    let c = MaxSumConstraint::new(3, None);
    let vars = vec![0];
    let mut d = doms(&[&[1, 2, 3, 4, 5]]);
    let remove = c.pre_process(&vars, &mut d);
    assert!(remove);
    assert_eq!(d[0].values, vec![1, 2, 3]);
}

#[test]
fn max_sum_pre_process_narrows_multivariable_lists() {
    let c = MaxSumConstraint::new(4, None);
    let vars = vec![0, 1];
    let mut d = doms(&[&[1, 5], &[2, 9]]);
    let remove = c.pre_process(&vars, &mut d);
    assert!(!remove);
    assert_eq!(d[0].values, vec![1]);
    assert_eq!(d[1].values, vec![2]);
}

#[test]
fn constraint_error_carries_its_message() {
    let e = ConstraintError::new("a malformed registration");
    assert_eq!(e.message(), "a malformed registration");
}

#[test]
fn constraint_variable_pairs_constraint_and_list() {
    let cv = ConstraintVariable::new(
        ConstraintKind::AllDifferent(AllDifferentConstraint::new()),
        vec![0, 2],
    );
    assert_eq!(cv.variables, vec![0, 2]);
    assert!(matches!(cv.constraint, ConstraintKind::AllDifferent(_)));
}

#[test]
fn kind_check_valid_checks_multiplier_alignment() {
    let good = ConstraintKind::MaxSum(MaxSumConstraint::new(5, Some(vec![1, 2])));
    let vars = vec![0, 1];
    assert!(good.check_valid(&vars));
    let bad = ConstraintKind::MaxSum(MaxSumConstraint::new(5, Some(vec![1])));
    assert!(!bad.check_valid(&vars));
    let dup = ConstraintKind::ExactSum(ExactSumConstraint::new(5, None));
    assert!(!dup.check_valid(&vec![0, 0]));
}

#[test]
fn some_not_in_set_forces_exclusion_when_counts_match() {
    // One outsider found, one more needed, one variable open: every value
    // inside the set must be hidden from the open variable.
    let c = SomeNotInSetConstraint::new(vec![1, 2], 2, false);
    let vars = vec![0, 1, 2];
    let mut d = doms(&[&[7], &[1], &[2, 9]]);
    let mut asg = vec![Some(7), Some(1), None];
    assert_eq!(c.call(&vars, &mut d, &mut asg, true), Ok(true));
    assert_eq!(d[2].values, vec![9]);
}

#[test]
fn exact_sum_accepts_partial_sum_at_target() {
    // The running sum may sit exactly at the target while variables remain
    // open; only a complete assignment off the target is rejected.
    let c = ExactSumConstraint::new(5, None);
    let vars = vec![0, 1, 2];
    let mut d = doms(&[&[5], &[0, 1], &[0, 1]]);
    let mut asg = vec![Some(5), None, None];
    assert_eq!(c.call(&vars, &mut d, &mut asg, false), Ok(true));
    let mut over = vec![Some(5), Some(1), Some(0)];
    assert_eq!(c.call(&vars, &mut d, &mut over, false), Ok(false));
    let mut exact = vec![Some(5), Some(0), Some(0)];
    assert_eq!(c.call(&vars, &mut d, &mut exact, false), Ok(true));
}
