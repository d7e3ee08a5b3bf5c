use csp_engine::constraint::{AllDifferentConstraint, AllEqualConstraint, ConstraintError,
    ConstraintKind, ExactSumConstraint, FunctionConstraint, InSetConstraint, MaxSumConstraint,
    MinSumConstraint};
use csp_engine::problem::Problem;
use csp_engine::variable::Variable;

fn sorted(mut v: Vec<i32>) -> Vec<i32> {
    v.sort();
    v
}

#[test]
fn variables_get_consecutive_indices() {
    let mut p = Problem::new();
    let x = p.add_variable(Variable::new("X"), vec![1, 2]);
    let y = p.add_variable(Variable::new("Y"), vec![3]);
    assert_eq!(x, 0);
    assert_eq!(y, 1);
    assert_eq!(p.variables().len(), 2);
    assert_eq!(p.variables()[0].name(), "X");
    assert_eq!(p.domain(1).values, vec![3]);
}

#[test]
fn variable_marker_value() {
    let v = Variable::new("A");
    assert_eq!(v.name(), "A");
    assert_eq!(Variable::unassigned().name(), "UNASSIGNED");
}

#[test]
fn add_constraint_rejects_malformed_registrations() {
    let mut p = Problem::new();
    let x = p.add_variable(Variable::new("X"), vec![1, 2]);
    let empty = p.add_constraint(
        ConstraintKind::AllDifferent(AllDifferentConstraint::new()),
        vec![],
    );
    assert!(empty.is_err());
    let out_of_range = p.add_constraint(
        ConstraintKind::AllDifferent(AllDifferentConstraint::new()),
        vec![x, 5],
    );
    assert!(out_of_range.is_err());
    let misaligned = p.add_constraint(
        ConstraintKind::MaxSum(MaxSumConstraint::new(4, Some(vec![1, 2]))),
        vec![x],
    );
    assert!(misaligned.is_err());
    let fine = p.add_constraint(
        ConstraintKind::MaxSum(MaxSumConstraint::new(4, None)),
        vec![x],
    );
    assert!(fine.is_ok());
    assert_eq!(p.constraints().len(), 1);
}

#[test]
fn pre_process_resolves_in_set_completely() {
    // An in-set constraint is baked into the domain and leaves no registry
    // entry behind.
    let mut p = Problem::new();
    let x = p.add_variable(Variable::new("X"), vec![1, 2, 3, 4, 5]);
    p.add_constraint(ConstraintKind::InSet(InSetConstraint::new(vec![2, 4])), vec![x]).unwrap();
    p.pre_process();
    assert_eq!(p.domain(x).values, vec![2, 4]);
    assert_eq!(p.constraints().len(), 0);
}

#[test]
fn pre_process_keeps_multivariable_constraints() {
    let mut p = Problem::new();
    let x = p.add_variable(Variable::new("X"), vec![1, 5]);
    let y = p.add_variable(Variable::new("Y"), vec![2, 9]);
    p.add_constraint(ConstraintKind::MaxSum(MaxSumConstraint::new(4, None)), vec![x, y]).unwrap();
    p.pre_process();
    assert_eq!(p.domain(x).values, vec![1]);
    assert_eq!(p.domain(y).values, vec![2]);
    assert_eq!(p.constraints().len(), 1);
}

#[test]
fn end_to_end_permutation_scenario() {
    // Three variables over {1,2,3}, all different, summing to exactly 6:
    // the solutions are exactly the six permutations of {1,2,3}.
    let mut p = Problem::new();
    let x = p.add_variable(Variable::new("X"), vec![1, 2, 3]);
    let y = p.add_variable(Variable::new("Y"), vec![1, 2, 3]);
    let z = p.add_variable(Variable::new("Z"), vec![1, 2, 3]);
    p.add_constraint(
        ConstraintKind::AllDifferent(AllDifferentConstraint::new()),
        vec![x, y, z],
    ).unwrap();
    p.add_constraint(ConstraintKind::ExactSum(ExactSumConstraint::new(6, None)), vec![x, y, z])
        .unwrap();
    let sols = p.solutions().unwrap();
    assert_eq!(sols.len(), 6);
    let mut seen: Vec<Vec<i32>> = Vec::new();
    for s in &sols {
        assert_eq!(s.len(), 3);
        assert_eq!(sorted(s.clone()), vec![1, 2, 3]);
        assert!(!seen.contains(s));
        seen.push(s.clone());
    }
}

#[test]
fn solve_finds_one_permutation() {
    let mut p = Problem::new();
    let x = p.add_variable(Variable::new("X"), vec![1, 2, 3]);
    let y = p.add_variable(Variable::new("Y"), vec![1, 2, 3]);
    let z = p.add_variable(Variable::new("Z"), vec![1, 2, 3]);
    p.add_constraint(
        ConstraintKind::AllDifferent(AllDifferentConstraint::new()),
        vec![x, y, z],
    ).unwrap();
    let s = p.solve().unwrap().unwrap();
    assert_eq!(sorted(s), vec![1, 2, 3]);
}

#[test]
fn solve_reports_unsatisfiable_problems() {
    let mut p = Problem::new();
    let x = p.add_variable(Variable::new("X"), vec![1]);
    let y = p.add_variable(Variable::new("Y"), vec![1]);
    p.add_constraint(
        ConstraintKind::AllDifferent(AllDifferentConstraint::new()),
        vec![x, y],
    ).unwrap();
    assert_eq!(p.solve().unwrap(), None);
}

#[test]
fn solve_handles_emptied_domains_from_preprocessing() {
    let mut p = Problem::new();
    let x = p.add_variable(Variable::new("X"), vec![1, 2]);
    p.add_constraint(ConstraintKind::InSet(InSetConstraint::new(vec![9])), vec![x]).unwrap();
    assert_eq!(p.solve().unwrap(), None);
}

#[test]
fn min_sum_drives_the_search_to_large_totals() {
    let mut p = Problem::new();
    let x = p.add_variable(Variable::new("X"), vec![1, 2]);
    let y = p.add_variable(Variable::new("Y"), vec![1, 2]);
    p.add_constraint(ConstraintKind::MinSum(MinSumConstraint::new(4, None)), vec![x, y]).unwrap();
    let sols = p.solutions().unwrap();
    assert_eq!(sols, vec![vec![2, 2]]);
}

#[test]
fn all_equal_via_solver() {
    let mut p = Problem::new();
    let x = p.add_variable(Variable::new("X"), vec![1, 2, 3]);
    let y = p.add_variable(Variable::new("Y"), vec![2, 3]);
    p.add_constraint(ConstraintKind::AllEqual(AllEqualConstraint::new()), vec![x, y]).unwrap();
    let sols = p.solutions().unwrap();
    assert_eq!(sols, vec![vec![2, 2], vec![3, 3]]);
}

#[test]
fn weighted_exact_sum_via_solver() {
    // 2*x + y == 7 over {1,2,3} x {1,2,3}: x=2,y=3 or x=3,y=1.
    let mut p = Problem::new();
    let x = p.add_variable(Variable::new("X"), vec![1, 2, 3]);
    let y = p.add_variable(Variable::new("Y"), vec![1, 2, 3]);
    p.add_constraint(
        ConstraintKind::ExactSum(ExactSumConstraint::new(7, Some(vec![2, 1]))),
        vec![x, y],
    ).unwrap();
    let sols = p.solutions().unwrap();
    assert_eq!(sols, vec![vec![2, 3], vec![3, 1]]);
}

#[test]
fn solutions_can_be_recomputed_from_scratch() {
    let mut p = Problem::new();
    let x = p.add_variable(Variable::new("X"), vec![1, 2]);
    p.add_constraint(ConstraintKind::MaxSum(MaxSumConstraint::new(1, None)), vec![x]).unwrap();
    let first = p.solutions().unwrap();
    let second = p.solutions().unwrap();
    assert_eq!(first, vec![vec![1]]);
    assert_eq!(first, second);
}

#[test]
fn function_backed_constraints_filter_solutions() {
    // X,Y in {1,2,3}, all different, and a custom predicate: X + Y divisible
    // by three.
    let mut p = Problem::new();
    let x = p.add_variable(Variable::new("X"), vec![1, 2, 3]);
    let y = p.add_variable(Variable::new("Y"), vec![1, 2, 3]);
    p.add_constraint(
        ConstraintKind::AllDifferent(AllDifferentConstraint::new()),
        vec![x, y],
    ).unwrap();
    let div3 = |vals: Vec<i32>| -> Result<bool, ConstraintError> {
        Ok(vals.iter().sum::<i32>() % 3 == 0)
    };
    let preds = vec![(FunctionConstraint::new(div3, false), vec![x, y])];
    let mut q = Problem::new();
    q.add_variable(Variable::new("X"), vec![1, 2, 3]);
    q.add_variable(Variable::new("Y"), vec![1, 2, 3]);
    q.add_constraint(
        ConstraintKind::AllDifferent(AllDifferentConstraint::new()),
        vec![x, y],
    ).unwrap();
    let sols = p.solutions_with(&preds).unwrap();
    assert_eq!(sols, vec![vec![1, 2], vec![2, 1]]);
    let one = q.solve_with(&preds).unwrap().unwrap();
    assert_eq!(one.iter().sum::<i32>() % 3, 0);
}

#[test]
fn function_backed_constraint_errors_abort_the_solve() {
    let mut p = Problem::new();
    let x = p.add_variable(Variable::new("X"), vec![1]);
    let failing = |_vals: Vec<i32>| -> Result<bool, ConstraintError> {
        Err(ConstraintError::new("the predicate cannot judge this tuple"))
    };
    let preds = vec![(FunctionConstraint::new(failing, false), vec![x])];
    assert!(p.solutions_with(&preds).is_err());
}
