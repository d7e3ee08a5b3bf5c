use csp_engine::domain::{contains_val, copy_values, Domain};

fn sorted(mut v: Vec<i32>) -> Vec<i32> {
    v.sort();
    v
}

#[test]
fn new_domain_holds_initial_values() {
    let d = Domain::new(&[3, 1, 2]);
    assert_eq!(d.values, vec![3, 1, 2]);
    assert!(d.hidden.is_empty());
    assert!(d.states.is_empty());
}

#[test]
fn hide_value_moves_value_to_hidden() {
    let mut d = Domain::new(&[1, 2, 3]);
    d.hide_value(2);
    assert_eq!(d.values, vec![1, 3]);
    assert_eq!(d.hidden, vec![2]);
}

#[test]
fn checkpoint_symmetry_round_trip() {
    // Checkpoint symmetry: any hides between push_state and pop_state are
    // undone exactly, as sets.
    let mut d = Domain::new(&[1, 2, 3, 4]);
    d.hide_value(4);
    let live_before = sorted(d.values.clone());
    let hidden_before = sorted(d.hidden.clone());
    d.push_state();
    d.hide_value(2);
    d.hide_value(3);
    assert_eq!(sorted(d.values.clone()), vec![1]);
    d.pop_state();
    assert_eq!(sorted(d.values.clone()), live_before);
    assert_eq!(sorted(d.hidden.clone()), hidden_before);
    assert!(d.states.is_empty());
}

#[test]
fn nested_checkpoints_pop_in_order() {
    let mut d = Domain::new(&[1, 2, 3]);
    d.push_state();
    d.hide_value(1);
    d.push_state();
    d.hide_value(2);
    d.pop_state();
    assert_eq!(sorted(d.values.clone()), vec![2, 3]);
    d.pop_state();
    assert_eq!(sorted(d.values.clone()), vec![1, 2, 3]);
}

#[test]
fn pop_without_checkpoint_is_a_no_op() {
    let mut d = Domain::new(&[5, 6]);
    d.hide_value(5);
    d.pop_state();
    assert_eq!(d.values, vec![6]);
    assert_eq!(d.hidden, vec![5]);
}

#[test]
fn reset_state_restores_everything() {
    let mut d = Domain::new(&[1, 2, 3]);
    d.push_state();
    d.hide_value(1);
    d.hide_value(3);
    d.reset_state();
    assert_eq!(sorted(d.values.clone()), vec![1, 2, 3]);
    assert!(d.hidden.is_empty());
    assert!(d.states.is_empty());
}

#[test]
fn contains_and_copy_helpers() {
    let v = vec![4, 7, 9];
    assert!(contains_val(&v, 7));
    assert!(!contains_val(&v, 8));
    assert_eq!(copy_values(&v), v);
}

#[test]
fn hiding_every_value_and_popping_restores_all() {
    let mut d = Domain::new(&[7, 8]);
    d.push_state();
    d.hide_value(7);
    d.hide_value(8);
    assert!(d.values.is_empty());
    d.pop_state();
    assert_eq!(sorted(d.values.clone()), vec![7, 8]);
    assert!(d.hidden.is_empty());
}
