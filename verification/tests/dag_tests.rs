//! Behavioral tests for the DAG ledger engine.

use eco_core::dag::DAG;
use eco_core::ids::generate_unique_id;

#[test]
fn test_insert_returns_distinct_ids() {
    let mut d = DAG::new();
    let mut ids: Vec<String> = Vec::new();
    for _ in 0..5 {
        ids.push(d.add_transaction(String::from("payload"), Vec::new()));
    }
    for i in 0..ids.len() {
        for j in 0..ids.len() {
            if i != j {
                assert_ne!(ids[i], ids[j]);
            }
        }
    }
}

#[test]
fn test_generated_ids_distinct_and_formatted() {
    let a = generate_unique_id(0);
    let b = generate_unique_id(1);
    assert_ne!(a, b);
    assert!(a.contains('-'));
    assert!(b.contains('-'));
}

#[test]
fn test_generated_id_ends_with_counter() {
    let id = generate_unique_id(42);
    assert_eq!(id.rsplit('-').next().unwrap(), "42");
    let id = generate_unique_id(0);
    assert_eq!(id.rsplit('-').next().unwrap(), "0");
    let id = generate_unique_id(u64::MAX);
    assert_eq!(id.rsplit('-').next().unwrap(), "18446744073709551615");
}

#[test]
fn test_generated_ids_unambiguous_under_adjacent_counters() {
    // counter renderings that would collide if timestamp and counter were
    // concatenated without a separator
    let a = generate_unique_id(1);
    let b = generate_unique_id(11);
    let c = generate_unique_id(111);
    assert_ne!(a, b);
    assert_ne!(b, c);
    assert_ne!(a, c);
}

#[test]
fn test_new_ledger_empty() {
    let d = DAG::new();
    assert_eq!(d.transaction_count(), 0);
    assert!(!d.contains_transaction(&String::from("anything")));
}

#[test]
fn test_insert_stores_record() {
    let mut d = DAG::new();
    let a = d.add_transaction(String::from("hello"), Vec::new());
    assert!(d.contains_transaction(&a));
    assert_eq!(d.transaction_count(), 1);
    let t = d.get_transaction(&a).unwrap();
    assert_eq!(t.id, a);
    assert_eq!(t.data, "hello");
    assert!(t.approves.is_empty());
    assert_eq!(t.cumulative_weight, 1);
}

#[test]
fn test_validate_transaction() {
    let mut d = DAG::new();
    assert!(!d.validate_transaction(&String::from("absent")));
    let a = d.add_transaction(String::from("a"), Vec::new());
    assert!(d.validate_transaction(&a));
    let b = d.add_transaction(String::from("b"), vec![a.clone()]);
    assert!(d.validate_transaction(&b));
    let c = d.add_transaction(String::from("c"), vec![a.clone(), String::from("missing")]);
    assert!(!d.validate_transaction(&c));
}

#[test]
fn test_weight_of_genesis_is_one() {
    let mut d = DAG::new();
    let a = d.add_transaction(String::from("a"), Vec::new());
    assert_eq!(d.calculate_cumulative_weight(&a), 1);
}

#[test]
fn test_weight_of_absent_is_zero() {
    let mut d = DAG::new();
    let _ = d.add_transaction(String::from("a"), Vec::new());
    assert_eq!(d.calculate_cumulative_weight(&String::from("absent")), 0);
}

#[test]
fn test_weight_chain() {
    let mut d = DAG::new();
    let a = d.add_transaction(String::from("a"), Vec::new());
    let b = d.add_transaction(String::from("b"), vec![a.clone()]);
    let c = d.add_transaction(String::from("c"), vec![a.clone(), b.clone()]);
    assert_eq!(d.calculate_cumulative_weight(&a), 1);
    assert_eq!(d.calculate_cumulative_weight(&b), 2);
    // c counts itself, a, and b, and b's recursive sum counts a once more:
    // each occurrence along an approval path contributes.
    assert_eq!(d.calculate_cumulative_weight(&c), 4);
}

#[test]
fn test_weight_unresolved_approval_contributes_zero() {
    let mut d = DAG::new();
    let a = d.add_transaction(String::from("a"), vec![String::from("missing")]);
    assert_eq!(d.calculate_cumulative_weight(&a), 1);
}

#[test]
fn test_weight_duplicate_approvals_counted_per_occurrence() {
    let mut d = DAG::new();
    let a = d.add_transaction(String::from("a"), Vec::new());
    let b = d.add_transaction(String::from("b"), vec![a.clone(), a.clone()]);
    assert_eq!(d.calculate_cumulative_weight(&b), 3);
}

#[test]
fn test_weight_written_into_records() {
    let mut d = DAG::new();
    let a = d.add_transaction(String::from("a"), Vec::new());
    let b = d.add_transaction(String::from("b"), vec![a.clone()]);
    let w = d.calculate_cumulative_weight(&b);
    assert_eq!(w, 2);
    assert_eq!(d.get_transaction(&b).unwrap().cumulative_weight, 2);
    assert_eq!(d.get_transaction(&a).unwrap().cumulative_weight, 1);
}

#[test]
fn test_cascade_removes_dangling_record() {
    let mut d = DAG::new();
    let x = d.add_transaction(String::from("x"), vec![String::from("nonexistent")]);
    assert!(!d.validate_transaction(&x));
    d.remove_invalid_transaction(&x);
    assert!(!d.contains_transaction(&x));
    assert_eq!(d.transaction_count(), 0);
}

#[test]
fn test_cascade_removes_dependents() {
    let mut d = DAG::new();
    let a = d.add_transaction(String::from("a"), vec![String::from("missing")]);
    let b = d.add_transaction(String::from("b"), vec![a.clone()]);
    let c = d.add_transaction(String::from("c"), vec![a.clone()]);
    let e = d.add_transaction(String::from("e"), Vec::new());
    d.remove_invalid_transaction(&a);
    assert!(!d.contains_transaction(&a));
    assert!(!d.contains_transaction(&b));
    assert!(!d.contains_transaction(&c));
    assert!(d.contains_transaction(&e));
    assert_eq!(d.transaction_count(), 1);
}

#[test]
fn test_cascade_removes_transitive_chain() {
    let mut d = DAG::new();
    let a = d.add_transaction(String::from("a"), vec![String::from("missing")]);
    let b = d.add_transaction(String::from("b"), vec![a.clone()]);
    let c = d.add_transaction(String::from("c"), vec![b.clone()]);
    d.remove_invalid_transaction(&a);
    assert!(!d.contains_transaction(&a));
    assert!(!d.contains_transaction(&b));
    assert!(!d.contains_transaction(&c));
    assert_eq!(d.transaction_count(), 0);
}

#[test]
fn test_cascade_is_noop_on_valid_record() {
    let mut d = DAG::new();
    let a = d.add_transaction(String::from("a"), Vec::new());
    let b = d.add_transaction(String::from("b"), vec![a.clone()]);
    d.remove_invalid_transaction(&a);
    assert!(d.contains_transaction(&a));
    assert!(d.contains_transaction(&b));
    assert_eq!(d.transaction_count(), 2);
}

#[test]
fn test_cascade_is_idempotent() {
    let mut d = DAG::new();
    let a = d.add_transaction(String::from("a"), vec![String::from("missing")]);
    let b = d.add_transaction(String::from("b"), vec![a.clone()]);
    let e = d.add_transaction(String::from("e"), Vec::new());
    d.remove_invalid_transaction(&a);
    assert_eq!(d.transaction_count(), 1);
    assert!(d.contains_transaction(&e));
    // applying the operation again, at the now-absent identifier, changes
    // nothing
    d.remove_invalid_transaction(&a);
    assert_eq!(d.transaction_count(), 1);
    assert!(d.contains_transaction(&e));
    assert!(!d.contains_transaction(&a));
    assert!(!d.contains_transaction(&b));
}
