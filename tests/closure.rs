use reasoning_service::driver::{add_data, apply_delta, insert_starting_data, remove_data, return_vector, signed_distinct, InputSession};
use reasoning_service::rules::{full_materialization, rule_1, rule_2, rule_3, rule_4, rule_5, rule_6};
use reasoning_service::triple::EncodedTriple;

const SCO: u64 = 0;
const SPO: u64 = 1;
const TYPE: u64 = 2;
const DOM: u64 = 3;
const RNG: u64 = 4;
const KW: [u64; 5] = [SCO, SPO, TYPE, DOM, RNG];
const A: u64 = 10;
const B: u64 = 11;
const C: u64 = 12;
const X: u64 = 20;
const Y: u64 = 21;
const P: u64 = 30;
const Q: u64 = 31;
const SUB_P: u64 = 32;
const SUPER_P: u64 = 33;
const D: u64 = 40;
const R: u64 = 41;

fn sorted(mut v: Vec<EncodedTriple>) -> Vec<EncodedTriple> {
    v.sort();
    v
}

fn run(t_box: Vec<EncodedTriple>, a_box: Vec<EncodedTriple>) -> InputSession {
    let mut input = InputSession::new();
    insert_starting_data(a_box, &mut input, t_box);
    input
}

#[test]
fn basic_transitive_closure() {
    let input = run(vec![(A, SCO, B), (B, SCO, C)], vec![]);
    let out = sorted(return_vector(&input, &KW, 1));
    assert_eq!(out, sorted(vec![(A, SCO, B), (B, SCO, C), (A, SCO, C)]));
}

#[test]
fn sco_and_type_composition() {
    let input = run(vec![(A, SCO, B), (B, SCO, C)], vec![(X, TYPE, A)]);
    let out = sorted(return_vector(&input, &KW, 1));
    assert_eq!(
        out,
        sorted(vec![(A, SCO, B), (B, SCO, C), (A, SCO, C), (X, TYPE, A), (X, TYPE, B), (X, TYPE, C)])
    );
}

#[test]
fn domain_inference() {
    let input = run(vec![(P, DOM, D)], vec![(X, P, Y)]);
    let out = sorted(return_vector(&input, &KW, 1));
    assert_eq!(out, sorted(vec![(P, DOM, D), (X, P, Y), (X, TYPE, D)]));
}

#[test]
fn range_inference() {
    let input = run(vec![(P, RNG, R)], vec![(X, P, Y)]);
    let out = sorted(return_vector(&input, &KW, 1));
    assert_eq!(out, sorted(vec![(P, RNG, R), (X, P, Y), (Y, TYPE, R)]));
}

#[test]
fn spo_rewriting() {
    let input = run(vec![(SUB_P, SPO, SUPER_P)], vec![(X, SUB_P, Y)]);
    let out = sorted(return_vector(&input, &KW, 1));
    assert_eq!(out, sorted(vec![(SUB_P, SPO, SUPER_P), (X, SUB_P, Y), (X, SUPER_P, Y)]));
}

#[test]
fn deletion_retracts_derivations() {
    let mut input = run(vec![(A, SCO, B), (B, SCO, C)], vec![(X, TYPE, A)]);
    remove_data(vec![(A, SCO, B)], &mut input, 2);
    let out = return_vector(&input, &KW, 2);
    assert!(!out.contains(&(A, SCO, C)));
    assert!(!out.contains(&(X, TYPE, B)));
    assert!(!out.contains(&(X, TYPE, C)));
    assert!(!out.contains(&(A, SCO, B)));
    assert!(out.contains(&(B, SCO, C)));
    assert!(out.contains(&(X, TYPE, A)));
    let before = sorted(return_vector(&input, &KW, 1));
    assert_eq!(before.len(), 6);
}

#[test]
fn multi_derivation_survives_partial_deletion() {
    let mut input = run(vec![(P, DOM, D), (Q, DOM, D), (Q, SPO, P)], vec![(X, Q, Y)]);
    assert!(return_vector(&input, &KW, 1).contains(&(X, TYPE, D)));
    remove_data(vec![(P, DOM, D)], &mut input, 2);
    let out = return_vector(&input, &KW, 2);
    assert!(out.contains(&(X, TYPE, D)));
    assert!(!out.contains(&(P, DOM, D)));
}

#[test]
fn reinsertion_is_idempotent() {
    let mut twice = run(vec![(A, SCO, B)], vec![(X, TYPE, A)]);
    add_data(vec![(B, SCO, C)], &mut twice, 2);
    add_data(vec![(B, SCO, C)], &mut twice, 3);
    let mut once = run(vec![(A, SCO, B)], vec![(X, TYPE, A)]);
    add_data(vec![(B, SCO, C)], &mut once, 2);
    add_data(vec![], &mut once, 3);
    assert_eq!(sorted(return_vector(&twice, &KW, 3)), sorted(return_vector(&once, &KW, 3)));
}

#[test]
fn insertion_then_retraction_restores() {
    let mut input = run(vec![(A, SCO, B)], vec![(X, TYPE, A)]);
    let at_one = sorted(return_vector(&input, &KW, 1));
    add_data(vec![(B, SCO, C)], &mut input, 2);
    assert_ne!(sorted(return_vector(&input, &KW, 2)), at_one);
    remove_data(vec![(B, SCO, C)], &mut input, 3);
    assert_eq!(sorted(return_vector(&input, &KW, 3)), at_one);
}

#[test]
fn empty_abox_gives_schema_closure() {
    let out = sorted(full_materialization(&vec![(A, SPO, B), (B, SPO, C), (A, SCO, B)], &KW));
    assert_eq!(out, sorted(vec![(A, SPO, B), (B, SPO, C), (A, SPO, C), (A, SCO, B)]));
}

#[test]
fn unrelated_triple_passes_through() {
    let out = full_materialization(&vec![(X, P, Y), (A, SCO, B)], &KW);
    assert_eq!(sorted(out), sorted(vec![(X, P, Y), (A, SCO, B)]));
}

#[test]
fn self_subclass_does_not_inflate() {
    let out = sorted(full_materialization(&vec![(A, SCO, A), (X, TYPE, A), (Y, TYPE, B)], &KW));
    assert_eq!(out, sorted(vec![(A, SCO, A), (X, TYPE, A), (Y, TYPE, B)]));
}

#[test]
fn cyclic_subclasses_close() {
    let out = sorted(full_materialization(&vec![(A, SCO, B), (B, SCO, A)], &KW));
    assert_eq!(out, sorted(vec![(A, SCO, B), (B, SCO, A), (A, SCO, A), (B, SCO, B)]));
}

#[test]
fn duplicate_input_counts_once() {
    let out = full_materialization(&vec![(A, SCO, B), (A, SCO, B)], &KW);
    assert_eq!(out, vec![(A, SCO, B)]);
}

#[test]
fn single_rules() {
    let data = vec![(A, SCO, B), (B, SCO, C), (X, TYPE, A), (SUB_P, SPO, SUPER_P), (SUPER_P, SPO, P), (X, SUB_P, Y), (P, DOM, D), (P, RNG, R)];
    assert_eq!(sorted(rule_1(&data, SCO)), sorted(vec![(A, SCO, B), (B, SCO, C), (A, SCO, C)]));
    assert_eq!(sorted(rule_2(&data, SPO)), sorted(vec![(SUB_P, SPO, SUPER_P), (SUPER_P, SPO, P), (SUB_P, SPO, P)]));
    assert_eq!(sorted(rule_3(&data, TYPE, SCO)), sorted(vec![(X, TYPE, A), (X, TYPE, B), (X, TYPE, C)]));
    assert_eq!(sorted(rule_4(&data, SPO)), sorted(vec![(X, SUB_P, Y), (X, SUPER_P, Y), (X, P, Y)]));
    let with_p = vec![(X, P, Y), (P, DOM, D), (P, RNG, R)];
    assert_eq!(rule_5(&with_p, DOM, TYPE), vec![(X, TYPE, D)]);
    assert_eq!(rule_6(&with_p, RNG, TYPE), vec![(Y, TYPE, R)]);
}

#[test]
fn schema_deletion_drops_dependents_at_once() {
    let mut input = run(vec![(P, DOM, D)], vec![(X, P, Y), (A, P, B), (C, P, Y)]);
    assert_eq!(return_vector(&input, &KW, 1).len(), 7);
    remove_data(vec![(P, DOM, D)], &mut input, 2);
    assert_eq!(sorted(return_vector(&input, &KW, 2)), sorted(vec![(X, P, Y), (A, P, B), (C, P, Y)]));
}

#[test]
fn signed_distinct_keeps_sign() {
    assert_eq!(signed_distinct(5), 1);
    assert_eq!(signed_distinct(1), 1);
    assert_eq!(signed_distinct(0), 0);
    assert_eq!(signed_distinct(-3), -1);
}

#[test]
fn insert_and_retract_in_one_batch_is_noop() {
    let mut input = run(vec![], vec![(X, P, Y)]);
    input.insert((A, P, B));
    input.remove((A, P, B));
    input.advance_to(2);
    assert_eq!(return_vector(&input, &KW, 2), vec![(X, P, Y)]);
}

#[test]
fn compaction_keeps_later_closures() {
    let mut input = run(vec![(A, SCO, B)], vec![(X, TYPE, A), (Y, TYPE, B)]);
    add_data(vec![(B, SCO, C), (X, P, Y)], &mut input, 2);
    remove_data(vec![(Y, TYPE, B), (X, P, Y)], &mut input, 3);
    add_data(vec![(Y, TYPE, B)], &mut input, 4);
    let at_three = sorted(return_vector(&input, &KW, 3));
    let at_four = sorted(return_vector(&input, &KW, 4));
    input.advance_trace(3);
    assert_eq!(sorted(return_vector(&input, &KW, 3)), at_three);
    assert_eq!(sorted(return_vector(&input, &KW, 4)), at_four);
    input.advance_trace(4);
    assert_eq!(sorted(return_vector(&input, &KW, 4)), at_four);
}

fn closed_under_rules(m: &[EncodedTriple]) -> bool {
    let has = |t: EncodedTriple| m.contains(&t);
    for &(a, p, b) in m {
        for &(c, q, d) in m {
            if p == SCO && q == SCO && b == c && !has((a, SCO, d)) {
                return false;
            }
            if p == SPO && q == SPO && b == c && !has((a, SPO, d)) {
                return false;
            }
            if p == SCO && q == TYPE && d == a && !has((c, TYPE, b)) {
                return false;
            }
            if p == SPO && q == a && !has((c, b, d)) {
                return false;
            }
            if p == DOM && q == a && !has((c, TYPE, b)) {
                return false;
            }
            if p == RNG && q == a && !has((d, TYPE, b)) {
                return false;
            }
        }
    }
    true
}

#[test]
fn steady_state_is_closed_under_every_rule() {
    let t_box = vec![
        (A, SCO, B),
        (B, SCO, C),
        (C, SCO, A),
        (SUB_P, SPO, SUPER_P),
        (SUPER_P, SPO, P),
        (P, DOM, A),
        (SUPER_P, RNG, B),
        (Q, DOM, C),
    ];
    let a_box = vec![(X, SUB_P, Y), (Y, TYPE, A), (R, Q, X), (D, P, R)];
    let input = run(t_box, a_box);
    let out = return_vector(&input, &KW, 1);
    assert!(closed_under_rules(&out));
    assert!(out.contains(&(X, P, Y)));
    assert!(out.contains(&(X, TYPE, C)));
    assert!(out.contains(&(Y, TYPE, B)));
    assert!(out.contains(&(A, SCO, A)));
}

#[test]
fn delta_with_adds_and_retracts() {
    let mut input = run(vec![(A, SCO, B)], vec![(X, TYPE, A)]);
    apply_delta(vec![(B, SCO, C)], vec![(A, SCO, B)], &mut input, 2);
    assert_eq!(sorted(return_vector(&input, &KW, 2)), sorted(vec![(B, SCO, C), (X, TYPE, A)]));
}

#[test]
fn rule_outputs_hold_each_triple_once() {
    let data = vec![(A, SCO, B), (A, SCO, B), (B, SCO, C), (X, TYPE, A), (X, TYPE, A), (SUB_P, SPO, SUPER_P), (X, SUB_P, Y), (X, SUB_P, Y), (P, DOM, D), (X, P, Y), (X, P, Z_ID), (P, RNG, R), (Y, P, Y)];
    for out in [
        rule_1(&data, SCO),
        rule_3(&data, TYPE, SCO),
        rule_4(&data, SPO),
        rule_5(&data, DOM, TYPE),
        rule_6(&data, RNG, TYPE),
    ] {
        let mut d = out.clone();
        d.sort();
        d.dedup();
        assert_eq!(d.len(), out.len());
    }
    assert_eq!(rule_5(&data, DOM, TYPE), vec![(X, TYPE, D), (Y, TYPE, D)]);
}

const Z_ID: u64 = 50;
