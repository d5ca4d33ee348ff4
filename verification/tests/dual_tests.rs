use rateslib_dual::dual::{Dual, DualError, arr1_dot};
use rateslib_dual::varset::VariableSet;
use std::sync::Arc;

fn b(x: f64) -> u64 {
    x.to_bits()
}

fn labels(names: &[&str]) -> Vec<String> {
    names.iter().map(|s| s.to_string()).collect()
}

fn mk(real: f64, vars: &[&str], dual: &[f64]) -> Dual {
    Dual::new(b(real), labels(vars), dual.iter().map(|x| x.to_bits()).collect()).unwrap()
}

#[test]
fn add_dual_float() {
    let result = mk(20.0, &["a"], &[])
        .scalar_add(b(10.0))
        .add(&mk(5.0, &["b"], &[2.0]))
        .scalar_add(b(10.0));
    assert!(result.eq(&mk(45.0, &["a", "b"], &[1.0, 2.0])));
}

#[test]
fn sub_dual_float() {
    let result = mk(20.0, &["a"], &[])
        .scalar_rsub(b(100.0))
        .sub(&mk(5.0, &["b"], &[2.0]))
        .scalar_sub(b(10.0));
    assert!(result.eq(&mk(65.0, &["a", "b"], &[-1.0, -2.0])));
}

#[test]
fn construction_default_seed() {
    let d = mk(2.5, &["x", "y"], &[]);
    assert_eq!(d.real_part(), b(2.5));
    assert_eq!(d.vars(), &labels(&["x", "y"]));
    assert_eq!(d.dual(), &vec![b(1.0), b(1.0)]);
}

#[test]
fn construction_length_mismatch_fails() {
    let r = Dual::new(b(1.0), labels(&["x", "y"]), vec![b(1.0)]);
    assert_eq!(r.unwrap_err(), DualError::ConstructionError);
}

#[test]
fn construction_duplicate_label_fails() {
    let r = Dual::new(b(1.0), labels(&["x", "x"]), vec![]);
    assert_eq!(r.unwrap_err(), DualError::ConstructionError);
}

#[test]
fn add_constants_matches_scalar_sum() {
    let x = mk(1.5, &[], &[]);
    let y = mk(2.25, &[], &[]);
    let s = x.add(&y);
    assert!(s.eq(&mk(3.75, &[], &[])));
    assert_eq!(s.vars().len(), 0);
}

#[test]
fn add_commutes_on_disjoint_sets() {
    let a = mk(1.0, &["a", "b"], &[2.0, 3.0]);
    let c = mk(4.0, &["c"], &[5.0]);
    let l = a.add(&c);
    let r = c.add(&a);
    assert!(l.eq(&r));
    assert_eq!(l.vars(), &labels(&["a", "b", "c"]));
    assert_eq!(r.vars(), &labels(&["c", "a", "b"]));
}

#[test]
fn mul_commutes_on_overlapping_sets() {
    let a = mk(2.0, &["a", "b"], &[1.0, 2.0]);
    let c = mk(3.0, &["b", "c"], &[4.0, 5.0]);
    let l = a.mul(&c);
    let r = c.mul(&a);
    assert!(l.eq(&r));
}

#[test]
fn union_is_ordered_left_to_right() {
    let a = mk(1.0, &["a", "b"], &[1.0, 1.0]);
    let c = mk(2.0, &["b", "c"], &[1.0, 1.0]);
    let s = a.add(&c);
    assert_eq!(s.vars(), &labels(&["a", "b", "c"]));
}

#[test]
fn subset_operand_adopts_superset_vars() {
    let wide = mk(1.0, &["a", "b", "c"], &[1.0, 2.0, 3.0]);
    let narrow = mk(2.0, &["b"], &[5.0]);
    let s = wide.add(&narrow);
    assert_eq!(s.vars(), &labels(&["a", "b", "c"]));
    assert_eq!(s.dual(), &vec![b(1.0), b(7.0), b(3.0)]);
}

#[test]
fn product_rule_holds_on_the_union() {
    let a = mk(2.0, &["x"], &[1.0]);
    let c = mk(3.0, &["y"], &[1.0]);
    let p = a.mul(&c);
    assert_eq!(p.real_part(), b(6.0));
    let q = labels(&["x", "y"]);
    let g = p.gradient(&q);
    let ga = a.gradient(&q);
    let gc = c.gradient(&q);
    for i in 0..2 {
        let expect = f64::from_bits(ga[i]) * 3.0 + f64::from_bits(gc[i]) * 2.0;
        assert_eq!(g[i], expect.to_bits());
    }
}

#[test]
fn gradient_zero_for_untracked_label() {
    let d = mk(1.0, &["a"], &[3.0]);
    let g = d.gradient(&labels(&["z", "a"]));
    assert_eq!(g, vec![b(0.0), b(3.0)]);
}

#[test]
fn gradient_drops_labels_missing_from_query() {
    let d = mk(1.0, &["a", "b"], &[3.0, 4.0]);
    let g = d.gradient(&labels(&["b"]));
    assert_eq!(g, vec![b(4.0)]);
}

#[test]
fn neg_flips_real_and_derivatives() {
    let d = mk(2.0, &["a"], &[3.0]);
    let n = d.neg();
    assert_eq!(n.real_part(), b(-2.0));
    assert_eq!(n.dual(), &vec![b(-3.0)]);
    assert_eq!(n.vars(), &labels(&["a"]));
}

#[test]
fn abs_returns_scalar_magnitude_only() {
    let d = mk(-3.0, &["a"], &[7.0]);
    assert_eq!(d.abs(), b(3.0));
}

#[test]
fn mul_with_scalar_scales_everything() {
    let d = mk(2.0, &["a"], &[3.0]);
    let s = d.scalar_mul(b(4.0));
    assert_eq!(s.real_part(), b(8.0));
    assert_eq!(s.dual(), &vec![b(12.0)]);
}

#[test]
fn div_by_scalar_divides_everything() {
    let d = mk(10.0, &["a"], &[4.0]);
    let s = d.scalar_div(b(4.0));
    assert_eq!(s.real_part(), b(2.5));
    assert_eq!(s.dual(), &vec![b(1.0)]);
}

#[test]
fn sub_of_duals_subtracts_elementwise() {
    let x = mk(100.0, &["a"], &[5.0]);
    let y = mk(20.0, &["a"], &[2.0]);
    let d = x.sub(&y);
    assert_eq!(d.real_part(), b(80.0));
    assert_eq!(d.dual(), &vec![b(3.0)]);
}

#[test]
fn equality_ignores_label_order() {
    let x = mk(5.0, &["b", "c"], &[3.0, 1.0]);
    let y = mk(5.0, &["c", "b"], &[1.0, 3.0]);
    assert!(x.eq(&y));
}

#[test]
fn equality_distinguishes_derivatives() {
    let x = mk(5.0, &["a"], &[1.0]);
    let y = mk(5.0, &["a"], &[2.0]);
    assert!(!x.eq(&y));
}

#[test]
fn scalar_equality_requires_no_tracked_sensitivity() {
    let plain = mk(5.0, &[], &[]);
    assert!(plain.eq_scalar(b(5.0)));
    let with_sens = mk(5.0, &["a"], &[1.0]);
    assert!(!with_sens.eq_scalar(b(5.0)));
}

#[test]
fn negative_zero_equals_zero() {
    let d = mk(-0.0, &[], &[]);
    assert!(d.eq_scalar(b(0.0)));
}

#[test]
fn nan_equals_nothing() {
    let d = Dual::constant(f64::NAN.to_bits());
    assert!(!d.eq(&d.clone()));
}

#[test]
fn ordering_compares_real_parts_only() {
    let small = mk(1.0, &["a"], &[100.0]);
    let large = mk(2.0, &["b"], &[0.5]);
    assert!(small.lt(&large));
    assert!(small.le(&large));
    assert!(large.gt(&small));
    assert!(large.ge(&small));
    assert!(!large.lt(&small));
}

#[test]
fn zero_one_identities() {
    let z = Dual::zero();
    let o = Dual::one();
    assert!(z.is_zero());
    assert!(!o.is_zero());
    let d = mk(3.0, &["a"], &[2.0]);
    assert!(d.add(&z).eq(&d));
    assert!(d.mul(&o).eq(&d));
}

#[test]
fn assignment_ops_rebind() {
    let mut d = mk(1.0, &["a"], &[1.0]);
    d.add_assign(&mk(2.0, &["b"], &[3.0]));
    assert!(d.eq(&mk(3.0, &["a", "b"], &[1.0, 3.0])));
    let mut m = mk(2.0, &["a"], &[1.0]);
    m.mul_assign(&mk(4.0, &[], &[]));
    assert_eq!(m.real_part(), b(8.0));
    assert_eq!(m.dual(), &vec![b(4.0)]);
}

#[test]
fn sum_folds_from_zero() {
    let items = vec![mk(1.0, &["a"], &[1.0]), mk(2.0, &["b"], &[3.0]), mk(3.0, &[], &[])];
    let s = Dual::sum(&items);
    assert!(s.eq(&mk(6.0, &["a", "b"], &[1.0, 3.0])));
}

#[test]
fn dot_product_unions_variable_sets() {
    let a1 = vec![mk(1.0, &["a"], &[1.0]), mk(2.0, &["b"], &[1.0])];
    let a2 = vec![mk(3.0, &["c"], &[1.0]), mk(4.0, &["d"], &[1.0])];
    let d = arr1_dot(&a1, &a2);
    assert_eq!(d.real_part(), b(11.0));
    assert_eq!(d.vars(), &labels(&["a", "c", "b", "d"]));
    assert_eq!(d.dual(), &vec![b(3.0), b(1.0), b(4.0), b(2.0)]);
}

#[test]
fn chain_rule_scales_derivatives() {
    let d = mk(2.0, &["x"], &[3.0]);
    let e = 2.0f64.exp();
    let r = d.chain_rule(b(e), b(e));
    assert_eq!(r.real_part(), b(e));
    assert_eq!(r.dual(), &vec![(e * 3.0).to_bits()]);
    assert_eq!(r.vars(), &labels(&["x"]));
}

#[test]
fn pow_support_decisions() {
    let neg = mk(-2.0, &["a"], &[1.0]);
    let pos = mk(2.0, &["a"], &[1.0]);
    assert_eq!(neg.pow_support(b(0.5), None).unwrap_err(), DualError::DomainError);
    assert!(neg.pow_support(b(3.0), None).is_ok());
    assert!(pos.pow_support(b(0.5), None).is_ok());
    assert_eq!(
        pos.pow_support(b(2.0), Some(5)).unwrap_err(),
        DualError::UnsupportedOperation
    );
    assert!(pos.pow_support(b(2.0), Some(0)).is_ok());
}

#[test]
fn log_defined_only_for_positive_reals() {
    assert!(mk(2.0, &[], &[]).log_defined());
    assert!(!mk(0.0, &[], &[]).log_defined());
    assert!(!mk(-1.0, &[], &[]).log_defined());
}

#[test]
fn shared_variable_sets_are_detected() {
    let d = mk(1.0, &["a"], &[1.0]);
    let e = d.clone();
    assert!(d.arc_check(&e));
    let f = mk(2.0, &["a"], &[1.0]);
    assert!(!d.arc_check(&f));
    assert!(d.add(&e).arc_check(&d));
}

#[test]
fn reorder_onto_new_ordered_vars() {
    let d = mk(1.0, &["a", "b"], &[2.0, 3.0]);
    let vs = Arc::new(VariableSet::from_labels(labels(&["b", "a"])).unwrap());
    let r = d.to_new_ordered_vars(&vs);
    assert_eq!(r.vars(), &labels(&["b", "a"]));
    assert_eq!(r.dual(), &vec![b(3.0), b(2.0)]);
    assert_eq!(r.real_part(), b(1.0));
}

#[test]
fn rewrite_fills_zero_for_new_labels() {
    let d = mk(1.0, &["a"], &[2.0]);
    let vs = Arc::new(VariableSet::from_labels(labels(&["c", "a"])).unwrap());
    let r = d.to_new_vars(&vs);
    assert_eq!(r.vars(), &labels(&["c", "a"]));
    assert_eq!(r.dual(), &vec![b(0.0), b(2.0)]);
}

#[test]
fn scalar_ordering_compares_real_parts_only() {
    let d = mk(2.0, &["a"], &[100.0]);
    assert!(d.lt_scalar(b(3.0)));
    assert!(d.le_scalar(b(2.0)));
    assert!(d.gt_scalar(b(1.0)));
    assert!(d.ge_scalar(b(2.0)));
    assert!(!d.gt_scalar(b(2.0)));
}

#[test]
fn sum_of_two_seeded_duals() {
    let s = mk(5.0, &["a"], &[1.0]).add(&mk(3.0, &["b"], &[2.0]));
    assert!(s.eq(&mk(8.0, &["a", "b"], &[1.0, 2.0])));
    assert_eq!(s.vars(), &labels(&["a", "b"]));
    assert_eq!(s.dual(), &vec![b(1.0), b(2.0)]);
}
