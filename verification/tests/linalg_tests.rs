use rateslib_dual::dual::{Dual, DualError, DualOrF64};
use rateslib_dual::linalg::pivot_matrix;
use rateslib_dual::interp::index_left_f64;

fn b(x: f64) -> u64 {
    x.to_bits()
}

fn f64_entry(x: f64) -> DualOrF64 {
    DualOrF64::F64(b(x))
}

fn dual_entry(x: f64) -> DualOrF64 {
    DualOrF64::Dual(Dual::new(b(x), Vec::new(), Vec::new()).unwrap())
}

fn entry_real(e: &DualOrF64) -> u64 {
    match e {
        DualOrF64::F64(v) => *v,
        DualOrF64::Dual(d) => d.real_part(),
    }
}

#[test]
fn pivot_swaps_largest_magnitude_into_place() {
    let a = vec![
        vec![f64_entry(1.0), dual_entry(2.0)],
        vec![f64_entry(4.0), dual_entry(5.0)],
    ];
    let (p, pa) = pivot_matrix(&a).unwrap();
    assert_eq!(p, vec![vec![0, 1], vec![1, 0]]);
    assert_eq!(entry_real(&pa[0][0]), b(4.0));
    assert_eq!(entry_real(&pa[0][1]), b(5.0));
    assert_eq!(entry_real(&pa[1][0]), b(1.0));
    assert_eq!(entry_real(&pa[1][1]), b(2.0));
}

#[test]
fn pivot_keeps_rows_already_in_place() {
    let a = vec![
        vec![f64_entry(9.0), f64_entry(2.0)],
        vec![f64_entry(1.0), f64_entry(5.0)],
    ];
    let (p, pa) = pivot_matrix(&a).unwrap();
    assert_eq!(p, vec![vec![1, 0], vec![0, 1]]);
    assert_eq!(entry_real(&pa[1][1]), b(5.0));
}

#[test]
fn pivot_uses_magnitude_not_sign() {
    let a = vec![
        vec![f64_entry(1.0), f64_entry(2.0)],
        vec![f64_entry(-4.0), f64_entry(5.0)],
    ];
    let (p, pa) = pivot_matrix(&a).unwrap();
    assert_eq!(p, vec![vec![0, 1], vec![1, 0]]);
    assert_eq!(entry_real(&pa[0][0]), b(-4.0));
}

#[test]
fn pivot_fails_on_zero_column() {
    let a = vec![
        vec![f64_entry(0.0), f64_entry(1.0)],
        vec![f64_entry(-0.0), f64_entry(2.0)],
    ];
    assert_eq!(pivot_matrix(&a).unwrap_err(), DualError::SingularMatrixError);
}

#[test]
fn pivot_of_empty_matrix_is_empty() {
    let a: Vec<Vec<DualOrF64>> = Vec::new();
    let (p, pa) = pivot_matrix(&a).unwrap();
    assert!(p.is_empty());
    assert!(pa.is_empty());
}

#[test]
fn dual_or_f64_abs_discards_derivatives() {
    let e = DualOrF64::Dual(
        Dual::new(b(-3.0), vec!["a".to_string()], vec![b(7.0)]).unwrap(),
    );
    match e.abs() {
        DualOrF64::F64(v) => assert_eq!(v, b(3.0)),
        DualOrF64::Dual(_) => panic!("abs must downgrade to a scalar"),
    }
    match f64_entry(-2.5).abs() {
        DualOrF64::F64(v) => assert_eq!(v, b(2.5)),
        DualOrF64::Dual(_) => panic!("abs must stay a scalar"),
    }
}

#[test]
fn index_left_two_entries_returns_base_offset() {
    let xs = [b(1.0), b(2.0)];
    assert_eq!(index_left_f64(&xs, b(1.5), None), 0);
    assert_eq!(index_left_f64(&xs, b(1.5), Some(7)), 7);
}

#[test]
fn index_left_three_entries_midpoint_tolerance() {
    let xs = [b(1.0), b(2.0), b(3.0)];
    assert_eq!(index_left_f64(&xs, b(2.0), None), 0);
    assert_eq!(index_left_f64(&xs, b(2.5), None), 1);
    assert_eq!(index_left_f64(&xs, b(1.5), None), 0);
}

#[test]
fn index_left_recurses_into_the_right_half() {
    let xs = [b(1.0), b(2.0), b(3.0), b(4.0), b(5.0)];
    assert_eq!(index_left_f64(&xs, b(3.5), None), 2);
    assert_eq!(index_left_f64(&xs, b(1.5), None), 0);
    assert_eq!(index_left_f64(&xs, b(4.5), None), 3);
}
