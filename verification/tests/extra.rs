use polyx::Polynomial;

#[test]
fn karatsuba_matches_convolution() {
    let p1 = Polynomial::from_vec(vec![1, 2, 3, 4, 5, 6, 7, 8]);
    let p2 = Polynomial::from_vec(vec![4, 5, 6, 7, 8, 9, 10, 11]);
    let p3 = Polynomial::karatsuba(&p1, &p2, 12);
    let expected = Polynomial::from_vec(vec![4, 13, 28, 50, 80, 119, 168, 228, 252, 263, 260, 242]);
    assert!(p3.equal(&expected));
}

#[test]
fn karatsuba_agrees_with_convolve() {
    let p1 = Polynomial::from_vec(vec![3, -1, 0, 7, 2, -5, 9, 11, -4, 6, 1]);
    let p2 = Polynomial::from_vec(vec![-2, 8, 0, 0, 5, -7, 1]);
    let full = p1.coeffs.len() + p2.coeffs.len();
    let a = Polynomial::karatsuba(&p1, &p2, full);
    let b = Polynomial::convolve(&p1, &p2, full);
    assert!(a.equal(&b));
}

#[test]
fn convolve_truncates() {
    let p1 = Polynomial::from_vec(vec![1, 2, 3]);
    let p2 = Polynomial::from_vec(vec![4, 5, 6]);
    let p3 = Polynomial::convolve(&p1, &p2, 5);
    assert!(p3.equal(&Polynomial::from_vec(vec![4, 13, 28, 27, 18])));
}

#[test]
fn truncation_boundary() {
    let p = Polynomial::from_vec(vec![1, 2, 3]);
    let q = Polynomial::from_vec(vec![4, 5]);
    let zero = Polynomial::new();
    assert!(Polynomial::karatsuba(&p, &q, 0).is_zero());
    assert!(Polynomial::karatsuba(&p, &zero, 7).is_zero());
    assert!(Polynomial::karatsuba(&zero, &q, 3).is_zero());
}

#[test]
fn multiplication_wraps_modulo_two_to_sixty_four() {
    // 2^40 * 2^40 == 2^80 == 0 modulo 2^64.
    let p = Polynomial::from_vec(vec![1i64 << 40]);
    let r = p.mul(&p);
    assert!(r.is_zero());
}

#[test]
fn division_round_trip() {
    let p1 = Polynomial::from_vec(vec![5, -3, 0, 7, 2, 1]);
    let p2 = Polynomial::from_vec(vec![4, -2, 1]);
    let (q, r) = Polynomial::euclidean_division_immutable(&p1, &p2);
    assert!(p2.mul(&q).add(&r).equal(&p1));
    assert!(r.degree() < p2.degree());
}

#[test]
fn division_by_constant_unit() {
    let p1 = Polynomial::from_vec(vec![3, 1, 4, 1, 5]);
    let p2 = Polynomial::from_vec(vec![-1]);
    let (q, r) = Polynomial::euclidean_division_immutable(&p1, &p2);
    assert!(r.is_zero());
    assert!(q.equal(&Polynomial::from_vec(vec![-3, -1, -4, -1, -5])));
}

#[test]
fn inverse_correctness() {
    let u = Polynomial::from_vec(vec![-1, 6, 2, -3]);
    let k: usize = 13;
    let v = Polynomial::inverse(&u, k);
    assert!(Polynomial::short_product(&u, &v, k).equal(&Polynomial::from_vec(vec![1])));
}

#[test]
fn gcd_divides_both() {
    // p1 = (X + 1)(X + 2), p2 = (X + 1)(X + 3).
    let p1 = Polynomial::from_vec(vec![2, 3, 1]);
    let p2 = Polynomial::from_vec(vec![3, 4, 1]);
    let g = Polynomial::gcd_immutable(&p1, &p2).unwrap();
    // The Euclidean chain ends at X + 1 exactly.
    assert!(g.equal(&Polynomial::from_vec(vec![1, 1])));
    let (_, r1) = Polynomial::euclidean_division_immutable(&p1, &g);
    let (_, r2) = Polynomial::euclidean_division_immutable(&p2, &g);
    assert!(r1.is_zero());
    assert!(r2.is_zero());
}

#[test]
fn gcd_with_zero_is_identity() {
    let p1 = Polynomial::from_vec(vec![2, 3, 1]);
    let zero = Polynomial::new();
    let g = Polynomial::gcd_immutable(&p1, &zero).unwrap();
    assert!(g.equal(&p1));
}

#[test]
fn gcd_reports_indivisible_coefficient() {
    // The divisor's leading coefficient 3 does not divide 1.
    let p1 = Polynomial::from_vec(vec![1, 1]);
    let p2 = Polynomial::from_vec(vec![3]);
    let e = Polynomial::gcd_immutable(&p1, &p2).unwrap_err();
    assert_eq!(e.leading, 3);
    assert_eq!(e.coefficient, 1);
    assert_eq!(e.index, 0);
}

#[test]
fn integer_power() {
    let p = Polynomial::from_vec(vec![1, 0, 2]);
    assert!(p.powi(3).equal(&Polynomial::from_vec(vec![1, 0, 6, 0, 12, 0, 8])));
    assert!(p.powi(0).equal(&Polynomial::one()));
    assert!(Polynomial::new().powi(0).is_zero());
}

#[test]
fn shift_round_trip() {
    let p = Polynomial::from_vec(vec![1, 0, 2]);
    let shifted = p.shl(2);
    assert!(shifted.equal(&Polynomial::from_vec(vec![0, 0, 1, 0, 2])));
    assert!(shifted.shr(2).equal(&p));
}

#[test]
fn shift_assign_round_trip() {
    let mut p = Polynomial::from_vec(vec![4, 7]);
    p.shl_assign(3);
    assert!(p.equal(&Polynomial::from_vec(vec![0, 0, 0, 4, 7])));
    p.shr_assign(3);
    assert!(p.equal(&Polynomial::from_vec(vec![4, 7])));
}

#[test]
fn shift_assign_zero_polynomial() {
    let mut z = Polynomial::new();
    z.shl_assign(2);
    assert_eq!(z.coeffs, vec![0, 0]);
    z.shr_assign(2);
    assert!(z.is_zero());
}

#[test]
fn eval_horner() {
    let p = Polynomial::from_vec(vec![1, 0, 2]);
    assert_eq!(p.eval(2), 9);
    assert_eq!(p.eval(-3), 19);
}

#[test]
fn eval_wraps() {
    let p = Polynomial::from_vec(vec![i64::MAX]);
    let q = p.add(&Polynomial::from_vec(vec![1]));
    assert!(q.equal(&Polynomial::from_vec(vec![i64::MIN])));
}

#[test]
fn construction_trims_trailing_zeros() {
    let p = Polynomial::from_vec(vec![1, 2, 0, 0]);
    assert_eq!(p.coeffs.len(), 2);
    assert_eq!(p.degree(), 1);
    let z = Polynomial::from_vec(vec![0, 0, 0]);
    assert!(z.is_zero());
    assert!(z.is_empty());
    assert_eq!(z.degree(), 0);
}

#[test]
fn clean_zeros_restores_canonical_form() {
    let mut p = Polynomial::from_vec(vec![0, 1]);
    p.rev_inplace();
    assert_eq!(p.coeffs.len(), 2);
    p.clean_zeros();
    assert!(p.equal(&Polynomial::from_vec(vec![1])));
}

#[test]
fn rev_trims() {
    let p = Polynomial::from_vec(vec![0, 1, 2]);
    assert!(p.rev().equal(&Polynomial::from_vec(vec![2, 1])));
}

#[test]
fn monomial_checks() {
    assert!(Polynomial::from_vec(vec![0, 1]).is_x());
    assert!(!Polynomial::from_vec(vec![0, 2]).is_x());
    assert!(!Polynomial::one().is_x());
    assert_eq!(Polynomial::from_vec(vec![5, 6, 7]).coefficient(1), 6);
    assert_eq!(Polynomial::from_vec(vec![5, 6, 7]).coefficient(9), 0);
}

#[test]
fn parse_decimals_and_superscripts() {
    let p = Polynomial::parse_string("2X\u{00b2} + 3".to_string()).unwrap();
    assert!(p.equal(&Polynomial::from_vec(vec![3, 0, 2])));
    let q = Polynomial::parse_string("-X + 1".to_string()).unwrap();
    assert!(q.equal(&Polynomial::from_vec(vec![1, -1])));
}

#[test]
fn parse_errors() {
    assert_eq!(Polynomial::parse_string("".to_string()).unwrap_err(), "EmptyStringInput");
    assert_eq!(Polynomial::parse_string("X + &".to_string()).unwrap_err(), "UnsupportedCharacter");
    assert_eq!(Polynomial::parse_string(")".to_string()).unwrap_err(), "ImpossibleClose");
    assert_eq!(Polynomial::parse_string("1/X".to_string()).unwrap_err(), "ImpossibleDivision");
    assert_eq!(Polynomial::parse_string("-*X".to_string()).unwrap_err(), "UnaryMinusFailed");
}

#[test]
fn latex_small_cases() {
    assert_eq!(Polynomial::new().to_latex_string(), "0");
    assert_eq!(Polynomial::from_vec(vec![5]).to_latex_string(), "5.00");
    assert_eq!(Polynomial::from_vec(vec![1, 2]).to_latex_string(), "2.00\\, X + 1.00");
}
