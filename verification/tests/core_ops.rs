use polyx::Polynomial;

#[test]
fn test_instantiate() {
    let p1 = Polynomial::from_vec(vec![0, 2, 1]); // X^2 + 2X
    let p2 = Polynomial::parse_string("X(X + 2)".to_string()).unwrap();
    let p3 = Polynomial::parse_string("X ^ 2 + 2X".to_string()).unwrap();
    assert!(p1.equal(&p2));
    assert!(p1.equal(&p3));
}

#[test]
fn test_op() {
    let p1 = Polynomial::parse_string("X ^ 3".to_string()).unwrap();
    let p2 = Polynomial::parse_string("X ^ 2(1 + X)".to_string()).unwrap();
    assert!(p1.sub(&p2).equal(&Polynomial::from_vec(vec![0, 0, -1])));
    assert!(p1.add(&p2).equal(&Polynomial::from_vec(vec![0, 0, 1, 2])));
    assert!(p1.mul(&p2).equal(&Polynomial::from_vec(vec![0, 0, 0, 0, 0, 1, 1])));
}

#[test]
fn test_euclid() {
    let a = Polynomial::from_vec(vec![1, 0, 2]);
    let b = Polynomial::from_vec(vec![1, 1]);
    let (q, r) = Polynomial::euclidean_division_immutable(&a, &b);
    assert!(b.mul(&q).add(&r).equal(&a));

    let mut a = Polynomial::from_vec(vec![1, 0, 2]);
    let mut b = Polynomial::from_vec(vec![1, 1]);
    let (q, r) = Polynomial::euclidean_division(&mut a, &mut b);
    assert!(b.mul(&q).add(&r).equal(&a));
}

#[test]
fn test_inv_sp() {
    let p = Polynomial::from_vec(vec![1, -4, 0, -2, 5, 1, 1, 1]);
    let inv10 = Polynomial::inverse(&p, 10);
    assert!(Polynomial::short_product(&p, &inv10, 10).equal(&Polynomial::from_vec(vec![1])));
}

#[test]
fn test_shift() {
    let p = Polynomial::from_vec(vec![1, 0, 2]);
    assert!(p.shl(2).equal(&Polynomial::from_vec(vec![0, 0, 1, 0, 2])));
    assert!(p.shr(2).equal(&Polynomial::from_vec(vec![2])));
}

#[test]
fn test_latex() {
    let p = Polynomial::from_vec(vec![1, 2, -5, -3]);
    println!("{}", p.to_latex_string());
}
