use bullet::lift::base_single;
use bullet::monomial::{base_mul, base_order, base_pow, Rank};
use bullet::node::{Cache, Node, NodeRc};
use bullet::poly::{Poly, PolyError};
use bullet::rational::Rational;

fn store_with_vars(names: &[&str]) -> (Cache, Vec<NodeRc>) {
    let mut cache = Cache::new();
    let mut handles = Vec::new();
    for name in names {
        handles.push(cache.intern(Node::Var(name.to_string())));
    }
    (cache, handles)
}

fn var_poly(cache: &Cache, h: NodeRc) -> Poly {
    Poly::from_node(cache, h)
}

#[test]
fn zero_is_the_identity_of_addition() {
    let (cache, h) = store_with_vars(&["x"]);
    let x = var_poly(&cache, h[0]);
    let sum = x.clone().add(Poly::zero()).unwrap();
    assert!(sum.equals(&x));
    let sum = Poly::zero().add(x.clone()).unwrap();
    assert!(sum.equals(&x));
    assert!(Poly::zero().is_zero());
    assert!(!x.is_zero());
}

#[test]
fn addition_is_commutative_and_associative() {
    let (cache, h) = store_with_vars(&["x", "y", "z"]);
    let x = var_poly(&cache, h[0]);
    let y = var_poly(&cache, h[1]);
    let z = var_poly(&cache, h[2]);
    let xy = x.clone().add(y.clone()).unwrap();
    let yx = y.clone().add(x.clone()).unwrap();
    assert!(xy.equals(&yx));
    let left = xy.add(z.clone()).unwrap();
    let right = x.add(y.add(z).unwrap()).unwrap();
    assert!(left.equals(&right));
    assert_eq!(left.len(), 3);
}

#[test]
fn terms_that_cancel_are_dropped() {
    let (cache, h) = store_with_vars(&["x"]);
    let x = var_poly(&cache, h[0]);
    let minus = x.clone().scale_int(-1).unwrap();
    let sum = x.add(minus).unwrap();
    assert!(sum.is_zero());
    assert_eq!(sum.len(), 0);
}

#[test]
fn multiplication_is_commutative_and_associative() {
    let (cache, h) = store_with_vars(&["x", "y", "z"]);
    let x = var_poly(&cache, h[0]);
    let y = var_poly(&cache, h[1]);
    let z = var_poly(&cache, h[2]);
    let a = x.clone().add(Poly::integer(1)).unwrap();
    let b = y.clone().add(x.clone()).unwrap();
    let c = z.clone().add(Poly::integer(-2)).unwrap();
    let ab = a.clone().mul(b.clone()).unwrap();
    let ba = b.clone().mul(a.clone()).unwrap();
    assert!(ab.equals(&ba));
    let left = ab.mul(c.clone()).unwrap();
    let right = a.mul(b.mul(c).unwrap()).unwrap();
    assert!(left.equals(&right));
}

#[test]
fn one_is_the_identity_of_multiplication() {
    let (cache, h) = store_with_vars(&["x"]);
    let x = var_poly(&cache, h[0]);
    let p = x.add(Poly::integer(3)).unwrap();
    let one = Poly::rational(Rational::from_int(1));
    assert!(p.clone().mul(one.clone()).unwrap().equals(&p));
    assert!(one.mul(p.clone()).unwrap().equals(&p));
}

#[test]
fn product_of_sum_and_difference() {
    // (x + 1) (x - 1) == x^2 - 1
    let (cache, h) = store_with_vars(&["x"]);
    let x = var_poly(&cache, h[0]);
    let plus = x.clone().add(Poly::integer(1)).unwrap();
    let minus = x.clone().add(Poly::integer(-1)).unwrap();
    let product = plus.mul(minus).unwrap();
    let square = x.clone().mul(x).unwrap();
    let expected = square.add(Poly::integer(-1)).unwrap();
    assert!(product.equals(&expected));
    assert_eq!(product.len(), 2);
}

#[test]
fn exponents_that_cancel_remove_the_base() {
    let (mut cache, h) = store_with_vars(&["x"]);
    let x = var_poly(&cache, h[0]);
    let inverse = x.clone().pow_i(&mut cache, -1).unwrap();
    let product = x.mul(inverse).unwrap();
    assert!(product.equals(&Poly::integer(1)));
    assert_eq!(product.as_int(), Some(1));
}

#[test]
fn scaling_multiplies_every_coefficient() {
    let (cache, h) = store_with_vars(&["x"]);
    let x = var_poly(&cache, h[0]);
    let p = x.clone().add(Poly::integer(3)).unwrap();
    let scaled = p.scale(Rational::new(1, 2).unwrap()).unwrap();
    let half_x = x.scale(Rational::new(1, 2).unwrap()).unwrap();
    let expected = half_x.add(Poly::rational(Rational::new(3, 2).unwrap())).unwrap();
    assert!(scaled.equals(&expected));
    assert!(expected.scale_int(0).unwrap().is_zero());
}

#[test]
fn overflow_is_an_error() {
    let big = Poly::integer(i64::MAX);
    assert_eq!(big.clone().add(Poly::integer(1)).unwrap_err(), PolyError::Overflow);
    assert_eq!(big.clone().mul(Poly::integer(2)).unwrap_err(), PolyError::Overflow);
    assert_eq!(big.clone().scale_int(2).unwrap_err(), PolyError::Overflow);
    assert_eq!(big.pow_n(2).unwrap_err(), PolyError::Overflow);
}

#[test]
fn powers_by_squaring() {
    let (cache, h) = store_with_vars(&["x"]);
    let x = var_poly(&cache, h[0]);
    let p = x.add(Poly::integer(1)).unwrap();
    let cube = p.clone().pow_n(3).unwrap();
    let expected = p.clone().mul(p.clone()).unwrap().mul(p.clone()).unwrap();
    assert!(cube.equals(&expected));
    assert_eq!(cube.len(), 4);
    assert!(p.clone().pow_n(0).unwrap().equals(&Poly::integer(1)));
    assert!(p.clone().pow_n(1).unwrap().equals(&p));
}

#[test]
fn integer_power_of_a_constant() {
    let mut cache = Cache::new();
    let three = Poly::integer(3);
    assert_eq!(three.clone().pow_i(&mut cache, 3).unwrap().as_int(), Some(27));
    assert_eq!(three.clone().pow_i(&mut cache, 0).unwrap().as_int(), Some(1));
    let third = three.pow_i(&mut cache, -1).unwrap();
    assert_eq!(third.as_rational(), Rational::new(1, 3));
    assert_eq!(Poly::zero().pow_i(&mut cache, -1).unwrap_err(), PolyError::DivZero);
    assert!(Poly::zero().pow_i(&mut cache, 2).unwrap().is_zero());
    assert_eq!(Poly::zero().pow_i(&mut cache, 0).unwrap().as_int(), Some(1));
    assert_eq!(Poly::integer(2).pow_i(&mut cache, 64).unwrap_err(), PolyError::Overflow);
}

#[test]
fn integer_power_of_a_single_term() {
    let (mut cache, h) = store_with_vars(&["x"]);
    let x = var_poly(&cache, h[0]);
    let two_x = x.clone().scale_int(2).unwrap();
    let power = two_x.pow_i(&mut cache, -3).unwrap();
    assert_eq!(power.len(), 1);
    let (base, fac) = power.term(0);
    assert_eq!(base, &vec![(h[0], -3)]);
    assert_eq!(fac, Rational::new(1, 8).unwrap());
    assert_eq!(cache.len(), 1);
}

#[test]
fn small_powers_are_multiplied_out_and_others_wrapped() {
    let (mut cache, h) = store_with_vars(&["x"]);
    let x = var_poly(&cache, h[0]);
    let p = x.add(Poly::integer(1)).unwrap();
    let square = p.clone().pow_i(&mut cache, 2).unwrap();
    assert_eq!(square.len(), 3);
    assert_eq!(cache.len(), 1);
    let fourth = p.clone().pow_i(&mut cache, 4).unwrap();
    assert_eq!(fourth.len(), 1);
    assert_eq!(cache.len(), 2);
    let (base, fac) = fourth.term(0);
    assert_eq!(base, &vec![(NodeRc { id: 1 }, 4)]);
    assert_eq!(fac, Rational::from_int(1));
    let inverse = p.pow_i(&mut cache, -1).unwrap();
    assert_eq!(inverse.term(0).0, &vec![(NodeRc { id: 1 }, -1)]);
    assert_eq!(cache.len(), 2);
}

#[test]
fn from_node_unwraps_polynomials() {
    let (mut cache, h) = store_with_vars(&["x"]);
    let x = var_poly(&cache, h[0]);
    assert_eq!(x.len(), 1);
    assert_eq!(x.term(0).0, &vec![(h[0], 1)]);
    let p = x.add(Poly::integer(1)).unwrap();
    let node = cache.intern(Node::Poly(p.clone()));
    assert!(Poly::from_node(&cache, node).equals(&p));
}

#[test]
fn constants_are_recognised() {
    let (cache, h) = store_with_vars(&["x"]);
    assert_eq!(Poly::zero().as_rational(), Some(Rational::from_int(0)));
    assert_eq!(Poly::zero().as_int(), Some(0));
    let half = Poly::rational(Rational::new(1, 2).unwrap());
    assert_eq!(half.as_rational(), Rational::new(1, 2));
    assert_eq!(half.as_int(), None);
    let x = var_poly(&cache, h[0]);
    assert_eq!(x.as_rational(), None);
    assert_eq!(x.add(Poly::integer(1)).unwrap().as_rational(), None);
    assert!(Poly::rational(Rational::from_int(0)).is_zero());
}

#[test]
fn split_gives_one_polynomial_for_each_term() {
    let (cache, h) = store_with_vars(&["x", "y"]);
    let x = var_poly(&cache, h[0]);
    let y = var_poly(&cache, h[1]);
    let p = x.clone().add(y.clone()).unwrap().add(Poly::integer(5)).unwrap();
    let parts = p.split();
    assert_eq!(parts.len(), 3);
    assert!(parts[0].equals(&Poly::integer(5)));
    assert!(parts[1].equals(&x));
    assert!(parts[2].equals(&y));
    assert_eq!(Poly::zero().split().len(), 0);
}

#[test]
fn order_of_polynomials() {
    let (cache, h) = store_with_vars(&["x", "y"]);
    let x = var_poly(&cache, h[0]);
    let y = var_poly(&cache, h[1]);
    let xy = x.clone().add(y.clone()).unwrap();
    assert_eq!(x.compare(&xy), Rank::Less);
    assert_eq!(xy.compare(&x), Rank::Greater);
    assert_eq!(x.compare(&y), Rank::Less);
    assert_eq!(y.compare(&x), Rank::Greater);
    // the coefficients play no part
    assert_eq!(x.compare(&x.clone().scale_int(2).unwrap()), Rank::Equal);
    assert!(!x.equals(&x.clone().scale_int(2).unwrap()));
}

#[test]
fn order_of_monomials() {
    let a = NodeRc { id: 0 };
    let b = NodeRc { id: 1 };
    assert_eq!(base_order(&vec![], &vec![(a, 1)]), Rank::Less);
    assert_eq!(base_order(&vec![(a, 5)], &vec![(b, 1)]), Rank::Less);
    assert_eq!(base_order(&vec![(a, 1)], &vec![(a, 2)]), Rank::Less);
    assert_eq!(base_order(&vec![(a, 2), (b, 1)], &vec![(a, 2), (b, 1)]), Rank::Equal);
    assert_eq!(base_order(&vec![(a, 1), (b, 1)], &vec![(b, 7)]), Rank::Greater);
}

#[test]
fn products_and_powers_of_monomials() {
    let a = NodeRc { id: 0 };
    let b = NodeRc { id: 1 };
    let c = NodeRc { id: 2 };
    let product = base_mul(&vec![(a, 1), (c, 2)], &vec![(a, -1), (b, 3), (c, 1)]);
    assert_eq!(product, Some(vec![(b, 3), (c, 3)]));
    assert_eq!(base_mul(&vec![(a, i64::MAX)], &vec![(a, 1)]), None);
    assert_eq!(base_pow(&vec![(a, 2), (b, -1)], -3), Some(vec![(a, -6), (b, 3)]));
    assert_eq!(base_pow(&vec![(a, i64::MAX)], 2), None);
    assert_eq!(base_single(b, 4), vec![(b, 4)]);
}

#[test]
fn factors_are_the_terms_in_order() {
    let (cache, h) = store_with_vars(&["x", "y"]);
    let x = var_poly(&cache, h[0]);
    let y = var_poly(&cache, h[1]);
    let p = x.scale_int(2).unwrap().add(y).unwrap().add(Poly::integer(-1)).unwrap();
    assert_eq!(
        p.factors(),
        vec![
            (vec![], Rational::from_int(-1)),
            (vec![(h[0], 1)], Rational::from_int(2)),
            (vec![(h[1], 1)], Rational::from_int(1)),
        ]
    );
    assert!(Poly::zero().factors().is_empty());
}

#[test]
fn each_power_is_the_polynomial_times_the_power_before() {
    let (cache, h) = store_with_vars(&["x", "y"]);
    let x = var_poly(&cache, h[0]);
    let y = var_poly(&cache, h[1]);
    let p = x.add(y.scale_int(-2).unwrap()).unwrap().add(Poly::integer(3)).unwrap();
    for n in 0..6 {
        let next = p.clone().pow_n(n + 1).unwrap();
        let step = p.clone().mul(p.clone().pow_n(n).unwrap()).unwrap();
        assert!(next.equals(&step));
    }
}
