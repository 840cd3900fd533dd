use bullet::builder::{Builder, Error};
use bullet::func::{Func, Transient};

#[test]
fn one_plus_two_is_three() {
    let mut b = Builder::new();
    let one = b.integer(1);
    let two = b.integer(2);
    let sum = b.add(one, two).unwrap();
    assert_eq!(sum, b.integer(3));
}

#[test]
fn a_over_a_is_one() {
    let mut b = Builder::new();
    let a = b.var("a");
    let q = b.div(a, a).unwrap();
    assert_eq!(q, b.integer(1));
}

#[test]
fn general_power_is_exp_of_log() {
    let mut b = Builder::new();
    let a = b.var("a");
    let e = b.var("b");
    let power = b.pow(a, e).unwrap();
    let log = b.func(Func::Transient(Transient::Log), a).unwrap();
    let arg = b.mul(e, log).unwrap();
    let expected = b.func(Func::Transient(Transient::Exp), arg).unwrap();
    assert_eq!(power, expected);
}

#[test]
fn three_cubed_is_twenty_seven() {
    let mut b = Builder::new();
    let three = b.integer(3);
    let power = b.pow(three, three).unwrap();
    assert_eq!(power, b.integer(27));
}

#[test]
fn tuple_plus_scalar_broadcasts() {
    let mut b = Builder::new();
    let x = b.var("x");
    let y = b.var("y");
    let one = b.integer(1);
    let t = b.tuple(vec![Ok(x), Ok(y)]).unwrap();
    let sum = b.add(t, one).unwrap();
    let x1 = b.add(x, one);
    let y1 = b.add(y, one);
    let expected = b.tuple(vec![x1, y1]).unwrap();
    assert_eq!(sum, expected);
}

#[test]
fn defined_function_maps_over_tuple() {
    let mut b = Builder::new();
    let x = b.var("x");
    let body = b.mul(x, x).unwrap();
    b.define("f", &["x"], body);
    let f = b.var("f");
    let p = b.var("p");
    let q = b.var("q");
    let t = b.tuple(vec![Ok(p), Ok(q)]).unwrap();
    let applied = b.apply(f, t).unwrap();
    let pp = b.mul(p, p);
    let qq = b.mul(q, q);
    let expected = b.tuple(vec![pp, qq]).unwrap();
    assert_eq!(applied, expected);
}

#[test]
fn mismatched_tuples_report_both_lengths() {
    let mut b = Builder::new();
    let x = b.var("x");
    let y = b.var("y");
    let z = b.var("z");
    let two = b.tuple(vec![Ok(x), Ok(y)]).unwrap();
    let three = b.tuple(vec![Ok(x), Ok(y), Ok(z)]).unwrap();
    assert_eq!(b.add(two, three), Err(Error::ShapeMismatch(2, 3)));
    assert_eq!(b.mul(three, two), Err(Error::ShapeMismatch(3, 2)));
}
