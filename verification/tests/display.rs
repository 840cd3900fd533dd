use bullet::builder::Builder;
use bullet::display::{int_super, nat_string, wrap_poly, Tokens};
use bullet::func::{Func, Transient};
use bullet::node::{Op, Sign};
use bullet::poly::Poly;
use bullet::rational::Rational;

fn text(b: &Builder, h: bullet::node::NodeRc) -> String {
    Tokens::node(b.cache(), h).to_string()
}

#[test]
fn tokens_are_joined_with_spaces() {
    let mut tokens = Tokens::new();
    assert_eq!(tokens.len(), 0);
    assert_eq!(tokens.to_string(), "");
    tokens.push("a");
    assert_eq!(tokens.to_string(), "a");
    tokens.push("+");
    tokens.push("b");
    assert_eq!(tokens.len(), 3);
    assert_eq!(tokens.to_string(), "a + b");
}

#[test]
fn superscripts() {
    assert_eq!(int_super(0), "⁰");
    assert_eq!(int_super(2), "²");
    assert_eq!(int_super(-12), "⁻¹²");
    assert_eq!(int_super(1234567890), "¹²³⁴⁵⁶⁷⁸⁹⁰");
    assert_eq!(int_super(i64::MIN), "⁻⁹²²³³⁷²⁰³⁶⁸⁵⁴⁷⁷⁵⁸⁰⁸");
    assert_eq!(nat_string(0, false), "0");
    assert_eq!(nat_string(907, false), "907");
    assert_eq!(nat_string(u64::MAX, false), "18446744073709551615");
}

#[test]
fn text_of_nodes() {
    let mut b = Builder::new();
    let x = b.var("x");
    let y = b.var("y");
    assert_eq!(text(&b, x), "x");
    let one = b.integer(1);
    let sum = b.add(x, one).unwrap();
    assert_eq!(text(&b, sum), "1 + x");
    let two = b.integer(2);
    let double = b.mul(two, x).unwrap();
    assert_eq!(text(&b, double), "2 x");
    let square = b.mul(x, x).unwrap();
    assert_eq!(text(&b, square), "x²");
    let minus = b.neg(x).unwrap();
    assert_eq!(text(&b, minus), "- x");
    let half = b.div(x, two).unwrap();
    assert_eq!(text(&b, half), "x / 2");
    let inverse = b.pow_i(x, -1).unwrap();
    assert_eq!(text(&b, inverse), "x⁻¹");
    let zero = b.integer(0);
    assert_eq!(text(&b, zero), "0");
    let negative = b.rational(Rational::new(-3, 4).unwrap());
    assert_eq!(text(&b, negative), "- 3 / 4");
    let plus = b.add(x, one).unwrap();
    let quotient = b.div(plus, plus).unwrap();
    // a base is written as its own tokens, without parentheses
    assert_eq!(text(&b, quotient), "1 + x⁻¹ + x 1 + x⁻¹");
    let difference = b.sub(x, y).unwrap();
    assert_eq!(text(&b, difference), "x - y");
    let sine = b.func(Func::Transient(Transient::Sin), sum).unwrap();
    assert_eq!(text(&b, sine), "sin(1 + x)");
    let pair = b.tuple(vec![Ok(x), Ok(sum), Ok(sine)]).unwrap();
    assert_eq!(text(&b, pair), "(x, 1 + x, sin(1 + x))");
    let empty = b.tuple(vec![]).unwrap();
    assert_eq!(text(&b, empty), "()");
    let product = b.mul(sine, y).unwrap();
    assert_eq!(text(&b, product), "y sin(1 + x)");
}

#[test]
fn text_of_polynomials() {
    let mut b = Builder::new();
    let x = b.var("x");
    let px = Poly::from_node(b.cache(), x);
    assert_eq!(px.to_string(b.cache()), "x");
    assert_eq!(wrap_poly(b.cache(), &px), "x");
    let sum = px.clone().add(Poly::integer(1)).unwrap();
    assert_eq!(sum.to_string(b.cache()), "(1 + x)");
    assert_eq!(wrap_poly(b.cache(), &sum), "(1 + x)");
    assert_eq!(Poly::zero().to_string(b.cache()), "0");
    assert_eq!(Poly::integer(0).to_string(b.cache()), "0");
    assert_eq!(Poly::integer(-4).to_string(b.cache()), "- 4");
    assert_eq!(wrap_poly(b.cache(), &Poly::zero()), "0");
    let double = px.scale_int(2).unwrap();
    assert_eq!(double.to_string(b.cache()), "2 x");
    assert_eq!(wrap_poly(b.cache(), &double), "(2 x)");
    let mut tokens = Tokens::new();
    tokens.push("=");
    tokens.poly(b.cache(), &Poly::zero());
    assert_eq!(tokens.to_string(), "=");
    tokens.poly(b.cache(), &sum);
    assert_eq!(tokens.to_string(), "= 1 + x");
}

#[test]
fn names_of_functions_and_operators() {
    assert_eq!(Func::Transient(Transient::Sin).name(), "sin");
    assert_eq!(Func::Transient(Transient::Cos).name(), "cos");
    assert_eq!(Transient::Exp.name(), "exp");
    assert_eq!(Transient::Log.name(), "log");
    assert_eq!(Op::Diff("x".to_string()).text(), "d/dx");
    assert_ne!(Sign::Negative, Sign::Positive);
}
