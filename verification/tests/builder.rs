use bullet::builder::{copy_strings, lookup, repeat, Builder, Error};
use bullet::decimal::parse_i64;
use bullet::func::{Func, Transient};
use bullet::hash::{code_of, hash_str, mix_in};
use bullet::node::{Node, NodeRc};
use bullet::poly::{Poly, PolyError};
use bullet::rational::Rational;

#[test]
fn interning_is_idempotent() {
    let mut b = Builder::new();
    let first = b.var("a");
    let n = b.len();
    let other = b.var("b");
    let second = b.var("a");
    assert_eq!(first, second);
    assert_ne!(first, other);
    assert_eq!(b.len(), n + 1);
    let three = b.integer(3);
    assert_eq!(b.rational(Rational::new(6, 2).unwrap()), three);
    assert_eq!(b.poly(Poly::integer(3)), three);
    assert_eq!(b.intern(Node::Poly(Poly::integer(3))), three);
}

#[test]
fn a_new_builder_knows_the_transcendental_functions() {
    let mut b = Builder::new();
    assert_eq!(b.len(), 5);
    assert_eq!(b.var("x"), NodeRc { id: 0 });
    let x = b.var("x");
    assert_eq!(b.func(Func::Transient(Transient::Sin), x), Ok(NodeRc { id: 1 }));
    assert_eq!(b.func(Func::Transient(Transient::Log), x), Ok(NodeRc { id: 4 }));
    let y = b.var("y");
    for (name, t) in [
        ("sin", Transient::Sin),
        ("cos", Transient::Cos),
        ("exp", Transient::Exp),
        ("log", Transient::Log),
    ] {
        let f = b.var(name);
        let applied = b.apply(f, y);
        assert_eq!(applied, b.func(Func::Transient(t), y));
    }
}

#[test]
fn canonical_form_does_not_depend_on_the_order() {
    let mut b = Builder::new();
    let a = b.var("a");
    let c = b.var("c");
    let d = b.var("d");
    let ac = b.add(a, c).unwrap();
    let left = b.add(ac, d).unwrap();
    let cd = b.add(c, d).unwrap();
    let right = b.add(a, cd).unwrap();
    assert_eq!(left, right);
    let ca = b.add(c, a).unwrap();
    assert_eq!(ac, ca);
    // (a + c)(a - c) == a a - c c
    let difference = b.sub(a, c).unwrap();
    let product = b.mul(ac, difference).unwrap();
    let aa = b.mul(a, a).unwrap();
    let cc = b.mul(c, c).unwrap();
    assert_eq!(product, b.sub(aa, cc).unwrap());
}

#[test]
fn decimal_literals() {
    let mut b = Builder::new();
    let n = b.decimal("42").unwrap();
    assert_eq!(n, b.integer(42));
    let n = b.decimal("-7").unwrap();
    assert_eq!(n, b.integer(-7));
    let n = b.decimal("+007").unwrap();
    assert_eq!(n, b.integer(7));
    let n = b.decimal("-9223372036854775808").unwrap();
    assert_eq!(n, b.integer(i64::MIN));
    assert_eq!(b.decimal(""), Err(Error::IntegerError));
    assert_eq!(b.decimal("-"), Err(Error::IntegerError));
    assert_eq!(b.decimal("12a"), Err(Error::IntegerError));
    assert_eq!(b.decimal("1 2"), Err(Error::IntegerError));
    assert_eq!(b.decimal("9223372036854775808"), Err(Error::IntegerError));
    assert_eq!(b.decimal("99999999999999999999999999999999999999999999"), Err(Error::IntegerError));
}

#[test]
fn digit_strings() {
    assert_eq!(parse_i64("0"), Some(0));
    assert_eq!(parse_i64("9223372036854775807"), Some(i64::MAX));
    assert_eq!(parse_i64("-9223372036854775809"), None);
    assert_eq!(parse_i64("+"), None);
    assert_eq!(parse_i64("--1"), None);
    assert_eq!(parse_i64("٣"), None);
}

#[test]
fn decimal_numbers_with_a_point() {
    let mut b = Builder::new();
    let n = b.decimal_float("1.5").unwrap();
    assert_eq!(n, b.rational(Rational::new(3, 2).unwrap()));
    let n = b.decimal_float("0.25").unwrap();
    assert_eq!(n, b.rational(Rational::new(1, 4).unwrap()));
    let n = b.decimal_float("12.00").unwrap();
    assert_eq!(n, b.integer(12));
    assert_eq!(b.decimal_float(".5"), Err(Error::IntegerError));
    assert_eq!(b.decimal_float("1."), Err(Error::IntegerError));
    assert_eq!(b.decimal_float("1.x"), Err(Error::IntegerError));
    assert_eq!(b.decimal_float("1.2.3"), Err(Error::IntegerError));
    assert_eq!(b.decimal_float("1.0000000000000000000"), Err(Error::Overflow));
    let n = b.decimal_float("1.000000000000000000").unwrap();
    assert_eq!(n, b.integer(1));
}

#[test]
fn division_by_the_literal_zero_fails() {
    let mut b = Builder::new();
    let a = b.var("a");
    let zero = b.integer(0);
    assert_eq!(b.div(a, zero), Err(Error::DivZero));
    assert_eq!(b.pow_i(zero, -1), Err(Error::DivZero));
    assert_eq!(Error::from_poly(PolyError::DivZero), Error::DivZero);
    assert_eq!(Error::from_poly(PolyError::Overflow), Error::Overflow);
}

#[test]
fn results_that_cannot_be_stored_fail() {
    let mut b = Builder::new();
    let big = b.integer(i64::MAX);
    let one = b.integer(1);
    assert_eq!(b.add(big, one), Err(Error::Overflow));
    assert_eq!(b.mul(big, big), Err(Error::Overflow));
    let least = b.integer(i64::MIN);
    assert_eq!(b.neg(least), Err(Error::Overflow));
    assert_eq!(b.sub(one, least), Err(Error::Overflow));
}

#[test]
fn arrays_are_not_implemented() {
    let mut b = Builder::new();
    let a = b.var("a");
    assert_eq!(b.array(vec![Ok(a)]), Err(Error::NotImplemented));
    assert_eq!(b.array(vec![]), Err(Error::NotImplemented));
}

#[test]
fn negation_and_subtraction() {
    let mut b = Builder::new();
    let a = b.var("a");
    let minus = b.neg(a).unwrap();
    let zero = b.add(a, minus).unwrap();
    assert_eq!(zero, b.integer(0));
    assert_eq!(b.sub(a, a).unwrap(), zero);
    let two = b.integer(2);
    let five = b.integer(5);
    let difference = b.sub(two, five).unwrap();
    assert_eq!(difference, b.integer(-3));
}

#[test]
fn integer_powers_of_nodes() {
    let mut b = Builder::new();
    let a = b.var("a");
    let square = b.pow_i(a, 2).unwrap();
    assert_eq!(square, b.mul(a, a).unwrap());
    let two = b.integer(2);
    let power = b.pow(a, two).unwrap();
    assert_eq!(power, square);
    let inverse = b.pow_i(a, -1).unwrap();
    let one = b.mul(a, inverse).unwrap();
    assert_eq!(one, b.integer(1));
    let half = b.rational(Rational::new(1, 2).unwrap());
    let root = b.pow(a, half).unwrap();
    let log = b.func(Func::Transient(Transient::Log), a).unwrap();
    let arg = b.mul(log, half).unwrap();
    assert_eq!(root, b.func(Func::Transient(Transient::Exp), arg).unwrap());
}

#[test]
fn operations_broadcast_over_tuples() {
    let mut b = Builder::new();
    let x = b.var("x");
    let y = b.var("y");
    let two = b.integer(2);
    let t = b.tuple(vec![Ok(x), Ok(y)]).unwrap();
    // a tuple and a scalar, in both orders
    let doubled = b.mul(two, t).unwrap();
    let x2 = b.mul(two, x);
    let y2 = b.mul(two, y);
    assert_eq!(doubled, b.tuple(vec![x2, y2]).unwrap());
    // two tuples
    let sum = b.add(t, doubled).unwrap();
    let three = b.integer(3);
    assert_eq!(sum, b.mul(three, t).unwrap());
    // powers and functions
    let squares = b.pow(t, two).unwrap();
    let xx = b.mul(x, x);
    let yy = b.mul(y, y);
    assert_eq!(squares, b.tuple(vec![xx, yy]).unwrap());
    let sines = b.func(Func::Transient(Transient::Sin), t).unwrap();
    let sx = b.func(Func::Transient(Transient::Sin), x);
    let sy = b.func(Func::Transient(Transient::Sin), y);
    assert_eq!(sines, b.tuple(vec![sx, sy]).unwrap());
    let negated = b.neg(t).unwrap();
    let nx = b.neg(x);
    let ny = b.neg(y);
    assert_eq!(negated, b.tuple(vec![nx, ny]).unwrap());
}

#[test]
fn a_failure_in_a_tuple_is_the_failure_of_the_whole() {
    let mut b = Builder::new();
    let x = b.var("x");
    let zero = b.integer(0);
    let t = b.tuple(vec![Ok(x), Ok(zero)]).unwrap();
    assert_eq!(b.div(x, t), Err(Error::DivZero));
    let three = b.tuple(vec![Ok(x), Ok(x), Ok(x)]).unwrap();
    assert_eq!(b.pow(t, three), Err(Error::ShapeMismatch(2, 3)));
    assert_eq!(b.div(three, t), Err(Error::ShapeMismatch(3, 2)));
    assert_eq!(b.sub(t, three), Err(Error::ShapeMismatch(2, 3)));
}

#[test]
fn tuple_sum_and_product_of_results() {
    let mut b = Builder::new();
    let x = b.var("x");
    let y = b.var("y");
    assert_eq!(b.tuple(vec![Ok(x), Err(Error::IntegerError), Err(Error::DivZero)]), Err(Error::IntegerError));
    assert_eq!(b.sum(vec![Ok(x), Err(Error::DivZero), Ok(y)]), Err(Error::DivZero));
    assert_eq!(b.product(vec![Err(Error::NotImplemented)]), Err(Error::NotImplemented));
    let empty_sum = b.sum(vec![]).unwrap();
    assert_eq!(empty_sum, b.integer(0));
    let empty_product = b.product(vec![]).unwrap();
    assert_eq!(empty_product, b.integer(1));
    let sum = b.sum(vec![Ok(x), Ok(y), Ok(x)]).unwrap();
    let two = b.integer(2);
    let xx = b.mul(two, x).unwrap();
    assert_eq!(sum, b.add(xx, y).unwrap());
    let product = b.product(vec![Ok(x), Ok(y), Ok(x)]).unwrap();
    let square = b.mul(x, x).unwrap();
    assert_eq!(product, b.mul(square, y).unwrap());
    let empty = b.tuple(vec![]).unwrap();
    assert_eq!(b.tuple(vec![]).unwrap(), empty);
}

#[test]
fn juxtaposition_multiplies_what_is_no_function() {
    let mut b = Builder::new();
    let two = b.integer(2);
    let x = b.var("x");
    let applied = b.apply(two, x).unwrap();
    assert_eq!(applied, b.mul(two, x).unwrap());
    let y = b.var("y");
    let applied = b.apply(x, y).unwrap();
    assert_eq!(applied, b.mul(x, y).unwrap());
}

#[test]
fn functions_of_several_parameters() {
    let mut b = Builder::new();
    let u = b.var("u");
    let v = b.var("v");
    let body = b.sub(u, v).unwrap();
    b.define("minus", &["u", "v"], body);
    let f = b.var("minus");
    let p = b.var("p");
    let q = b.var("q");
    let pair = b.tuple(vec![Ok(p), Ok(q)]).unwrap();
    let applied = b.apply(f, pair).unwrap();
    assert_eq!(applied, b.sub(p, q).unwrap());
    let triple = b.tuple(vec![Ok(p), Ok(q), Ok(p)]).unwrap();
    assert_eq!(b.apply(f, triple), Err(Error::ShapeMismatch(2, 3)));
    assert_eq!(b.apply(f, p), Err(Error::ShapeMismatch(2, 1)));
    // terms cancel after the substitution
    let same = b.tuple(vec![Ok(p), Ok(p)]).unwrap();
    let applied = b.apply(f, same).unwrap();
    assert_eq!(applied, b.integer(0));
}

#[test]
fn a_later_definition_replaces_an_earlier_one() {
    let mut b = Builder::new();
    let x = b.var("x");
    let one = b.integer(1);
    let first = b.add(x, one).unwrap();
    b.define("f", &["x"], first);
    let second = b.mul(x, x).unwrap();
    b.define("f", &["x"], second);
    let f = b.var("f");
    let three = b.integer(3);
    let applied = b.apply(f, three).unwrap();
    assert_eq!(applied, b.integer(9));
}

#[test]
fn substitution_rebuilds_every_kind_of_node() {
    let mut b = Builder::new();
    let x = b.var("x");
    let y = b.var("y");
    let names = vec!["x".to_string()];
    let two = b.integer(2);
    let values = vec![two];
    // a variable that is bound, and one that is not
    assert_eq!(b.substitute(x, &names, &values), Ok(two));
    assert_eq!(b.substitute(y, &names, &values), Ok(y));
    // a polynomial: x^2 / 2 + y with x = 2 is 2 + y
    let square = b.mul(x, x).unwrap();
    let half = b.div(square, two).unwrap();
    let p = b.add(half, y).unwrap();
    let expected = b.add(two, y).unwrap();
    assert_eq!(b.substitute(p, &names, &values), Ok(expected));
    // a function application and a tuple
    let sin = b.func(Func::Transient(Transient::Sin), p).unwrap();
    let expected_sin = b.func(Func::Transient(Transient::Sin), expected).unwrap();
    assert_eq!(b.substitute(sin, &names, &values), Ok(expected_sin));
    let t = b.tuple(vec![Ok(x), Ok(sin)]).unwrap();
    let expected_t = b.tuple(vec![Ok(two), Ok(expected_sin)]).unwrap();
    assert_eq!(b.substitute(t, &names, &values), Ok(expected_t));
    // a failure inside
    let inverse = b.pow_i(x, -1).unwrap();
    let zero = b.integer(0);
    assert_eq!(b.substitute(inverse, &names, &vec![zero]), Err(Error::DivZero));
}

#[test]
fn the_last_binding_of_a_name_counts() {
    let names = vec!["a".to_string(), "b".to_string(), "a".to_string()];
    let values = vec![NodeRc { id: 1 }, NodeRc { id: 2 }, NodeRc { id: 3 }];
    assert_eq!(lookup(&names, &values, &"a".to_string()), Some(NodeRc { id: 3 }));
    assert_eq!(lookup(&names, &values, &"b".to_string()), Some(NodeRc { id: 2 }));
    assert_eq!(lookup(&names, &values, &"c".to_string()), None);
    assert_eq!(lookup(&names, &values[..1].to_vec(), &"b".to_string()), None);
    assert_eq!(copy_strings(&names), names);
    assert_eq!(repeat(NodeRc { id: 4 }, 3), vec![NodeRc { id: 4 }; 3]);
}

#[test]
fn nodes_can_be_read_back() {
    let mut b = Builder::new();
    let a = b.var("a");
    assert!(matches!(b.node(a), Node::Var(name) if name == "a"));
    let s = b.func(Func::Transient(Transient::Cos), a).unwrap();
    assert!(matches!(b.node(s), Node::Func(Func::Transient(Transient::Cos), g) if *g == a));
    let t = b.tuple(vec![Ok(a), Ok(s)]).unwrap();
    assert!(matches!(b.node(t), Node::Tuple(parts) if parts == &vec![a, s]));
    assert_eq!(b.cache().tuple_parts(t), Some(vec![a, s]));
    assert_eq!(b.cache().tuple_parts(a), None);
    let p = b.add(a, a).unwrap();
    assert!(matches!(b.node(p), Node::Poly(q) if q.len() == 1));
    assert!(b.node(p).equals(b.cache().get(p)));
    assert!(!b.node(p).equals(b.node(a)));
}

#[test]
fn equal_nodes_have_equal_hashes() {
    assert_eq!(mix_in(1, 97), 1_099_511_628_308);
    assert_eq!(mix_in(u64::MAX, u64::MAX), 18_446_742_974_197_923_404);
    assert_eq!(hash_str(1, "a"), 1_099_511_628_308);
    assert_eq!(hash_str(7, ""), 7);
    assert_eq!(code_of(5), 5);
    assert_eq!(code_of(-1), u64::MAX);
    assert_eq!(code_of(i64::MIN), 1 << 63);
    let a = Node::Var("name".to_string());
    let b = Node::Var("name".to_string());
    let c = Node::Var("other".to_string());
    assert!(a.equals(&b));
    assert_eq!(a.hash(), b.hash());
    assert_ne!(a.hash(), c.hash());
    let p = Node::Poly(Poly::integer(3));
    let q = Node::Poly(Poly::rational(Rational::new(9, 3).unwrap()));
    assert_eq!(p.hash(), q.hash());
    let t = Node::Tuple(vec![NodeRc { id: 1 }, NodeRc { id: 2 }]);
    let u = Node::Tuple(vec![NodeRc { id: 2 }, NodeRc { id: 1 }]);
    assert_ne!(t.hash(), u.hash());
    assert!(!t.equals(&u));
}

#[test]
fn many_nodes_are_told_apart() {
    let mut b = Builder::new();
    let mut handles = Vec::new();
    for i in 0..200 {
        handles.push(b.integer(i));
    }
    for i in 0..200 {
        assert_eq!(b.integer(i), handles[i as usize]);
    }
    for i in 1..200 {
        assert_ne!(handles[i], handles[i - 1]);
    }
    assert_eq!(b.len(), 205);
}
