use bullet::builder::{Builder, Error};
use bullet::compiler::{count_uses, lower};
use bullet::func::{Func, Transient};
use bullet::rational::Rational;
use bullet::vm::{Instr, Program, Round};

fn stores(p: &Program) -> Vec<usize> {
    p.instrs
        .iter()
        .filter_map(|i| match i {
            Instr::Store(_, uses) => Some(*uses),
            _ => None,
        })
        .collect()
}

fn loads(p: &Program, slot: usize) -> usize {
    p.instrs.iter().filter(|i| matches!(i, Instr::Load(s) if *s == slot)).count()
}

#[test]
fn no_sharing_no_stores() {
    let mut b = Builder::new();
    let a = b.var("a");
    let c = b.var("c");
    let sum = b.add(a, c).unwrap();
    let sine = b.func(Func::Transient(Transient::Sin), sum).unwrap();
    let p = lower(b.cache(), sine).unwrap();
    assert!(stores(&p).is_empty());
    assert!(p.instrs.iter().all(|i| !matches!(i, Instr::Load(_))));
    assert_eq!(p.inputs, vec!["a".to_string(), "c".to_string()]);
    assert_eq!(p.result, p.instrs.len() - 1);
    assert!(matches!(p.instrs[p.result], Instr::Func(Func::Transient(Transient::Sin), _)));
}

#[test]
fn a_shared_node_is_stored_once_and_loaded_for_each_further_use() {
    // x + x^2 uses x three times
    let mut b = Builder::new();
    let x = b.var("x");
    let square = b.mul(x, x).unwrap();
    let sum = b.add(x, square).unwrap();
    let p = lower(b.cache(), sum).unwrap();
    assert_eq!(stores(&p), vec![3]);
    assert_eq!(loads(&p, 0), 2);
    assert_eq!(p.inputs, vec!["x".to_string()]);
    let instrs: Vec<String> = p.instrs.iter().map(|i| format!("{:?}", i)).collect();
    assert_eq!(
        instrs,
        vec![
            "Source(\"x\")",
            "Store(0, 3)",
            "Load(0)",
            "Load(0)",
            "Product([2, 3])",
            "Sum([1, 4])",
        ]
    );
    assert_eq!(p.result, 5);
}

#[test]
fn every_shared_node_has_its_own_store() {
    // sin(a + c) (a + c) + 2 (a + c) is multiplied out: a and c are used three times each,
    // the sine twice, and the sum once, as the argument of the sine
    let mut b = Builder::new();
    let a = b.var("a");
    let c = b.var("c");
    let sum = b.add(a, c).unwrap();
    let sine = b.func(Func::Transient(Transient::Sin), sum).unwrap();
    let product = b.mul(sine, sum).unwrap();
    let two = b.integer(2);
    let twice = b.mul(two, sum).unwrap();
    let all = b.add(product, twice).unwrap();
    let counts = count_uses(b.cache(), all).unwrap();
    assert_eq!(counts[all.id], 1);
    assert_eq!(counts[sum.id], 1);
    assert_eq!(counts[sine.id], 2);
    assert_eq!(counts[a.id], 3);
    assert_eq!(counts[c.id], 3);
    assert_eq!(counts[product.id], 0);
    assert_eq!(counts[twice.id], 0);
    let p = lower(b.cache(), all).unwrap();
    assert_eq!(stores(&p), vec![3, 3, 2]);
    assert_eq!(loads(&p, 0), 2);
    assert_eq!(loads(&p, 1), 2);
    assert_eq!(loads(&p, 2), 1);
    assert_eq!(loads(&p, 3), 0);
    assert_eq!(p.inputs, vec!["a".to_string(), "c".to_string()]);
}

#[test]
fn operands_are_made_before_they_are_used() {
    let mut b = Builder::new();
    let x = b.var("x");
    let y = b.var("y");
    let sum = b.add(x, y).unwrap();
    let sine = b.func(Func::Transient(Transient::Sin), sum).unwrap();
    let quotient = b.div(sine, sum).unwrap();
    let p = lower(b.cache(), quotient).unwrap();
    let mut stores_so_far = 0;
    for (at, instr) in p.instrs.iter().enumerate() {
        match instr {
            Instr::Int(_) | Instr::Source(_) => {}
            Instr::Sum(parts) | Instr::Product(parts) => assert!(parts.iter().all(|part| *part < at)),
            Instr::Store(value, uses) => {
                assert!(*value < at);
                assert!(*uses > 1);
                stores_so_far += 1;
            }
            Instr::Load(slot) => assert!(*slot < stores_so_far),
            Instr::Div(x, y) => assert!(*x < at && *y < at),
            Instr::Inv(x) | Instr::Func(_, x) => assert!(*x < at),
        }
    }
    assert!(p.result < p.instrs.len());
}

#[test]
fn constants_and_negative_powers() {
    let mut b = Builder::new();
    let half = b.rational(Rational::new(-1, 2).unwrap());
    let p = lower(b.cache(), half).unwrap();
    let instrs: Vec<String> = p.instrs.iter().map(|i| format!("{:?}", i)).collect();
    assert_eq!(instrs, vec!["Int(-1)", "Int(2)", "Div(0, 1)"]);
    assert!(p.inputs.is_empty());

    let zero = b.integer(0);
    let p = lower(b.cache(), zero).unwrap();
    let instrs: Vec<String> = p.instrs.iter().map(|i| format!("{:?}", i)).collect();
    assert_eq!(instrs, vec!["Int(0)"]);

    let z = b.var("z");
    let inverse = b.pow_i(z, -2).unwrap();
    let three = b.integer(3);
    let scaled = b.mul(three, inverse).unwrap();
    let p = lower(b.cache(), scaled).unwrap();
    let instrs: Vec<String> = p.instrs.iter().map(|i| format!("{:?}", i)).collect();
    assert_eq!(
        instrs,
        vec![
            "Source(\"z\")",
            "Store(0, 2)",
            "Int(3)",
            "Load(0)",
            "Product([1, 3])",
            "Inv(4)",
            "Product([2, 5])",
        ]
    );
    assert_eq!(p.result, 6);
}

#[test]
fn nodes_that_are_not_part_of_the_expression_are_not_lowered() {
    let mut b = Builder::new();
    let unused = b.var("unused");
    let a = b.var("a");
    let _ = b.mul(unused, unused).unwrap();
    let p = lower(b.cache(), a).unwrap();
    assert_eq!(p.instrs.len(), 1);
    assert_eq!(p.inputs, vec!["a".to_string()]);
    let counts = count_uses(b.cache(), a).unwrap();
    assert_eq!(counts[unused.id], 0);
    assert_eq!(counts.len(), a.id + 1);
}

#[test]
fn tuples_are_not_lowered() {
    let mut b = Builder::new();
    let a = b.var("a");
    let t = b.tuple(vec![Ok(a), Ok(a)]).unwrap();
    assert_eq!(lower(b.cache(), t).unwrap_err(), Error::NotImplemented);
    let sine = b.func(Func::Transient(Transient::Sin), t);
    // the function is applied to the elements, and the result is a tuple again
    assert_eq!(lower(b.cache(), sine.unwrap()).unwrap_err(), Error::NotImplemented);
    assert_ne!(Round::Up, Round::Down);
}

#[test]
fn reference_counts_that_are_too_large_fail() {
    // x^(m m) is used in four terms, and then in five
    let m = i32::MAX;
    let mut b = Builder::new();
    let x = b.var("x");
    let first = b.pow_i(x, m).unwrap();
    let power = b.pow_i(first, m).unwrap();
    let mut sum = b.integer(0);
    for name in ["p", "q", "r", "s"] {
        let v = b.var(name);
        let term = b.mul(power, v).unwrap();
        sum = b.add(sum, term).unwrap();
    }
    let counts = count_uses(b.cache(), sum).unwrap();
    assert_eq!(counts[x.id], 4 * (m as usize) * (m as usize));
    assert_eq!(counts[power.id], 0);
    let more = b.add(sum, power).unwrap();
    assert_eq!(count_uses(b.cache(), more).unwrap_err(), Error::Overflow);
    assert_eq!(lower(b.cache(), more).unwrap_err(), Error::Overflow);
}
