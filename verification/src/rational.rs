//! Exact rational numbers with a 64-bit numerator and denominator.
//!
//! A [`Rational`] is always stored in lowest terms with a positive
//! denominator, so two rationals are equal exactly when their fields are.
//! Every operation computes the exact mathematical result and returns `None`
//! when that result cannot be stored.

use vstd::prelude::*;
use vstd::arithmetic::div_mod::{lemma_div_multiples_vanish, lemma_fundamental_div_mod, lemma_mod_bound};
use vstd::arithmetic::power::{pow, lemma_pow0, lemma_pow1};

verus! {

/// The mathematical value of a rational number: numerator over denominator.
pub struct Fraction {
    pub num: int,
    pub den: int,
}

/// The absolute value of an integer.
pub open spec fn abs(x: int) -> int {
    if x < 0 { -x } else { x }
}

/// Euclid's algorithm on natural numbers.
pub open spec fn gcd(a: nat, b: nat) -> nat
    decreases b,
{
    if b == 0 { a } else { gcd(b, a % b) }
}

/// `x` and `y` witness that `a` and `b` have no common divisor but 1.
pub open spec fn bezout(a: int, b: int, x: int, y: int) -> bool {
    a * x + b * y == 1
}

/// Two integers are coprime when some integer combination of them is 1.
pub open spec fn coprime(a: int, b: int) -> bool {
    exists|x: int, y: int| #[trigger] bezout(a, b, x, y)
}

/// A fraction is reduced when its denominator is positive and it is in
/// lowest terms.
pub open spec fn is_reduced(f: Fraction) -> bool {
    f.den > 0 && coprime(f.num, f.den)
}

/// Whether a fraction can be stored in a [`Rational`].
pub open spec fn fits(f: Fraction) -> bool {
    i64::MIN <= f.num <= i64::MAX && 0 < f.den <= i64::MAX
}

/// The reduced fraction with the value `n / d`, for `d != 0`.
pub open spec fn reduce(n: int, d: int) -> Fraction {
    let g = gcd(abs(n) as nat, abs(d) as nat) as int;
    let magnitude = abs(n) / g;
    Fraction { num: if (n < 0) != (d < 0) { -magnitude } else { magnitude }, den: abs(d) / g }
}

pub open spec fn rat_zero() -> Fraction {
    Fraction { num: 0, den: 1 }
}

pub open spec fn rat_one() -> Fraction {
    Fraction { num: 1, den: 1 }
}

pub open spec fn rat_int(i: int) -> Fraction {
    Fraction { num: i, den: 1 }
}

pub open spec fn rat_add(a: Fraction, b: Fraction) -> Fraction {
    reduce(a.num * b.den + b.num * a.den, a.den * b.den)
}

pub open spec fn rat_mul(a: Fraction, b: Fraction) -> Fraction {
    reduce(a.num * b.num, a.den * b.den)
}

pub open spec fn rat_neg(a: Fraction) -> Fraction {
    Fraction { num: -a.num, den: a.den }
}

/// The reciprocal of a nonzero reduced fraction.
pub open spec fn rat_inv(a: Fraction) -> Fraction {
    if a.num < 0 {
        Fraction { num: -a.den, den: -a.num }
    } else {
        Fraction { num: a.den, den: a.num }
    }
}

/// A reduced fraction raised to a natural power.
pub open spec fn rat_pow_nat(a: Fraction, n: nat) -> Fraction {
    Fraction { num: pow(a.num, n), den: pow(a.den, n) }
}

/// A reduced fraction raised to an integer power; a negative power is the
/// positive power of the reciprocal.
pub open spec fn rat_pow(a: Fraction, i: int) -> Fraction {
    if i >= 0 {
        rat_pow_nat(a, i as nat)
    } else {
        rat_pow_nat(rat_inv(a), (-i) as nat)
    }
}

/// Quotients and Bézout coefficients of `a` and `b` with respect to their
/// greatest common divisor: `(u, v, x, y)` with `a == g * u`, `b == g * v`
/// and `g == a * x + b * y`.
pub proof fn lemma_gcd_bezout(a: nat, b: nat) -> (r: (int, int, int, int))
    requires
        a > 0 || b > 0,
    ensures
        gcd(a, b) > 0,
        a == gcd(a, b) * r.0,
        b == gcd(a, b) * r.1,
        gcd(a, b) == a * r.2 + b * r.3,
        r.0 >= 0,
        r.1 >= 0,
    decreases b,
{
    if b == 0 {
        (1, 0, 1, 0)
    } else {
        lemma_mod_bound(a as int, b as int);
        lemma_fundamental_div_mod(a as int, b as int);
        let rem = a % b;
        let q = (a / b) as int;
        let (u1, v1, x1, y1) = lemma_gcd_bezout(b, rem);
        let g = gcd(a, b) as int;
        assert(g == gcd(b, rem));
        let u = u1 * q + v1;
        let ai = a as int;
        let bi = b as int;
        let ri = rem as int;
        assert(ai == bi * q + ri);
        assert(ai == g * u) by (nonlinear_arith)
            requires
                ai == bi * q + ri,
                bi == g * u1,
                ri == g * v1,
                u == u1 * q + v1,
        ;
        let y = x1 - q * y1;
        assert(g == ai * y1 + bi * y) by (nonlinear_arith)
            requires
                ai == bi * q + ri,
                g == bi * x1 + ri * y1,
                y == x1 - q * y1,
        ;
        assert(u >= 0) by (nonlinear_arith)
            requires
                ai == g * u,
                ai >= 0,
                g > 0,
        ;
        (u, u1, y1, y)
    }
}

/// `reduce` yields a reduced fraction of the same value.
pub proof fn lemma_reduce(n: int, d: int)
    requires
        d != 0,
    ensures
        is_reduced(reduce(n, d)),
        reduce(n, d).num * d == n * reduce(n, d).den,
        gcd(abs(n) as nat, abs(d) as nat) > 0,
        abs(n) == gcd(abs(n) as nat, abs(d) as nat) * (abs(n) / (gcd(abs(n) as nat, abs(d) as nat) as int)),
        abs(d) == gcd(abs(n) as nat, abs(d) as nat) * (abs(d) / (gcd(abs(n) as nat, abs(d) as nat) as int)),
{
    let an = abs(n);
    let ad = abs(d);
    let g = gcd(an as nat, ad as nat) as int;
    let (u, v, x, y) = lemma_gcd_bezout(an as nat, ad as nat);
    lemma_div_multiples_vanish(u, g);
    lemma_div_multiples_vanish(v, g);
    assert(an / g == u);
    assert(ad / g == v);
    assert(v > 0) by (nonlinear_arith)
        requires
            ad == g * v,
            ad > 0,
            g > 0,
    ;
    assert(u * x + v * y == 1) by (nonlinear_arith)
        requires
            g == an * x + ad * y,
            an == g * u,
            ad == g * v,
            g > 0,
    {
        assert(g * 1 == g * (u * x + v * y));
    }
    let f = reduce(n, d);
    assert(f.den == v);
    if (n < 0) != (d < 0) {
        assert(f.num == -u);
        assert(bezout(f.num, f.den, -x, y)) by (nonlinear_arith)
            requires
                u * x + v * y == 1,
                f.num == -u,
                f.den == v,
        ;
    } else {
        assert(f.num == u);
        assert(bezout(f.num, f.den, x, y));
    }
    assert(f.num * d == n * f.den) by (nonlinear_arith)
        requires
            an == g * u,
            ad == g * v,
            f.den == v,
            f.num == (if (n < 0) != (d < 0) { -u } else { u }),
            an == (if n < 0 { -n } else { n }),
            ad == (if d < 0 { -d } else { d }),
    ;
}

/// Two reduced fractions of the same value are the same fraction.
pub proof fn lemma_reduced_unique(a: Fraction, b: Fraction)
    requires
        is_reduced(a),
        is_reduced(b),
        a.num * b.den == b.num * a.den,
    ensures
        a == b,
{
    let (x, y) = choose|x: int, y: int| #[trigger] bezout(a.num, a.den, x, y);
    let (z, w) = choose|z: int, w: int| #[trigger] bezout(b.num, b.den, z, w);
    let k = b.num * x + b.den * y;
    let l = a.num * z + a.den * w;
    assert(b.den == a.den * k) by (nonlinear_arith)
        requires
            a.num * x + a.den * y == 1,
            a.num * b.den == b.num * a.den,
            k == b.num * x + b.den * y,
    {
        assert(b.den * (a.num * x + a.den * y) == b.den);
        assert(b.den * (a.num * x) == (a.num * b.den) * x);
    }
    assert(a.den == b.den * l) by (nonlinear_arith)
        requires
            b.num * z + b.den * w == 1,
            a.num * b.den == b.num * a.den,
            l == a.num * z + a.den * w,
    {
        assert(a.den * (b.num * z + b.den * w) == a.den);
        assert(a.den * (b.num * z) == (b.num * a.den) * z);
    }
    assert(k == 1) by (nonlinear_arith)
        requires
            b.den == a.den * k,
            a.den == b.den * l,
            a.den > 0,
            b.den > 0,
    {
        assert(a.den == a.den * (k * l));
        assert(k * l == 1);
    }
    assert(a.den == b.den) by (nonlinear_arith)
        requires
            b.den == a.den * k,
            k == 1,
    ;
    assert(a.num == b.num) by (nonlinear_arith)
        requires
            a.num * b.den == b.num * a.den,
            a.den == b.den,
            a.den > 0,
    ;
}

/// A reduced fraction is its own reduction.
pub proof fn lemma_reduce_reduced(a: Fraction)
    requires
        is_reduced(a),
    ensures
        reduce(a.num, a.den) == a,
{
    lemma_reduce(a.num, a.den);
    lemma_reduced_unique(reduce(a.num, a.den), a);
}

/// Fractions of the same value have the same reduction.
pub proof fn lemma_reduce_equal(n1: int, d1: int, n2: int, d2: int)
    requires
        d1 != 0,
        d2 != 0,
        n1 * d2 == n2 * d1,
    ensures
        reduce(n1, d1) == reduce(n2, d2),
{
    lemma_reduce(n1, d1);
    lemma_reduce(n2, d2);
    let f = reduce(n1, d1);
    let h = reduce(n2, d2);
    let (a, b, c, d) = (f.num, f.den, h.num, h.den);
    let w1 = a * d1;
    let w2 = n1 * d2;
    let w3 = n2 * d;
    let m = d1 * d2;
    assert((a * d) * m == w1 * (d * d2)) by (nonlinear_arith)
        requires
            w1 == a * d1,
            m == d1 * d2,
    ;
    assert(w1 * (d * d2) == w2 * (b * d)) by (nonlinear_arith)
        requires
            w1 == n1 * b,
            w2 == n1 * d2,
    ;
    assert(w2 * (b * d) == w3 * (b * d1)) by (nonlinear_arith)
        requires
            w2 == n2 * d1,
            w3 == n2 * d,
    ;
    assert(w3 * (b * d1) == (c * b) * m) by (nonlinear_arith)
        requires
            w3 == c * d2,
            m == d1 * d2,
    ;
    assert(m != 0) by (nonlinear_arith)
        requires
            m == d1 * d2,
            d1 != 0,
            d2 != 0,
    ;
    let lhs = a * d;
    let rhs = c * b;
    assert(lhs == rhs) by (nonlinear_arith)
        requires
            lhs * m == rhs * m,
            m != 0,
    ;
    lemma_reduced_unique(f, h);
}

/// Coprimality does not depend on the order or the signs.
pub proof fn lemma_coprime_symmetric(a: int, b: int)
    requires
        coprime(a, b),
    ensures
        coprime(b, a),
        coprime(-a, b),
        coprime(a, -b),
        coprime(-b, -a),
{
    let (x, y) = choose|x: int, y: int| #[trigger] bezout(a, b, x, y);
    assert(bezout(b, a, y, x));
    assert(bezout(-a, b, -x, y)) by (nonlinear_arith)
        requires
            a * x + b * y == 1,
    ;
    assert(bezout(a, -b, x, -y)) by (nonlinear_arith)
        requires
            a * x + b * y == 1,
    ;
    assert(bezout(-b, -a, -y, -x)) by (nonlinear_arith)
        requires
            a * x + b * y == 1,
    ;
}

/// If `a` is coprime to both `b` and `c`, it is coprime to their product.
pub proof fn lemma_coprime_product(a: int, b: int, c: int)
    requires
        coprime(a, b),
        coprime(a, c),
    ensures
        coprime(a, b * c),
{
    let (x, y) = choose|x: int, y: int| #[trigger] bezout(a, b, x, y);
    let (z, w) = choose|z: int, w: int| #[trigger] bezout(a, c, z, w);
    let cw = c * w;
    let e = a * x + b * y;
    let s = x * cw + z;
    let t = y * w;
    assert(a * s == (a * x) * cw + a * z) by (nonlinear_arith)
        requires
            s == x * cw + z,
    ;
    assert((b * c) * t == (b * y) * cw) by (nonlinear_arith)
        requires
            cw == c * w,
            t == y * w,
    ;
    assert(e * cw == (a * x) * cw + (b * y) * cw) by (nonlinear_arith)
        requires
            e == a * x + b * y,
    ;
    assert(e * cw == cw) by (nonlinear_arith)
        requires
            e == 1,
    ;
    assert(bezout(a, b * c, s, t));
}

/// Natural powers of coprime integers are coprime.
pub proof fn lemma_coprime_pow(a: int, b: int, n: nat, m: nat)
    requires
        coprime(a, b),
    ensures
        coprime(pow(a, n), pow(b, m)),
    decreases n + m,
{
    reveal(pow);
    if n == 0 {
        assert(pow(a, 0) == 1);
        assert(bezout(1, pow(b, m), 1, 0));
    } else if m == 0 {
        assert(pow(b, 0) == 1);
        assert(bezout(pow(a, n), 1, 0, 1));
    } else {
        // pow(a, n) is coprime to b, hence to every power of b
        lemma_coprime_pow(a, b, (n - 1) as nat, 1);
        lemma_pow1(b);
        lemma_coprime_symmetric(pow(a, (n - 1) as nat), b);
        lemma_coprime_symmetric(a, b);
        lemma_coprime_product(b, a, pow(a, (n - 1) as nat));
        assert(pow(a, n) == a * pow(a, (n - 1) as nat));
        lemma_coprime_symmetric(b, pow(a, n));
        let an = pow(a, n);
        assert(coprime(an, b));
        lemma_coprime_pow_right(an, b, m);
    }
}

/// An integer coprime to `b` is coprime to every natural power of `b`.
pub proof fn lemma_coprime_pow_right(a: int, b: int, m: nat)
    requires
        coprime(a, b),
    ensures
        coprime(a, pow(b, m)),
    decreases m,
{
    reveal(pow);
    if m == 0 {
        assert(bezout(a, 1, 0, 1));
    } else {
        lemma_coprime_pow_right(a, b, (m - 1) as nat);
        lemma_coprime_product(a, b, pow(b, (m - 1) as nat));
    }
}

/// A natural power of a positive integer is positive.
pub proof fn lemma_pow_pos(b: int, n: nat)
    requires
        b > 0,
    ensures
        pow(b, n) > 0,
    decreases n,
{
    reveal(pow);
    if n > 0 {
        lemma_pow_pos(b, (n - 1) as nat);
        let p = pow(b, (n - 1) as nat);
        assert(b * p > 0) by (nonlinear_arith)
            requires
                b > 0,
                p > 0,
        ;
    }
}

/// The magnitude of a power of an integer of magnitude at least 2 at least
/// doubles with every step.
pub proof fn lemma_pow_grows(b: int, n: nat, m: nat)
    requires
        abs(b) >= 2,
        n < m,
    ensures
        abs(pow(b, m)) >= 2 * abs(pow(b, n)),
        abs(pow(b, n)) >= 1,
    decreases m,
{
    reveal(pow);
    if n == 0 {
        assert(pow(b, 0) == 1);
    } else {
        lemma_pow_grows(b, (n - 1) as nat, n);
    }
    let p = pow(b, (m - 1) as nat);
    assert(pow(b, m) == b * p);
    if m - 1 > n {
        lemma_pow_grows(b, n, (m - 1) as nat);
    }
    assert(abs(p) >= abs(pow(b, n)));
    assert(abs(b * p) >= 2 * abs(p)) by (nonlinear_arith)
        requires
            abs(b) >= 2,
    ;
}

/// The reciprocal of a nonzero reduced fraction is reduced.
pub proof fn lemma_inv_reduced(a: Fraction)
    requires
        is_reduced(a),
        a.num != 0,
    ensures
        is_reduced(rat_inv(a)),
{
    lemma_coprime_symmetric(a.num, a.den);
}

/// A natural power of a reduced fraction is reduced.
pub proof fn lemma_pow_reduced(a: Fraction, n: nat)
    requires
        is_reduced(a),
    ensures
        is_reduced(rat_pow_nat(a, n)),
{
    lemma_coprime_pow(a.num, a.den, n, n);
    lemma_pow_pos(a.den, n);
}

/// The reduction of zero over anything is zero.
pub proof fn lemma_reduce_zero(d: int)
    requires
        d != 0,
    ensures
        reduce(0, d) == rat_zero(),
{
    lemma_reduce(0, d);
    assert(bezout(0, 1, 0, 1));
    let f = reduce(0, d);
    assert(f.num == 0) by (nonlinear_arith)
        requires
            f.num * d == 0 * f.den,
            d != 0,
    ;
    assert(f.num * 1 == 0 * f.den);
    lemma_reduced_unique(f, rat_zero());
}

/// Zero is the identity of addition.
pub proof fn lemma_rat_add_zero(a: Fraction)
    requires
        is_reduced(a),
    ensures
        rat_add(a, rat_zero()) == a,
        rat_add(rat_zero(), a) == a,
{
    lemma_reduce_reduced(a);
    assert(a.num * 1 + 0 * a.den == a.num);
    assert(0 * a.den + a.num * 1 == a.num);
    assert(a.den * 1 == a.den);
    assert(1 * a.den == a.den);
}

/// Sums and products of reduced fractions are reduced.
pub proof fn lemma_rat_closed(a: Fraction, b: Fraction)
    requires
        is_reduced(a),
        is_reduced(b),
    ensures
        is_reduced(rat_add(a, b)),
        is_reduced(rat_mul(a, b)),
{
    assert(a.den * b.den != 0) by (nonlinear_arith)
        requires
            a.den > 0,
            b.den > 0,
    ;
    lemma_reduce(a.num * b.den + b.num * a.den, a.den * b.den);
    lemma_reduce(a.num * b.num, a.den * b.den);
}

/// Integers are reduced fractions.
pub proof fn lemma_int_reduced(i: int)
    ensures
        is_reduced(rat_int(i)),
        is_reduced(rat_zero()),
        is_reduced(rat_one()),
{
    assert(bezout(i, 1, 0, 1));
    assert(bezout(0, 1, 0, 1));
    assert(bezout(1, 1, 0, 1));
}

/// The only reduced fraction with numerator zero is zero.
pub proof fn lemma_zero_unique(a: Fraction)
    requires
        is_reduced(a),
        a.num == 0,
    ensures
        a == rat_zero(),
{
    lemma_int_reduced(0);
    lemma_reduced_unique(a, rat_zero());
}

/// A product of nonzero reduced fractions is not zero.
pub proof fn lemma_rat_mul_nonzero(a: Fraction, b: Fraction)
    requires
        is_reduced(a),
        is_reduced(b),
    ensures
        rat_mul(a, b).num == 0 <==> (a.num == 0 || b.num == 0),
{
    let n = a.num * b.num;
    let d = a.den * b.den;
    assert(d > 0) by (nonlinear_arith)
        requires
            d == a.den * b.den,
            a.den > 0,
            b.den > 0,
    ;
    lemma_reduce(n, d);
    let f = reduce(n, d);
    assert(n == 0 <==> (a.num == 0 || b.num == 0)) by (nonlinear_arith)
        requires
            n == a.num * b.num,
    ;
    assert(f.num == 0 <==> n == 0) by (nonlinear_arith)
        requires
            f.num * d == n * f.den,
            d > 0,
            f.den > 0,
    ;
}

/// Adding to a reduction: `n/d + c` is the reduction of `(n*c.den + c.num*d) / (d*c.den)`.
pub proof fn lemma_add_reduce(n: int, d: int, c: Fraction)
    requires
        d != 0,
        c.den > 0,
    ensures
        rat_add(reduce(n, d), c) == reduce(n * c.den + c.num * d, d * c.den),
        d * c.den != 0,
{
    lemma_reduce(n, d);
    let x = reduce(n, d);
    let (cn, cd) = (c.num, c.den);
    let n1 = x.num * cd + cn * x.den;
    let d1 = x.den * cd;
    let n2 = n * cd + cn * d;
    let d2 = d * cd;
    assert(d1 != 0 && d2 != 0) by (nonlinear_arith)
        requires
            d1 == x.den * cd,
            d2 == d * cd,
            x.den > 0,
            cd > 0,
            d != 0,
    ;
    let k = x.num * d;
    assert(k == n * x.den);
    assert((x.num * cd) * d2 == (k * cd) * cd) by (nonlinear_arith)
        requires
            d2 == d * cd,
            k == x.num * d,
    ;
    assert((n * cd) * d1 == (k * cd) * cd) by (nonlinear_arith)
        requires
            d1 == x.den * cd,
            k == n * x.den,
    ;
    assert((cn * x.den) * d2 == (cn * d) * d1) by (nonlinear_arith)
        requires
            d1 == x.den * cd,
            d2 == d * cd,
    ;
    assert(n1 * d2 == (x.num * cd) * d2 + (cn * x.den) * d2) by (nonlinear_arith)
        requires
            n1 == x.num * cd + cn * x.den,
    ;
    assert(n2 * d1 == (n * cd) * d1 + (cn * d) * d1) by (nonlinear_arith)
        requires
            n2 == n * cd + cn * d,
    ;
    lemma_reduce_equal(n1, d1, n2, d2);
}

/// Multiplying a reduction: `(n/d) * c` is the reduction of `(n*c.num) / (d*c.den)`.
pub proof fn lemma_mul_reduce(n: int, d: int, c: Fraction)
    requires
        d != 0,
        c.den > 0,
    ensures
        rat_mul(reduce(n, d), c) == reduce(n * c.num, d * c.den),
        d * c.den != 0,
{
    lemma_reduce(n, d);
    let x = reduce(n, d);
    let (cn, cd) = (c.num, c.den);
    let n1 = x.num * cn;
    let d1 = x.den * cd;
    let n2 = n * cn;
    let d2 = d * cd;
    assert(d1 != 0 && d2 != 0) by (nonlinear_arith)
        requires
            d1 == x.den * cd,
            d2 == d * cd,
            x.den > 0,
            cd > 0,
            d != 0,
    ;
    let k = x.num * d;
    assert(k == n * x.den);
    assert(n1 * d2 == (k * cn) * cd) by (nonlinear_arith)
        requires
            n1 == x.num * cn,
            d2 == d * cd,
            k == x.num * d,
    ;
    assert(n2 * d1 == (k * cn) * cd) by (nonlinear_arith)
        requires
            n2 == n * cn,
            d1 == x.den * cd,
            k == n * x.den,
    ;
    lemma_reduce_equal(n1, d1, n2, d2);
}

/// Addition of fractions is commutative.
pub proof fn lemma_rat_add_commutative(a: Fraction, b: Fraction)
    ensures
        rat_add(a, b) == rat_add(b, a),
{
    assert(a.num * b.den + b.num * a.den == b.num * a.den + a.num * b.den);
    assert(a.den * b.den == b.den * a.den) by (nonlinear_arith);
}

/// Multiplication of fractions is commutative.
pub proof fn lemma_rat_mul_commutative(a: Fraction, b: Fraction)
    ensures
        rat_mul(a, b) == rat_mul(b, a),
{
    assert(a.num * b.num == b.num * a.num) by (nonlinear_arith);
    assert(a.den * b.den == b.den * a.den) by (nonlinear_arith);
}

/// Addition of reduced fractions is associative.
pub proof fn lemma_rat_add_associative(a: Fraction, b: Fraction, c: Fraction)
    requires
        is_reduced(a),
        is_reduced(b),
        is_reduced(c),
    ensures
        rat_add(rat_add(a, b), c) == rat_add(a, rat_add(b, c)),
{
    let (an, ad, bn, bd, cn, cd) = (a.num, a.den, b.num, b.den, c.num, c.den);
    let n1 = an * bd + bn * ad;
    let d1 = ad * bd;
    let n2 = bn * cd + cn * bd;
    let d2 = bd * cd;
    assert(d1 != 0 && d2 != 0) by (nonlinear_arith)
        requires
            d1 == ad * bd,
            d2 == bd * cd,
            ad > 0,
            bd > 0,
            cd > 0,
    ;
    lemma_add_reduce(n1, d1, c);
    lemma_add_reduce(n2, d2, a);
    lemma_rat_add_commutative(a, rat_add(b, c));
    let l = n1 * cd + cn * d1;
    let r = n2 * ad + an * d2;
    assert(n1 * cd == (an * bd) * cd + (bn * ad) * cd) by (nonlinear_arith)
        requires
            n1 == an * bd + bn * ad,
    ;
    assert(n2 * ad == (bn * cd) * ad + (cn * bd) * ad) by (nonlinear_arith)
        requires
            n2 == bn * cd + cn * bd,
    ;
    assert((bn * ad) * cd == (bn * cd) * ad) by (nonlinear_arith);
    assert(cn * d1 == (cn * bd) * ad) by (nonlinear_arith)
        requires
            d1 == ad * bd,
    ;
    assert(an * d2 == (an * bd) * cd) by (nonlinear_arith)
        requires
            d2 == bd * cd,
    ;
    assert(l == r);
    assert(d1 * cd == d2 * ad) by (nonlinear_arith)
        requires
            d1 == ad * bd,
            d2 == bd * cd,
    ;
}

/// Multiplication of reduced fractions is associative.
pub proof fn lemma_rat_mul_associative(a: Fraction, b: Fraction, c: Fraction)
    requires
        is_reduced(a),
        is_reduced(b),
        is_reduced(c),
    ensures
        rat_mul(rat_mul(a, b), c) == rat_mul(a, rat_mul(b, c)),
{
    let (an, ad, bn, bd, cn, cd) = (a.num, a.den, b.num, b.den, c.num, c.den);
    let n1 = an * bn;
    let d1 = ad * bd;
    let n2 = bn * cn;
    let d2 = bd * cd;
    assert(d1 != 0 && d2 != 0) by (nonlinear_arith)
        requires
            d1 == ad * bd,
            d2 == bd * cd,
            ad > 0,
            bd > 0,
            cd > 0,
    ;
    lemma_mul_reduce(n1, d1, c);
    lemma_mul_reduce(n2, d2, a);
    lemma_rat_mul_commutative(a, rat_mul(b, c));
    assert(n1 * cn == n2 * an) by (nonlinear_arith)
        requires
            n1 == an * bn,
            n2 == bn * cn,
    ;
    assert(d1 * cd == d2 * ad) by (nonlinear_arith)
        requires
            d1 == ad * bd,
            d2 == bd * cd,
    ;
}

/// Multiplication of reduced fractions distributes over addition.
pub proof fn lemma_rat_distributive(a: Fraction, b: Fraction, c: Fraction)
    requires
        is_reduced(a),
        is_reduced(b),
        is_reduced(c),
    ensures
        rat_mul(rat_add(a, b), c) == rat_add(rat_mul(a, c), rat_mul(b, c)),
{
    let (an, ad, bn, bd, cn, cd) = (a.num, a.den, b.num, b.den, c.num, c.den);
    let n1 = an * bd + bn * ad;
    let d1 = ad * bd;
    let (n2, d2) = (an * cn, ad * cd);
    let (n3, d3) = (bn * cn, bd * cd);
    assert(d1 != 0 && d2 > 0 && d3 > 0) by (nonlinear_arith)
        requires
            d1 == ad * bd,
            d2 == ad * cd,
            d3 == bd * cd,
            ad > 0,
            bd > 0,
            cd > 0,
    ;
    // the left side is the reduction of n1*cn / (d1*cd)
    lemma_mul_reduce(n1, d1, c);
    // the right side is the reduction of (n2*d3 + n3*d2) / (d2*d3)
    lemma_reduce(n3, d3);
    let bc = reduce(n3, d3);
    lemma_add_reduce(n2, d2, bc);
    lemma_rat_add_commutative(rat_mul(a, c), bc);
    lemma_rat_add_commutative(reduce(n2 * bc.den + bc.num * d2, d2 * bc.den), bc);
    let m = n2 * bc.den + bc.num * d2;
    let e = d2 * bc.den;
    assert(rat_add(rat_mul(a, c), bc) == reduce(m, e));
    // replace bc by n3/d3 in the sum
    let m2 = n2 * d3 + n3 * d2;
    let e2 = d2 * d3;
    let k = bc.num * d3;
    assert(k == n3 * bc.den);
    assert(e2 != 0 && e != 0) by (nonlinear_arith)
        requires
            e2 == d2 * d3,
            e == d2 * bc.den,
            d2 > 0,
            d3 > 0,
            bc.den > 0,
    ;
    assert(m * e2 == (n2 * bc.den) * e2 + (bc.num * d2) * e2) by (nonlinear_arith)
        requires
            m == n2 * bc.den + bc.num * d2,
    ;
    assert(m2 * e == (n2 * d3) * e + (n3 * d2) * e) by (nonlinear_arith)
        requires
            m2 == n2 * d3 + n3 * d2,
    ;
    assert((n2 * bc.den) * e2 == (n2 * d3) * e) by (nonlinear_arith)
        requires
            e2 == d2 * d3,
            e == d2 * bc.den,
    ;
    assert((bc.num * d2) * e2 == (k * d2) * d2) by (nonlinear_arith)
        requires
            e2 == d2 * d3,
            k == bc.num * d3,
    ;
    assert((n3 * d2) * e == (k * d2) * d2) by (nonlinear_arith)
        requires
            e == d2 * bc.den,
            k == n3 * bc.den,
    ;
    lemma_reduce_equal(m, e, m2, e2);
    // both sides are reductions of fractions of the same value
    let ln = n1 * cn;
    let ld = d1 * cd;
    assert(ld != 0);
    assert(n1 * cn == (an * bd) * cn + (bn * ad) * cn) by (nonlinear_arith)
        requires
            n1 == an * bd + bn * ad,
    ;
    assert(ln * e2 == ((an * bd) * cn) * e2 + ((bn * ad) * cn) * e2) by (nonlinear_arith)
        requires
            ln == (an * bd) * cn + (bn * ad) * cn,
    ;
    assert(m2 * ld == (n2 * d3) * ld + (n3 * d2) * ld) by (nonlinear_arith)
        requires
            m2 == n2 * d3 + n3 * d2,
    ;
    let q2 = bd * d2;
    let q3 = ad * d3;
    assert(q2 == ld && q3 == ld) by (nonlinear_arith)
        requires
            q2 == bd * d2,
            q3 == ad * d3,
            ld == d1 * cd,
            d1 == ad * bd,
            d2 == ad * cd,
            d3 == bd * cd,
    ;
    assert(((an * bd) * cn) * e2 == (n2 * d3) * q2) by (nonlinear_arith)
        requires
            e2 == d2 * d3,
            n2 == an * cn,
            q2 == bd * d2,
    ;
    assert(((bn * ad) * cn) * e2 == (n3 * d2) * q3) by (nonlinear_arith)
        requires
            e2 == d2 * d3,
            n3 == bn * cn,
            q3 == ad * d3,
    ;
    lemma_reduce_equal(ln, ld, m2, e2);
}

/// One is the identity of multiplication, and zero absorbs.
pub proof fn lemma_rat_mul_one(a: Fraction)
    requires
        is_reduced(a),
    ensures
        rat_mul(a, rat_one()) == a,
        rat_mul(rat_one(), a) == a,
        rat_mul(a, rat_zero()) == rat_zero(),
        rat_mul(rat_zero(), a) == rat_zero(),
{
    lemma_reduce_reduced(a);
    assert(a.num * 1 == a.num && 1 * a.num == a.num);
    assert(a.den * 1 == a.den && 1 * a.den == a.den);
    assert(a.num * 0 == 0 && 0 * a.num == 0);
    lemma_reduce_zero(a.den);
}

/// A nonzero fraction times its reciprocal is one.
pub proof fn lemma_rat_mul_inverse(a: Fraction)
    requires
        is_reduced(a),
        a.num != 0,
    ensures
        rat_mul(a, rat_inv(a)) == rat_one(),
        rat_mul(a, rat_pow(a, -1)) == rat_one(),
{
    let i = rat_inv(a);
    let n = a.num * i.num;
    let d = a.den * i.den;
    assert(n == d && d != 0) by (nonlinear_arith)
        requires
            n == a.num * i.num,
            d == a.den * i.den,
            a.num != 0,
            a.den > 0,
            i.num == (if a.num < 0 { -a.den } else { a.den }),
            i.den == (if a.num < 0 { -a.num } else { a.num }),
    ;
    lemma_int_reduced(1);
    assert(n * 1 == 1 * d);
    lemma_reduce_equal(n, d, 1, 1);
    lemma_reduce_reduced(rat_one());
    lemma_pow1(i.num);
    lemma_pow1(i.den);
    assert(rat_pow(a, -1) == rat_pow_nat(i, 1));
    assert(rat_pow_nat(i, 1) == i);
}

/// A natural power of an integer is zero only for a positive power of zero.
pub proof fn lemma_pow_zero(b: int, n: nat)
    ensures
        pow(b, n) == 0 <==> (b == 0 && n > 0),
    decreases n,
{
    reveal(pow);
    if n > 0 {
        lemma_pow_zero(b, (n - 1) as nat);
        let p = pow(b, (n - 1) as nat);
        assert(b * p == 0 <==> (b == 0 || p == 0)) by (nonlinear_arith);
    }
}

/// An integer power of a reduced fraction is reduced, and is zero only for
/// a positive power of zero.
pub proof fn lemma_rat_pow(a: Fraction, i: int)
    requires
        is_reduced(a),
        !(a.num == 0 && i < 0),
    ensures
        is_reduced(rat_pow(a, i)),
        rat_pow(a, i).num == 0 <==> (a.num == 0 && i > 0),
{
    if i >= 0 {
        lemma_pow_reduced(a, i as nat);
        lemma_pow_zero(a.num, i as nat);
    } else {
        lemma_inv_reduced(a);
        lemma_pow_reduced(rat_inv(a), (-i) as nat);
        lemma_pow_zero(rat_inv(a).num, (-i) as nat);
    }
}

/// An exact rational number.
#[derive(Clone, Copy, Debug, PartialEq, Eq, Structural, Hash)]
pub struct Rational {
    num: i64,
    den: i64,
}

impl View for Rational {
    type V = Fraction;

    open spec fn view(&self) -> Fraction {
        Fraction { num: self.numer() as int, den: self.denom() as int }
    }
}

/// The greatest common divisor of two machine integers.
pub fn gcd_u128(a: u128, b: u128) -> (g: u128)
    ensures
        g == gcd(a as nat, b as nat),
{
    let mut x: u128 = a;
    let mut y: u128 = b;
    while y != 0
        invariant
            gcd(x as nat, y as nat) == gcd(a as nat, b as nat),
        decreases y,
    {
        let r: u128 = x % y;
        x = y;
        y = r;
    }
    x
}

/// The magnitude of a wide integer.
fn magnitude(n: i128) -> (r: u128)
    requires
        n > i128::MIN,
    ensures
        r == abs(n as int),
{
    if n < 0 {
        (0 - n) as u128
    } else {
        n as u128
    }
}

/// `b` raised to the power `n`, or `None` if the power is not an `i64`.
pub fn pow_i64(b: i64, n: u32) -> (r: Option<i64>)
    ensures
        r.is_some() <==> i64::MIN <= pow(b as int, n as nat) <= i64::MAX,
        r matches Some(p) ==> p == pow(b as int, n as nat),
{
    let mut acc: i128 = 1;
    let mut k: u32 = 0;
    proof {
        lemma_pow0(b as int);
    }
    if b == 0 || b == 1 {
        proof {
            lemma_pow_small(b as int, n as nat);
        }
        return Some(if n == 0 { 1 } else { b });
    }
    if b == -1 {
        proof {
            lemma_pow_small(b as int, n as nat);
        }
        return Some(if n % 2 == 0 { 1 } else { -1 });
    }
    while k < n
        invariant
            k <= n,
            acc == pow(b as int, k as nat),
            i64::MIN <= acc <= i64::MAX,
            abs(b as int) >= 2,
        decreases n - k,
    {
        assert(-0x8000_0000_0000_0000 * 0x8000_0000_0000_0000 <= acc * b <= 0x8000_0000_0000_0000
            * 0x8000_0000_0000_0000) by (nonlinear_arith)
            requires
                -0x8000_0000_0000_0000 <= acc <= 0x7fff_ffff_ffff_ffff,
                -0x8000_0000_0000_0000 <= b <= 0x7fff_ffff_ffff_ffff,
        ;
        let next: i128 = acc * (b as i128);
        proof {
            reveal(pow);
            assert(pow(b as int, (k + 1) as nat) == b * pow(b as int, k as nat));
            assert(next == pow(b as int, (k + 1) as nat)) by (nonlinear_arith)
                requires
                    next == acc * b,
                    acc == pow(b as int, k as nat),
                    pow(b as int, (k + 1) as nat) == b * pow(b as int, k as nat),
            ;
        }
        if next < i64::MIN as i128 || next > i64::MAX as i128 {
            proof {
                if k + 1 < n {
                    lemma_pow_grows(b as int, (k + 1) as nat, n as nat);
                }
            }
            return None;
        }
        acc = next;
        k = k + 1;
    }
    Some(acc as i64)
}

/// Powers of 0, 1 and -1.
pub proof fn lemma_pow_small(b: int, n: nat)
    requires
        -1 <= b <= 1,
    ensures
        b == 0 ==> pow(b, n) == (if n == 0 { 1int } else { 0int }),
        b == 1 ==> pow(b, n) == 1,
        b == -1 ==> pow(b, n) == (if n % 2 == 0 { 1int } else { -1int }),
    decreases n,
{
    reveal(pow);
    if n > 0 {
        lemma_pow_small(b, (n - 1) as nat);
    }
}

impl Rational {
    /// The numerator, as stored.
    pub closed spec fn numer(&self) -> i64 {
        self.num
    }

    /// The denominator, as stored.
    pub closed spec fn denom(&self) -> i64 {
        self.den
    }

    /// Rationals with the same value are the same.
    pub proof fn lemma_view_injective(a: Rational, b: Rational)
        ensures
            (a@ == b@) == (a == b),
    {
    }

    /// The representation invariant: lowest terms, positive denominator.
    pub open spec fn wf(&self) -> bool {
        is_reduced(self@)
    }

    /// The reduced value of `n / d`, if it can be stored.
    fn normalized(n: i128, d: i128) -> (r: Option<Rational>)
        requires
            d != 0,
            n > i128::MIN,
            d > i128::MIN,
        ensures
            r.is_some() <==> fits(reduce(n as int, d as int)),
            r matches Some(q) ==> q.wf() && q@ == reduce(n as int, d as int),
    {
        let an = magnitude(n);
        let ad = magnitude(d);
        let g = gcd_u128(an, ad);
        proof {
            lemma_reduce(n as int, d as int);
        }
        let qn: u128 = an / g;
        let qd: u128 = ad / g;
        let negative = (n < 0) != (d < 0);
        if qd > 0x7fff_ffff_ffff_ffff {
            return None;
        }
        if negative {
            if qn > 0x8000_0000_0000_0000 {
                return None;
            }
            let num: i64 = if qn == 0x8000_0000_0000_0000 {
                i64::MIN
            } else {
                0 - (qn as i64)
            };
            Some(Rational { num, den: qd as i64 })
        } else {
            if qn > 0x7fff_ffff_ffff_ffff {
                return None;
            }
            Some(Rational { num: qn as i64, den: qd as i64 })
        }
    }

    /// The rational `num / den`. `None` if `den` is zero or the reduced
    /// fraction cannot be stored.
    pub fn new(num: i64, den: i64) -> (r: Option<Rational>)
        ensures
            r.is_some() <==> den != 0 && fits(reduce(num as int, den as int)),
            r matches Some(q) ==> q.wf() && q@ == reduce(num as int, den as int),
    {
        if den == 0 {
            None
        } else {
            Rational::normalized(num as i128, den as i128)
        }
    }

    /// The integer `i` as a rational.
    pub fn from_int(i: i64) -> (r: Rational)
        ensures
            r.wf(),
            r@ == rat_int(i as int),
    {
        proof {
            assert(bezout(i as int, 1, 0, 1));
        }
        Rational { num: i, den: 1 }
    }

    /// Numerator and denominator, in lowest terms.
    pub fn frac(&self) -> (r: (i64, i64))
        ensures
            r.0 == self@.num,
            r.1 == self@.den,
    {
        (self.num, self.den)
    }

    pub fn is_zero(&self) -> (r: bool)
        ensures
            r == (self@.num == 0),
    {
        self.num == 0
    }

    /// The value as an integer, if it is one.
    pub fn as_int(&self) -> (r: Option<i64>)
        ensures
            r == (if self@.den == 1 { Some(self.numer()) } else { None }),
    {
        if self.den == 1 {
            Some(self.num)
        } else {
            None
        }
    }

    /// The sum, if it can be stored.
    pub fn add(self, rhs: Rational) -> (r: Option<Rational>)
        requires
            self.wf(),
            rhs.wf(),
        ensures
            r.is_some() <==> fits(rat_add(self@, rhs@)),
            r matches Some(q) ==> q.wf() && q@ == rat_add(self@, rhs@),
    {
        let a = self.num as i128;
        let b = self.den as i128;
        let c = rhs.num as i128;
        let d = rhs.den as i128;
        assert(-0x3fff_ffff_ffff_ffff_8000_0000_0000_0000 <= a * d
            <= 0x3fff_ffff_ffff_ffff_8000_0000_0000_0000 && -0x3fff_ffff_ffff_ffff_8000_0000_0000_0000
            <= c * b <= 0x3fff_ffff_ffff_ffff_8000_0000_0000_0000 && 0 < b * d
            <= 0x4000_0000_0000_0000_0000_0000_0000_0000) by (nonlinear_arith)
            requires
                -0x8000_0000_0000_0000 <= a <= 0x7fff_ffff_ffff_ffff,
                -0x8000_0000_0000_0000 <= c <= 0x7fff_ffff_ffff_ffff,
                0 < b <= 0x7fff_ffff_ffff_ffff,
                0 < d <= 0x7fff_ffff_ffff_ffff,
        ;
        Rational::normalized(a * d + c * b, b * d)
    }

    /// The product, if it can be stored.
    pub fn mul(self, rhs: Rational) -> (r: Option<Rational>)
        requires
            self.wf(),
            rhs.wf(),
        ensures
            r.is_some() <==> fits(rat_mul(self@, rhs@)),
            r matches Some(q) ==> q.wf() && q@ == rat_mul(self@, rhs@),
    {
        let a = self.num as i128;
        let b = self.den as i128;
        let c = rhs.num as i128;
        let d = rhs.den as i128;
        assert(-0x4000_0000_0000_0000_0000_0000_0000_0000 <= a * c
            <= 0x4000_0000_0000_0000_0000_0000_0000_0000 && 0 < b * d
            <= 0x4000_0000_0000_0000_0000_0000_0000_0000) by (nonlinear_arith)
            requires
                -0x8000_0000_0000_0000 <= a <= 0x7fff_ffff_ffff_ffff,
                -0x8000_0000_0000_0000 <= c <= 0x7fff_ffff_ffff_ffff,
                0 < b <= 0x7fff_ffff_ffff_ffff,
                0 < d <= 0x7fff_ffff_ffff_ffff,
        ;
        Rational::normalized(a * c, b * d)
    }

    /// The negation, if it can be stored.
    pub fn neg(self) -> (r: Option<Rational>)
        requires
            self.wf(),
        ensures
            r.is_some() <==> fits(rat_neg(self@)),
            r matches Some(q) ==> q.wf() && q@ == rat_neg(self@),
    {
        if self.num == i64::MIN {
            None
        } else {
            proof {
                lemma_coprime_symmetric(self@.num, self@.den);
            }
            Some(Rational { num: 0 - self.num, den: self.den })
        }
    }

    /// The reciprocal of a nonzero rational, if it can be stored.
    pub fn inv(self) -> (r: Option<Rational>)
        requires
            self.wf(),
            self@.num != 0,
        ensures
            r.is_some() <==> fits(rat_inv(self@)),
            r matches Some(q) ==> q.wf() && q@ == rat_inv(self@),
    {
        proof {
            lemma_inv_reduced(self@);
        }
        if self.num == i64::MIN {
            None
        } else if self.num < 0 {
            Some(Rational { num: 0 - self.den, den: 0 - self.num })
        } else {
            Some(Rational { num: self.den, den: self.num })
        }
    }

    /// A natural power, if it can be stored.
    fn pow_nat(self, n: u32) -> (r: Option<Rational>)
        requires
            self.wf(),
        ensures
            r.is_some() <==> fits(rat_pow_nat(self@, n as nat)),
            r matches Some(q) ==> q.wf() && q@ == rat_pow_nat(self@, n as nat),
    {
        proof {
            lemma_pow_reduced(self@, n as nat);
        }
        match pow_i64(self.num, n) {
            None => None,
            Some(num) => match pow_i64(self.den, n) {
                None => None,
                Some(den) => Some(Rational { num, den }),
            },
        }
    }

    /// The rational raised to the integer power `i`, if it can be stored.
    /// Zero has no negative power.
    pub fn pow(self, i: i32) -> (r: Option<Rational>)
        requires
            self.wf(),
            !(self@.num == 0 && i < 0),
        ensures
            r.is_some() <==> fits(rat_pow(self@, i as int)),
            r matches Some(q) ==> q.wf() && q@ == rat_pow(self@, i as int),
    {
        if i >= 0 {
            self.pow_nat(i as u32)
        } else {
            let n: u32 = (0 - (i as i64)) as u32;
            match self.inv() {
                Some(inverse) => inverse.pow_nat(n),
                None => {
                    proof {
                        // the reciprocal's denominator is 2^63, and its powers are no smaller
                        let d = rat_inv(self@).den;
                        lemma_pow1(d);
                        if n > 1 {
                            lemma_pow_grows(d, 1, n as nat);
                        }
                    }
                    None
                },
            }
        }
    }
}

} // verus!
