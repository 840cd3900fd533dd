//! The algebra of polynomial multiplication: the exact product, and the
//! laws that it obeys.

use vstd::prelude::*;
use crate::monomial::{
    lemma_mono_cancel, lemma_mono_lt_irreflexive, lemma_mono_lt_total, lemma_mono_lt_transitive,
    lemma_mono_mul, lemma_mono_mul_associative, lemma_mono_mul_commutative, mono_fits, mono_inv, mono_lt,
    mono_mul, mono_wf, Monomial,
};
use crate::poly::{
    canon, coeff, has_term, keeps_except, lemma_add_term, lemma_canon, lemma_coeff_at, lemma_coeff_local,
    lemma_poly_add, lemma_poly_add_associative, lemma_poly_add_commutative, lemma_poly_add_zero,
    lemma_poly_term, lemma_take_push, lemma_to_map, mul_sum, poly_add, poly_canonical, poly_fits,
    poly_get, poly_mul, poly_pow_n, poly_rational, poly_stored, poly_term, poly_wf, poly_zero, pow_loop,
    row_sum, term_fits, term_mul, term_wf, terms_wf, to_map, PolyMap, Term,
};
use crate::rational::{
    fits, is_reduced, lemma_int_reduced, lemma_rat_add_zero, lemma_rat_closed, lemma_rat_distributive,
    lemma_rat_mul_associative, lemma_rat_mul_commutative, lemma_rat_mul_inverse, lemma_rat_mul_nonzero,
    lemma_rat_mul_one, lemma_rat_pow, lemma_zero_unique, rat_add, rat_mul, rat_one, rat_pow, rat_zero,
    Fraction,
};

verus! {

/// A term as a polynomial.
pub open spec fn term_poly(t: Term) -> PolyMap {
    poly_term(t.base, t.fac)
}

/// `acc + s * b[0] + s * b[1] + ...`, exactly.
pub open spec fn row_exact(acc: PolyMap, s: Term, b: Seq<Term>) -> PolyMap
    decreases b.len(),
{
    if b.len() == 0 {
        acc
    } else {
        poly_add(row_exact(acc, s, b.drop_last()), term_poly(term_mul(s, b.last())))
    }
}

/// The sum of the products of every term of `a` with every term of `b`,
/// exactly.
pub open spec fn mul_exact(a: Seq<Term>, b: Seq<Term>) -> PolyMap
    decreases a.len(),
{
    if a.len() == 0 {
        poly_zero()
    } else {
        row_exact(mul_exact(a.drop_last(), b), a.last(), b)
    }
}

/// The exact product of two polynomials.
pub open spec fn poly_times(a: PolyMap, b: PolyMap) -> PolyMap {
    mul_exact(canon(a), canon(b))
}

/// Every term of the list is well formed.
pub open spec fn all_terms_wf(ts: Seq<Term>) -> bool {
    forall|i: int| 0 <= i < ts.len() ==> term_wf(#[trigger] ts[i])
}

/// A sum of products that can be stored is the exact sum.
pub proof fn lemma_row_sum_exact(acc: Option<PolyMap>, s: Term, b: Seq<Term>)
    ensures
        row_sum(acc, s, b) matches Some(p) ==> acc is Some && p == row_exact(acc->Some_0, s, b),
    decreases b.len(),
{
    if b.len() > 0 {
        lemma_row_sum_exact(acc, s, b.drop_last());
    }
}

/// A product that can be stored is the exact product.
pub proof fn lemma_mul_sum_exact(a: Seq<Term>, b: Seq<Term>)
    ensures
        mul_sum(a, b) matches Some(p) ==> p == mul_exact(a, b),
    decreases a.len(),
{
    if a.len() > 0 {
        lemma_mul_sum_exact(a.drop_last(), b);
        lemma_row_sum_exact(mul_sum(a.drop_last(), b), a.last(), b);
    }
}

/// The product that the library computes is the exact product.
pub proof fn lemma_poly_mul_exact(a: PolyMap, b: PolyMap)
    ensures
        poly_mul(a, b) matches Some(p) ==> p == poly_times(a, b),
{
    lemma_mul_sum_exact(canon(a), canon(b));
}

/// The sum `f(0) + f(1) + ... + f(n - 1)`.
pub open spec fn sum_to(f: spec_fn(int) -> PolyMap, n: nat) -> PolyMap
    decreases n,
{
    if n == 0 {
        poly_zero()
    } else {
        poly_add(sum_to(f, (n - 1) as nat), f(n - 1))
    }
}

/// The first `n` values of `f` are well-formed polynomials.
pub open spec fn all_wf(f: spec_fn(int) -> PolyMap, n: nat) -> bool {
    forall|k: int| 0 <= k < n ==> poly_wf(#[trigger] f(k))
}

/// A sum of well-formed polynomials is well formed.
pub proof fn lemma_sum_wf(f: spec_fn(int) -> PolyMap, n: nat)
    requires
        all_wf(f, n),
    ensures
        poly_wf(sum_to(f, n)),
    decreases n,
{
    if n > 0 {
        lemma_sum_wf(f, (n - 1) as nat);
        assert(poly_wf(f(n - 1)));
        lemma_poly_add(sum_to(f, (n - 1) as nat), f(n - 1));
    }
}

/// Sums of the same polynomials are the same.
pub proof fn lemma_sum_ext(f: spec_fn(int) -> PolyMap, g: spec_fn(int) -> PolyMap, n: nat)
    requires
        forall|k: int| 0 <= k < n ==> #[trigger] f(k) == g(k),
    ensures
        sum_to(f, n) == sum_to(g, n),
    decreases n,
{
    if n > 0 {
        lemma_sum_ext(f, g, (n - 1) as nat);
        assert(f(n - 1) == g(n - 1));
    }
}

/// `(a + b) + (c + d) == (a + c) + (b + d)`.
pub proof fn lemma_add_interchange(a: PolyMap, b: PolyMap, c: PolyMap, d: PolyMap)
    requires
        poly_wf(a),
        poly_wf(b),
        poly_wf(c),
        poly_wf(d),
    ensures
        poly_add(poly_add(a, b), poly_add(c, d)) == poly_add(poly_add(a, c), poly_add(b, d)),
{
    lemma_poly_add(a, b);
    lemma_poly_add(c, d);
    lemma_poly_add(a, c);
    lemma_poly_add(b, d);
    lemma_poly_add(b, c);
    // (a + b) + (c + d) == a + (b + (c + d)) == a + ((b + c) + d)
    lemma_poly_add_associative(a, b, poly_add(c, d));
    lemma_poly_add_associative(b, c, d);
    // == a + ((c + b) + d) == a + (c + (b + d)) == (a + c) + (b + d)
    lemma_poly_add_commutative(b, c);
    lemma_poly_add_associative(c, b, d);
    lemma_poly_add_associative(a, c, poly_add(b, d));
}

/// The sum of sums is the sum of the two sums.
pub proof fn lemma_sum_add(f: spec_fn(int) -> PolyMap, g: spec_fn(int) -> PolyMap, n: nat)
    requires
        all_wf(f, n),
        all_wf(g, n),
    ensures
        sum_to(|k: int| poly_add(f(k), g(k)), n) == poly_add(sum_to(f, n), sum_to(g, n)),
    decreases n,
{
    let h = |k: int| poly_add(f(k), g(k));
    if n == 0 {
        lemma_poly_add_zero(poly_zero());
    } else {
        let m = (n - 1) as nat;
        lemma_sum_add(f, g, m);
        lemma_sum_wf(f, m);
        lemma_sum_wf(g, m);
        assert(poly_wf(f(n - 1)) && poly_wf(g(n - 1)));
        assert(sum_to(h, m) == poly_add(sum_to(f, m), sum_to(g, m)));
        assert(h(n - 1) == poly_add(f(n - 1), g(n - 1)));
        lemma_add_interchange(sum_to(f, m), sum_to(g, m), f(n - 1), g(n - 1));
    }
}

/// A sum of zeros is zero.
pub proof fn lemma_sum_zero(f: spec_fn(int) -> PolyMap, n: nat)
    requires
        forall|k: int| 0 <= k < n ==> #[trigger] f(k) == poly_zero(),
    ensures
        sum_to(f, n) == poly_zero(),
    decreases n,
{
    if n > 0 {
        lemma_sum_zero(f, (n - 1) as nat);
        assert(f(n - 1) == poly_zero());
        lemma_poly_add_zero(poly_zero());
    }
}

/// A double sum can be taken in either order.
pub proof fn lemma_sum_swap(t: spec_fn(int, int) -> PolyMap, n: nat, m: nat)
    requires
        forall|i: int, j: int| 0 <= i < n && 0 <= j < m ==> poly_wf(#[trigger] t(i, j)),
    ensures
        sum_to(|i: int| sum_to(|j: int| t(i, j), m), n) == sum_to(|j: int| sum_to(|i: int| t(i, j), n), m),
    decreases n,
{
    let rows = |i: int| sum_to(|j: int| t(i, j), m);
    let cols = |j: int| sum_to(|i: int| t(i, j), n);
    if n == 0 {
        assert forall|j: int| 0 <= j < m implies #[trigger] cols(j) == poly_zero() by {}
        lemma_sum_zero(cols, m);
    } else {
        let k = (n - 1) as nat;
        lemma_sum_swap(t, k, m);
        let cols_before = |j: int| sum_to(|i: int| t(i, j), k);
        let last = |j: int| t(n - 1, j);
        assert(sum_to(rows, k) == sum_to(cols_before, m));
        assert(rows(n - 1) == sum_to(last, m)) by {
            lemma_sum_ext(|j: int| t(n - 1, j), last, m);
        }
        assert forall|j: int| 0 <= j < m implies poly_wf(#[trigger] cols_before(j)) by {
            let col = |i: int| t(i, j);
            assert forall|i: int| 0 <= i < k implies poly_wf(#[trigger] col(i)) by {
                assert(poly_wf(t(i, j)));
            }
            lemma_sum_wf(col, k);
        }
        assert forall|j: int| 0 <= j < m implies poly_wf(#[trigger] last(j)) by {
            assert(poly_wf(t(n - 1, j)));
        }
        lemma_sum_add(cols_before, last, m);
        let both = |j: int| poly_add(cols_before(j), last(j));
        assert forall|j: int| 0 <= j < m implies #[trigger] both(j) == cols(j) by {}
        lemma_sum_ext(both, cols, m);
    }
}

/// The terms of a product of well-formed terms are well formed.
pub proof fn lemma_term_mul_wf(s: Term, t: Term)
    requires
        term_wf(s),
        term_wf(t),
    ensures
        poly_wf(term_poly(term_mul(s, t))),
{
    lemma_mono_mul(s.base, t.base, 0);
    lemma_rat_closed(s.fac, t.fac);
    lemma_poly_term(mono_mul(s.base, t.base), rat_mul(s.fac, t.fac));
}

/// A row of a product is the sum of its products.
pub proof fn lemma_row_exact(acc: PolyMap, s: Term, b: Seq<Term>)
    requires
        poly_wf(acc),
        term_wf(s),
        all_terms_wf(b),
    ensures
        row_exact(acc, s, b) == poly_add(acc, sum_to(|j: int| term_poly(term_mul(s, b[j])), b.len())),
        poly_wf(row_exact(acc, s, b)),
    decreases b.len(),
{
    let f = |j: int| term_poly(term_mul(s, b[j]));
    if b.len() == 0 {
        lemma_poly_add_zero(acc);
    } else {
        let front = b.drop_last();
        let g = |j: int| term_poly(term_mul(s, front[j]));
        assert(all_terms_wf(front)) by {
            assert forall|i: int| 0 <= i < front.len() implies term_wf(#[trigger] front[i]) by {
                assert(front[i] == b[i]);
            }
        }
        lemma_row_exact(acc, s, front);
        assert forall|j: int| 0 <= j < front.len() implies #[trigger] g(j) == f(j) by {
            assert(front[j] == b[j]);
        }
        lemma_sum_ext(g, f, front.len());
        assert forall|j: int| 0 <= j < front.len() implies poly_wf(#[trigger] f(j)) by {
            assert(term_wf(b[j]));
            lemma_term_mul_wf(s, b[j]);
        }
        lemma_sum_wf(f, front.len());
        assert(term_wf(b.last()));
        lemma_term_mul_wf(s, b.last());
        let last = term_poly(term_mul(s, b.last()));
        assert(f(b.len() - 1) == last);
        lemma_poly_add_associative(acc, sum_to(f, front.len()), last);
        lemma_poly_add(sum_to(f, front.len()), last);
        lemma_poly_add(acc, sum_to(f, b.len()));
    }
}

/// The exact product is the double sum of the products of the terms.
pub proof fn lemma_mul_exact(a: Seq<Term>, b: Seq<Term>)
    requires
        all_terms_wf(a),
        all_terms_wf(b),
    ensures
        mul_exact(a, b) == sum_to(
            |i: int| sum_to(|j: int| term_poly(term_mul(a[i], b[j])), b.len()),
            a.len(),
        ),
        poly_wf(mul_exact(a, b)),
    decreases a.len(),
{
    let rows = |i: int| sum_to(|j: int| term_poly(term_mul(a[i], b[j])), b.len());
    if a.len() > 0 {
        let front = a.drop_last();
        let rows_front = |i: int| sum_to(|j: int| term_poly(term_mul(front[i], b[j])), b.len());
        assert(all_terms_wf(front)) by {
            assert forall|i: int| 0 <= i < front.len() implies term_wf(#[trigger] front[i]) by {
                assert(front[i] == a[i]);
            }
        }
        lemma_mul_exact(front, b);
        assert forall|i: int| 0 <= i < front.len() implies #[trigger] rows_front(i) == rows(i) by {
            assert(front[i] == a[i]);
            lemma_sum_ext(
                |j: int| term_poly(term_mul(front[i], b[j])),
                |j: int| term_poly(term_mul(a[i], b[j])),
                b.len(),
            );
        }
        lemma_sum_ext(rows_front, rows, front.len());
        assert(term_wf(a.last()));
        lemma_row_exact(mul_exact(front, b), a.last(), b);
        assert(rows(a.len() - 1) == sum_to(|j: int| term_poly(term_mul(a.last(), b[j])), b.len())) by {
            lemma_sum_ext(
                |j: int| term_poly(term_mul(a[a.len() - 1], b[j])),
                |j: int| term_poly(term_mul(a.last(), b[j])),
                b.len(),
            );
        }
    }
}

/// The product of two terms does not depend on their order.
pub proof fn lemma_term_mul_commutative(s: Term, t: Term)
    requires
        term_wf(s),
        term_wf(t),
    ensures
        term_mul(s, t) == term_mul(t, s),
{
    lemma_mono_mul_commutative(s.base, t.base);
    lemma_rat_mul_commutative(s.fac, t.fac);
}

/// The exact product of term lists does not depend on their order.
pub proof fn lemma_mul_exact_commutative(a: Seq<Term>, b: Seq<Term>)
    requires
        all_terms_wf(a),
        all_terms_wf(b),
    ensures
        mul_exact(a, b) == mul_exact(b, a),
{
    let n = a.len();
    let m = b.len();
    let t = |i: int, j: int| term_poly(term_mul(a[i], b[j]));
    lemma_mul_exact(a, b);
    lemma_mul_exact(b, a);
    assert forall|i: int, j: int| 0 <= i < n && 0 <= j < m implies poly_wf(#[trigger] t(i, j)) by {
        assert(term_wf(a[i]) && term_wf(b[j]));
        lemma_term_mul_wf(a[i], b[j]);
    }
    lemma_sum_swap(t, n, m);
    // the double sum of a * b, written with t
    let ab = |i: int| sum_to(|j: int| term_poly(term_mul(a[i], b[j])), m);
    let ab_t = |i: int| sum_to(|j: int| t(i, j), m);
    assert forall|i: int| 0 <= i < n implies #[trigger] ab(i) == ab_t(i) by {
        lemma_sum_ext(|j: int| term_poly(term_mul(a[i], b[j])), |j: int| t(i, j), m);
    }
    lemma_sum_ext(ab, ab_t, n);
    // the double sum of b * a, written with t
    let ba = |j: int| sum_to(|i: int| term_poly(term_mul(b[j], a[i])), n);
    let ba_t = |j: int| sum_to(|i: int| t(i, j), n);
    assert forall|j: int| 0 <= j < m implies #[trigger] ba(j) == ba_t(j) by {
        let left = |i: int| term_poly(term_mul(b[j], a[i]));
        let right = |i: int| t(i, j);
        assert forall|i: int| 0 <= i < n implies #[trigger] left(i) == right(i) by {
            assert(term_wf(a[i]) && term_wf(b[j]));
            lemma_term_mul_commutative(b[j], a[i]);
        }
        lemma_sum_ext(left, right, n);
    }
    lemma_sum_ext(ba, ba_t, m);
}

/// Multiplication of polynomials is commutative.
pub proof fn lemma_poly_mul_commutative(a: PolyMap, b: PolyMap)
    requires
        poly_canonical(a),
        poly_canonical(b),
    ensures
        poly_times(a, b) == poly_times(b, a),
        poly_mul(a, b) is Some && poly_mul(b, a) is Some ==> poly_mul(a, b) == poly_mul(b, a),
{
    lemma_mul_exact_commutative(canon(a), canon(b));
    lemma_poly_mul_exact(a, b);
    lemma_poly_mul_exact(b, a);
}

/// The term that is the constant 1.
pub open spec fn unit_term() -> Term {
    Term { base: Seq::empty(), fac: rat_one() }
}

/// The polynomial 1.
pub open spec fn poly_one() -> PolyMap {
    poly_rational(rat_one())
}

/// The term list of a nonzero constant has that constant as its one term.
pub proof fn lemma_canon_constant(c: Fraction)
    requires
        is_reduced(c),
        c.num != 0,
    ensures
        canon(poly_rational(c)) == seq![Term { base: Seq::empty(), fac: c }],
        poly_wf(poly_rational(c)),
{
    let t = Term { base: Seq::<(crate::node::NodeRc, int)>::empty(), fac: c };
    let ts = seq![t];
    assert(terms_wf(ts));
    lemma_coeff_at(ts, 0);
    assert forall|m: Monomial| crate::poly::has_term(ts, m) <==> m == t.base by {
        if m == t.base {
            assert(ts[0].base == m);
        }
    }
    assert(to_map(ts) =~= poly_rational(c));
    lemma_canon(ts);
}

/// The mapping of the first terms of a list of terms that can be stored
/// can be stored.
pub proof fn lemma_prefix_fits(ts: Seq<Term>, k: int)
    requires
        terms_wf(ts),
        forall|i: int| 0 <= i < ts.len() ==> term_fits(#[trigger] ts[i]),
        0 <= k <= ts.len(),
    ensures
        terms_wf(ts.take(k)),
        poly_fits(to_map(ts.take(k))),
        poly_wf(to_map(ts.take(k))),
{
    let front = ts.take(k);
    assert forall|i: int| 0 <= i < front.len() implies term_wf(#[trigger] front[i]) && term_fits(front[i]) by {
        assert(front[i] == ts[i]);
    }
    assert forall|i: int, j: int| 0 <= i < j < front.len() implies crate::monomial::mono_lt(
        (#[trigger] front[i]).base,
        (#[trigger] front[j]).base,
    ) by {
        assert(front[i] == ts[i] && front[j] == ts[j]);
    }
    lemma_to_map(front);
    assert forall|m: Monomial| #[trigger] to_map(front).dom().contains(m) implies mono_fits(m) && fits(
        to_map(front)[m],
    ) by {
        let i = crate::poly::index_of(front, m);
        lemma_coeff_at(front, i);
        assert(term_fits(front[i]));
    }
}

/// A polynomial times 1, term by term.
proof fn lemma_times_one(a: Seq<Term>, k: int)
    requires
        terms_wf(a),
        forall|i: int| 0 <= i < a.len() ==> term_fits(#[trigger] a[i]),
        0 <= k <= a.len(),
    ensures
        mul_sum(a.take(k), seq![unit_term()]) == Some(to_map(a.take(k))),
    decreases k,
{
    let u = unit_term();
    let b = seq![u];
    if k == 0 {
        assert(a.take(0) =~= Seq::<Term>::empty());
        assert(to_map(a.take(0)) =~= poly_zero());
    } else {
        lemma_times_one(a, k - 1);
        lemma_prefix_fits(a, k - 1);
        lemma_prefix_fits(a, k);
        lemma_take_push(a, k - 1);
        let s = a[k - 1];
        assert(term_wf(s) && term_fits(s));
        assert(a.take(k).drop_last() =~= a.take(k - 1));
        assert(a.take(k).last() == s);
        assert(b.drop_last() =~= Seq::<Term>::empty());
        lemma_rat_mul_one(s.fac);
        assert(mono_mul(s.base, u.base) =~= s.base);
        assert(term_mul(s, u) == s);
        assert(row_sum(Some(to_map(a.take(k - 1))), s, b.drop_last()) == Some(to_map(a.take(k - 1))));
    }
}

/// 1 times a polynomial, term by term.
proof fn lemma_one_times(a: Seq<Term>, k: int)
    requires
        terms_wf(a),
        forall|i: int| 0 <= i < a.len() ==> term_fits(#[trigger] a[i]),
        0 <= k <= a.len(),
    ensures
        row_sum(Some(poly_zero()), unit_term(), a.take(k)) == Some(to_map(a.take(k))),
    decreases k,
{
    let u = unit_term();
    if k == 0 {
        assert(a.take(0) =~= Seq::<Term>::empty());
        assert(to_map(a.take(0)) =~= poly_zero());
    } else {
        lemma_one_times(a, k - 1);
        lemma_prefix_fits(a, k - 1);
        lemma_prefix_fits(a, k);
        lemma_take_push(a, k - 1);
        let s = a[k - 1];
        assert(term_wf(s) && term_fits(s));
        assert(a.take(k).drop_last() =~= a.take(k - 1));
        assert(a.take(k).last() == s);
        lemma_rat_mul_one(s.fac);
        assert(mono_mul(u.base, s.base) == s.base);
        assert(term_mul(u, s) == s);
    }
}

/// The polynomial 1 is the identity of multiplication, and multiplying by
/// it never fails.
pub proof fn lemma_poly_mul_one(a: PolyMap)
    requires
        poly_stored(a),
    ensures
        poly_mul(a, poly_one()) == Some(a),
        poly_mul(poly_one(), a) == Some(a),
{
    let ts = canon(a);
    lemma_int_reduced(1);
    lemma_canon_constant(rat_one());
    assert forall|i: int| 0 <= i < ts.len() implies term_fits(#[trigger] ts[i]) by {
        lemma_coeff_at(ts, i);
        assert(a.dom().contains(ts[i].base));
    }
    lemma_times_one(ts, ts.len() as int);
    lemma_one_times(ts, ts.len() as int);
    assert(ts.take(ts.len() as int) =~= ts);
    let one = seq![unit_term()];
    assert(one.drop_last() =~= Seq::<Term>::empty());
    assert(mul_sum(one, ts) == row_sum(mul_sum(one.drop_last(), ts), one.last(), ts));
}

/// A nonzero rational constant times its power -1 is 1.
pub proof fn lemma_poly_mul_inverse(c: Fraction)
    requires
        is_reduced(c),
        c.num != 0,
        fits(c),
        fits(rat_pow(c, -1)),
    ensures
        poly_mul(poly_rational(c), poly_rational(rat_pow(c, -1))) == Some(poly_one()),
{
    let d = rat_pow(c, -1);
    lemma_rat_pow(c, -1);
    lemma_rat_mul_inverse(c);
    lemma_canon_constant(c);
    lemma_canon_constant(d);
    lemma_int_reduced(1);
    let empty = Seq::<(crate::node::NodeRc, int)>::empty();
    let s = Term { base: empty, fac: c };
    let t = Term { base: empty, fac: d };
    let a = seq![s];
    let b = seq![t];
    assert(a.drop_last() =~= Seq::<Term>::empty());
    assert(b.drop_last() =~= Seq::<Term>::empty());
    assert(mono_mul(empty, empty) == empty);
    assert(term_mul(s, t) == unit_term());
    lemma_poly_term(empty, rat_one());
    lemma_poly_add_zero(poly_one());
    assert(mul_sum(a.drop_last(), b) == Some(poly_zero()));
    assert(a.last() == s);
    assert(mul_sum(a, b) == row_sum(Some(poly_zero()), s, b));
    assert(row_sum(Some(poly_zero()), s, b.drop_last()) == Some(poly_zero()));
    assert(poly_fits(poly_one())) by {
        assert forall|m: Monomial| #[trigger] poly_one().dom().contains(m) implies mono_fits(m) && fits(
            poly_one()[m],
        ) by {
            assert(m == empty);
        }
    }
}

/// The double sum of `t(i, j)` for `i < n` and `j < m`.
pub open spec fn sum2(t: spec_fn(int, int) -> PolyMap, n: nat, m: nat) -> PolyMap {
    sum_to(|i: int| sum_to(|j: int| t(i, j), m), n)
}

/// `t(i, j)` is a well-formed polynomial for `i < n` and `j < m`.
pub open spec fn all_wf2(t: spec_fn(int, int) -> PolyMap, n: nat, m: nat) -> bool {
    forall|i: int, j: int| 0 <= i < n && 0 <= j < m ==> poly_wf(#[trigger] t(i, j))
}

/// Double sums of the same polynomials are the same.
pub proof fn lemma_sum2_ext(f: spec_fn(int, int) -> PolyMap, g: spec_fn(int, int) -> PolyMap, n: nat, m: nat)
    requires
        forall|i: int, j: int| 0 <= i < n && 0 <= j < m ==> #[trigger] f(i, j) == g(i, j),
    ensures
        sum2(f, n, m) == sum2(g, n, m),
{
    let rf = |i: int| sum_to(|j: int| f(i, j), m);
    let rg = |i: int| sum_to(|j: int| g(i, j), m);
    assert forall|i: int| 0 <= i < n implies #[trigger] rf(i) == rg(i) by {
        let ff = |j: int| f(i, j);
        let gg = |j: int| g(i, j);
        assert forall|j: int| 0 <= j < m implies #[trigger] ff(j) == gg(j) by {
            assert(f(i, j) == g(i, j));
        }
        lemma_sum_ext(ff, gg, m);
    }
    lemma_sum_ext(rf, rg, n);
}

/// A double sum of well-formed polynomials is well formed, and so are
/// its rows.
pub proof fn lemma_sum2_wf(t: spec_fn(int, int) -> PolyMap, n: nat, m: nat)
    requires
        all_wf2(t, n, m),
    ensures
        poly_wf(sum2(t, n, m)),
        all_wf(|i: int| sum_to(|j: int| t(i, j), m), n),
{
    let rows = |i: int| sum_to(|j: int| t(i, j), m);
    assert forall|i: int| 0 <= i < n implies poly_wf(#[trigger] rows(i)) by {
        let row = |j: int| t(i, j);
        assert forall|j: int| 0 <= j < m implies poly_wf(#[trigger] row(j)) by {
            assert(poly_wf(t(i, j)));
        }
        lemma_sum_wf(row, m);
    }
    lemma_sum_wf(rows, n);
}

/// The double sum of sums is the sum of the two double sums.
pub proof fn lemma_sum2_add(f: spec_fn(int, int) -> PolyMap, g: spec_fn(int, int) -> PolyMap, n: nat, m: nat)
    requires
        all_wf2(f, n, m),
        all_wf2(g, n, m),
    ensures
        sum2(|i: int, j: int| poly_add(f(i, j), g(i, j)), n, m) == poly_add(sum2(f, n, m), sum2(g, n, m)),
{
    let h = |i: int, j: int| poly_add(f(i, j), g(i, j));
    let rf = |i: int| sum_to(|j: int| f(i, j), m);
    let rg = |i: int| sum_to(|j: int| g(i, j), m);
    let rh = |i: int| sum_to(|j: int| h(i, j), m);
    let both = |i: int| poly_add(rf(i), rg(i));
    lemma_sum2_wf(f, n, m);
    lemma_sum2_wf(g, n, m);
    assert forall|i: int| 0 <= i < n implies #[trigger] rh(i) == both(i) by {
        let ff = |j: int| f(i, j);
        let gg = |j: int| g(i, j);
        let hh = |j: int| h(i, j);
        let sum = |j: int| poly_add(ff(j), gg(j));
        assert forall|j: int| 0 <= j < m implies poly_wf(#[trigger] ff(j)) && poly_wf(#[trigger] gg(j)) by {
            assert(poly_wf(f(i, j)) && poly_wf(g(i, j)));
        }
        lemma_sum_add(ff, gg, m);
        assert forall|j: int| 0 <= j < m implies #[trigger] hh(j) == sum(j) by {}
        lemma_sum_ext(hh, sum, m);
    }
    lemma_sum_ext(rh, both, n);
    lemma_sum_add(rf, rg, n);
}

/// The exact product is the double sum of the products of the terms.
pub proof fn lemma_mul_exact2(a: Seq<Term>, b: Seq<Term>)
    requires
        all_terms_wf(a),
        all_terms_wf(b),
    ensures
        mul_exact(a, b) == sum2(|i: int, j: int| term_poly(term_mul(a[i], b[j])), a.len(), b.len()),
        all_wf2(|i: int, j: int| term_poly(term_mul(a[i], b[j])), a.len(), b.len()),
{
    let t = |i: int, j: int| term_poly(term_mul(a[i], b[j]));
    lemma_mul_exact(a, b);
    let rows = |i: int| sum_to(|j: int| term_poly(term_mul(a[i], b[j])), b.len());
    let rows_t = |i: int| sum_to(|j: int| t(i, j), b.len());
    assert forall|i: int| 0 <= i < a.len() implies #[trigger] rows(i) == rows_t(i) by {
        lemma_sum_ext(|j: int| term_poly(term_mul(a[i], b[j])), |j: int| t(i, j), b.len());
    }
    lemma_sum_ext(rows, rows_t, a.len());
    assert forall|i: int, j: int| 0 <= i < a.len() && 0 <= j < b.len() implies poly_wf(#[trigger] t(i, j)) by {
        assert(term_wf(a[i]) && term_wf(b[j]));
        lemma_term_mul_wf(a[i], b[j]);
    }
}

/// The coefficient of `m` in `q` times the term `t`.
pub open spec fn shift_value(q: PolyMap, t: Term, m: Monomial) -> Fraction {
    rat_mul(poly_get(q, mono_mul(m, mono_inv(t.base))), t.fac)
}

/// A polynomial times a term.
pub open spec fn shift(q: PolyMap, t: Term) -> PolyMap {
    Map::new(|m: Monomial| mono_wf(m) && shift_value(q, t, m).num != 0, |m: Monomial| shift_value(q, t, m))
}

/// A polynomial times a term is a well-formed polynomial with the
/// coefficients of `shift_value`.
pub proof fn lemma_shift(q: PolyMap, t: Term)
    requires
        poly_wf(q),
        term_wf(t),
    ensures
        poly_wf(shift(q, t)),
        forall|m: Monomial| mono_wf(m) ==> #[trigger] poly_get(shift(q, t), m) == shift_value(q, t, m),
        forall|m: Monomial| !mono_wf(m) ==> #[trigger] poly_get(shift(q, t), m) == rat_zero(),
{
    lemma_int_reduced(0);
    assert forall|m: Monomial| is_reduced(#[trigger] shift_value(q, t, m)) by {
        let x = mono_mul(m, mono_inv(t.base));
        if q.dom().contains(x) {
            assert(is_reduced(q[x]));
        }
        lemma_rat_closed(poly_get(q, x), t.fac);
    }
    assert forall|m: Monomial| mono_wf(m) implies #[trigger] poly_get(shift(q, t), m) == shift_value(q, t, m) by {
        if shift_value(q, t, m).num == 0 {
            lemma_zero_unique(shift_value(q, t, m));
        }
    }
}

/// A term times a term, as polynomials.
pub proof fn lemma_shift_term(s: Term, t: Term)
    requires
        term_wf(s),
        term_wf(t),
    ensures
        shift(term_poly(s), t) == term_poly(term_mul(s, t)),
{
    let p = term_poly(s);
    let product = term_mul(s, t);
    lemma_mono_cancel(s.base, t.base);
    lemma_rat_mul_nonzero(s.fac, t.fac);
    lemma_rat_mul_one(t.fac);
    assert forall|m: Monomial| #[trigger]
        shift(p, t).dom().contains(m) == term_poly(product).dom().contains(m) && (shift(p, t).dom().contains(m)
            ==> shift(p, t)[m] == term_poly(product)[m]) by {
        let x = mono_mul(m, mono_inv(t.base));
        if mono_wf(m) {
            lemma_mono_cancel(m, t.base);
            if x == s.base {
                assert(m == product.base);
            }
        }
        if m == product.base {
            assert(x == s.base);
        }
    }
    assert(shift(p, t) =~= term_poly(product));
}

/// Multiplication by a term distributes over addition.
pub proof fn lemma_shift_add(p: PolyMap, q: PolyMap, t: Term)
    requires
        poly_wf(p),
        poly_wf(q),
        term_wf(t),
    ensures
        shift(poly_add(p, q), t) == poly_add(shift(p, t), shift(q, t)),
{
    lemma_poly_add(p, q);
    lemma_poly_add(q, q);
    lemma_shift(p, t);
    lemma_shift(q, t);
    lemma_shift(poly_add(p, q), t);
    lemma_poly_add(shift(p, t), shift(q, t));
    lemma_int_reduced(0);
    lemma_rat_add_zero(rat_zero());
    let l = shift(poly_add(p, q), t);
    let r = poly_add(shift(p, t), shift(q, t));
    assert forall|m: Monomial| #[trigger] poly_get(l, m) == poly_get(r, m) by {
        if mono_wf(m) {
            let x = mono_mul(m, mono_inv(t.base));
            lemma_rat_distributive(poly_get(p, x), poly_get(q, x), t.fac);
            assert(poly_get(poly_add(p, q), x) == rat_add(poly_get(p, x), poly_get(q, x)));
        }
    }
    assert forall|m: Monomial| #[trigger] l.dom().contains(m) == r.dom().contains(m) && (l.dom().contains(m)
        ==> l[m] == r[m]) by {
        assert(poly_get(l, m) == poly_get(r, m));
    }
    assert(l =~= r);
}

/// Zero times a term is zero.
pub proof fn lemma_shift_zero(t: Term)
    requires
        term_wf(t),
    ensures
        shift(poly_zero(), t) == poly_zero(),
{
    lemma_rat_mul_one(t.fac);
    assert(shift(poly_zero(), t) =~= poly_zero());
}

/// Multiplication by a term distributes over sums.
pub proof fn lemma_shift_sum(f: spec_fn(int) -> PolyMap, n: nat, t: Term)
    requires
        all_wf(f, n),
        term_wf(t),
    ensures
        shift(sum_to(f, n), t) == sum_to(|k: int| shift(f(k), t), n),
    decreases n,
{
    if n == 0 {
        lemma_shift_zero(t);
    } else {
        let m = (n - 1) as nat;
        lemma_shift_sum(f, m, t);
        lemma_sum_wf(f, m);
        assert(poly_wf(f(n - 1)));
        lemma_shift_add(sum_to(f, m), f(n - 1), t);
    }
}

/// Multiplication by a term distributes over double sums.
pub proof fn lemma_shift_sum2(f: spec_fn(int, int) -> PolyMap, n: nat, m: nat, t: Term)
    requires
        all_wf2(f, n, m),
        term_wf(t),
    ensures
        shift(sum2(f, n, m), t) == sum2(|i: int, j: int| shift(f(i, j), t), n, m),
{
    let rows = |i: int| sum_to(|j: int| f(i, j), m);
    let g = |i: int, j: int| shift(f(i, j), t);
    lemma_sum2_wf(f, n, m);
    lemma_shift_sum(rows, n, t);
    let shifted_rows = |i: int| shift(rows(i), t);
    let rows_g = |i: int| sum_to(|j: int| g(i, j), m);
    assert forall|i: int| 0 <= i < n implies #[trigger] shifted_rows(i) == rows_g(i) by {
        let row = |j: int| f(i, j);
        assert forall|j: int| 0 <= j < m implies poly_wf(#[trigger] row(j)) by {
            assert(poly_wf(f(i, j)));
        }
        lemma_shift_sum(row, m, t);
        let left = |j: int| shift(row(j), t);
        let right = |j: int| g(i, j);
        assert forall|j: int| 0 <= j < m implies #[trigger] left(j) == right(j) by {}
        lemma_sum_ext(left, right, m);
    }
    lemma_sum_ext(shifted_rows, rows_g, n);
}

/// A canonical polynomial is the sum of its terms.
pub proof fn lemma_terms_sum(ts: Seq<Term>, k: int)
    requires
        terms_wf(ts),
        0 <= k <= ts.len(),
    ensures
        to_map(ts.take(k)) == sum_to(|i: int| term_poly(ts[i]), k as nat),
    decreases k,
{
    if k == 0 {
        assert(ts.take(0) =~= Seq::<Term>::empty());
        assert(to_map(ts.take(0)) =~= poly_zero());
    } else {
        lemma_terms_sum(ts, k - 1);
        lemma_take_push(ts, k - 1);
    }
}

/// The product of a canonical polynomial with a list of terms is the sum
/// of the polynomial times each term.
pub proof fn lemma_mul_exact_shift(ts: Seq<Term>, c: Seq<Term>)
    requires
        terms_wf(ts),
        all_terms_wf(c),
    ensures
        mul_exact(ts, c) == sum_to(|l: int| shift(to_map(ts), c[l]), c.len()),
{
    let n = ts.len();
    let r = c.len();
    let t = |i: int, l: int| term_poly(term_mul(ts[i], c[l]));
    lemma_mul_exact2(ts, c);
    lemma_sum_swap(t, n, r);
    lemma_terms_sum(ts, n as int);
    assert(ts.take(n as int) =~= ts);
    let terms = |i: int| term_poly(ts[i]);
    assert forall|i: int| 0 <= i < n implies poly_wf(#[trigger] terms(i)) by {
        assert(term_wf(ts[i]));
        lemma_poly_term(ts[i].base, ts[i].fac);
    }
    let cols = |l: int| sum_to(|i: int| t(i, l), n);
    let shifted = |l: int| shift(to_map(ts), c[l]);
    assert forall|l: int| 0 <= l < r implies #[trigger] cols(l) == shifted(l) by {
        assert(term_wf(c[l]));
        lemma_shift_sum(terms, n, c[l]);
        let left = |i: int| t(i, l);
        let right = |i: int| shift(terms(i), c[l]);
        assert forall|i: int| 0 <= i < n implies #[trigger] left(i) == right(i) by {
            assert(term_wf(ts[i]));
            lemma_shift_term(ts[i], c[l]);
        }
        lemma_sum_ext(left, right, n);
    }
    lemma_sum_ext(cols, shifted, r);
}

/// A sum of double sums is the double sum of the sums.
pub proof fn lemma_sum_rotate(x: spec_fn(int, int, int) -> PolyMap, n: nat, m: nat, r: nat)
    requires
        forall|i: int, j: int, l: int| 0 <= i < n && 0 <= j < m && 0 <= l < r ==> poly_wf(#[trigger] x(i, j, l)),
    ensures
        sum_to(|l: int| sum2(|i: int, j: int| x(i, j, l), n, m), r) == sum2(
            |i: int, j: int| sum_to(|l: int| x(i, j, l), r),
            n,
            m,
        ),
    decreases r,
{
    let outer = |l: int| sum2(|i: int, j: int| x(i, j, l), n, m);
    let inner = |i: int, j: int| sum_to(|l: int| x(i, j, l), r);
    if r == 0 {
        assert forall|i: int, j: int| 0 <= i < n && 0 <= j < m implies #[trigger] inner(i, j) == poly_zero() by {}
        let zero = |i: int, j: int| poly_zero();
        lemma_sum2_ext(inner, zero, n, m);
        let zero_rows = |i: int| sum_to(|j: int| zero(i, j), m);
        assert forall|i: int| 0 <= i < n implies #[trigger] zero_rows(i) == poly_zero() by {
            let row = |j: int| zero(i, j);
            assert forall|j: int| 0 <= j < m implies #[trigger] row(j) == poly_zero() by {}
            lemma_sum_zero(row, m);
        }
        lemma_sum_zero(zero_rows, n);
    } else {
        let k = (r - 1) as nat;
        lemma_sum_rotate(x, n, m, k);
        let before = |i: int, j: int| sum_to(|l: int| x(i, j, l), k);
        let last = |i: int, j: int| x(i, j, r - 1);
        let outer_before = |l: int| sum2(|i: int, j: int| x(i, j, l), n, m);
        assert(sum_to(outer, k) == sum2(before, n, m));
        assert(outer(r - 1) == sum2(last, n, m)) by {
            lemma_sum2_ext(|i: int, j: int| x(i, j, r - 1), last, n, m);
        }
        assert forall|i: int, j: int| 0 <= i < n && 0 <= j < m implies poly_wf(#[trigger] before(i, j)) by {
            let f = |l: int| x(i, j, l);
            assert forall|l: int| 0 <= l < k implies poly_wf(#[trigger] f(l)) by {
                assert(poly_wf(x(i, j, l)));
            }
            lemma_sum_wf(f, k);
        }
        assert forall|i: int, j: int| 0 <= i < n && 0 <= j < m implies poly_wf(#[trigger] last(i, j)) by {
            assert(poly_wf(x(i, j, r - 1)));
        }
        lemma_sum2_add(before, last, n, m);
        let both = |i: int, j: int| poly_add(before(i, j), last(i, j));
        assert forall|i: int, j: int| 0 <= i < n && 0 <= j < m implies #[trigger] both(i, j) == inner(i, j) by {}
        lemma_sum2_ext(both, inner, n, m);
    }
}

/// The product of three terms does not depend on how they are grouped
/// and ordered.
pub proof fn lemma_term_mul_rotate(a: Term, b: Term, c: Term)
    requires
        term_wf(a),
        term_wf(b),
        term_wf(c),
    ensures
        term_mul(term_mul(a, b), c) == term_mul(term_mul(b, c), a),
        term_wf(term_mul(a, b)),
{
    lemma_mono_mul(a.base, b.base, 0);
    lemma_mono_mul(b.base, c.base, 0);
    lemma_rat_closed(a.fac, b.fac);
    lemma_rat_closed(b.fac, c.fac);
    lemma_rat_mul_nonzero(a.fac, b.fac);
    // (a b) c == a (b c) == (b c) a
    lemma_mono_mul_associative(a.base, b.base, c.base);
    lemma_mono_mul_commutative(a.base, mono_mul(b.base, c.base));
    lemma_rat_mul_associative(a.fac, b.fac, c.fac);
    lemma_rat_mul_commutative(a.fac, rat_mul(b.fac, c.fac));
}

/// The product of a canonical polynomial that is the product of `p` and
/// `q` with `c` is the triple sum of the products of the terms.
pub proof fn lemma_mul_exact3(p: Seq<Term>, q: Seq<Term>, c: Seq<Term>, ts: Seq<Term>)
    requires
        all_terms_wf(p),
        all_terms_wf(q),
        all_terms_wf(c),
        terms_wf(ts),
        to_map(ts) == mul_exact(p, q),
    ensures
        mul_exact(ts, c) == sum_to(
            |l: int| sum2(|i: int, j: int| term_poly(term_mul(term_mul(p[i], q[j]), c[l])), p.len(), q.len()),
            c.len(),
        ),
{
    let n = p.len();
    let m = q.len();
    let r = c.len();
    let t = |i: int, j: int| term_poly(term_mul(p[i], q[j]));
    lemma_mul_exact_shift(ts, c);
    lemma_mul_exact2(p, q);
    let shifted = |l: int| shift(to_map(ts), c[l]);
    let triple = |l: int| sum2(|i: int, j: int| term_poly(term_mul(term_mul(p[i], q[j]), c[l])), n, m);
    assert forall|l: int| 0 <= l < r implies #[trigger] shifted(l) == triple(l) by {
        assert(term_wf(c[l]));
        lemma_shift_sum2(t, n, m, c[l]);
        let left = |i: int, j: int| shift(t(i, j), c[l]);
        let right = |i: int, j: int| term_poly(term_mul(term_mul(p[i], q[j]), c[l]));
        assert forall|i: int, j: int| 0 <= i < n && 0 <= j < m implies #[trigger] left(i, j) == right(i, j) by {
            assert(term_wf(p[i]) && term_wf(q[j]));
            lemma_term_mul_rotate(p[i], q[j], c[l]);
            lemma_shift_term(term_mul(p[i], q[j]), c[l]);
        }
        lemma_sum2_ext(left, right, n, m);
    }
    lemma_sum_ext(shifted, triple, r);
}

/// Multiplication of polynomials is associative.
pub proof fn lemma_poly_mul_associative(a: PolyMap, b: PolyMap, c: PolyMap)
    requires
        poly_canonical(a),
        poly_canonical(b),
        poly_canonical(c),
    ensures
        poly_times(poly_times(a, b), c) == poly_times(a, poly_times(b, c)),
{
    lemma_mul_exact_canonical(canon(a), canon(b));
    lemma_mul_exact_canonical(canon(b), canon(c));
    let (ta, tb, tc) = (canon(a), canon(b), canon(c));
    let (n, m, r) = (ta.len(), tb.len(), tc.len());
    let ab = canon(poly_times(a, b));
    let bc = canon(poly_times(b, c));
    // (a b) c, summed over the terms of c, then of a, then of b
    lemma_mul_exact3(ta, tb, tc, ab);
    let x = |i: int, j: int, l: int| term_poly(term_mul(term_mul(ta[i], tb[j]), tc[l]));
    assert forall|i: int, j: int, l: int| 0 <= i < n && 0 <= j < m && 0 <= l < r implies poly_wf(
        #[trigger] x(i, j, l),
    ) by {
        assert(term_wf(ta[i]) && term_wf(tb[j]) && term_wf(tc[l]));
        lemma_term_mul_rotate(ta[i], tb[j], tc[l]);
        lemma_term_mul_wf(term_mul(ta[i], tb[j]), tc[l]);
    }
    let left = |l: int| sum2(|i: int, j: int| term_poly(term_mul(term_mul(ta[i], tb[j]), tc[l])), n, m);
    let left_x = |l: int| sum2(|i: int, j: int| x(i, j, l), n, m);
    assert forall|l: int| 0 <= l < r implies #[trigger] left(l) == left_x(l) by {
        lemma_sum2_ext(
            |i: int, j: int| term_poly(term_mul(term_mul(ta[i], tb[j]), tc[l])),
            |i: int, j: int| x(i, j, l),
            n,
            m,
        );
    }
    lemma_sum_ext(left, left_x, r);
    lemma_sum_rotate(x, n, m, r);
    // a (b c) == (b c) a, summed over the terms of a, then of b, then of c
    lemma_mul_exact_commutative(ta, bc);
    lemma_mul_exact3(tb, tc, ta, bc);
    let right = |i: int| sum2(|j: int, l: int| term_poly(term_mul(term_mul(tb[j], tc[l]), ta[i])), m, r);
    let right_x = |i: int| sum_to(|j: int| sum_to(|l: int| x(i, j, l), r), m);
    assert forall|i: int| 0 <= i < n implies #[trigger] right(i) == right_x(i) by {
        let y = |j: int, l: int| term_poly(term_mul(term_mul(tb[j], tc[l]), ta[i]));
        let z = |j: int, l: int| x(i, j, l);
        assert forall|j: int, l: int| 0 <= j < m && 0 <= l < r implies #[trigger] y(j, l) == z(j, l) by {
            assert(term_wf(ta[i]) && term_wf(tb[j]) && term_wf(tc[l]));
            lemma_term_mul_rotate(ta[i], tb[j], tc[l]);
        }
        lemma_sum2_ext(y, z, m, r);
        let rows_z = |j: int| sum_to(|l: int| z(j, l), r);
        let rows_x = |j: int| sum_to(|l: int| x(i, j, l), r);
        assert forall|j: int| 0 <= j < m implies #[trigger] rows_z(j) == rows_x(j) by {
            lemma_sum_ext(|l: int| z(j, l), |l: int| x(i, j, l), r);
        }
        lemma_sum_ext(rows_z, rows_x, m);
    }
    lemma_sum_ext(right, right_x, n);
    // the rotated left side, row by row
    let inner = |i: int, j: int| sum_to(|l: int| x(i, j, l), r);
    let rows_inner = |i: int| sum_to(|j: int| inner(i, j), m);
    assert forall|i: int| 0 <= i < n implies #[trigger] rows_inner(i) == right_x(i) by {
        lemma_sum_ext(|j: int| inner(i, j), |j: int| sum_to(|l: int| x(i, j, l), r), m);
    }
    lemma_sum_ext(rows_inner, right_x, n);
}

/// Products computed in either grouping are the same polynomial, where
/// all four products can be stored.
pub proof fn lemma_poly_mul_regroup(a: PolyMap, b: PolyMap, c: PolyMap)
    requires
        poly_canonical(a),
        poly_canonical(b),
        poly_canonical(c),
        poly_mul(a, b) matches Some(ab) && poly_mul(ab, c) is Some,
        poly_mul(b, c) matches Some(bc) && poly_mul(a, bc) is Some,
    ensures
        poly_mul(poly_mul(a, b)->Some_0, c) == poly_mul(a, poly_mul(b, c)->Some_0),
{
    let ab = poly_mul(a, b)->Some_0;
    let bc = poly_mul(b, c)->Some_0;
    lemma_poly_mul_exact(a, b);
    lemma_poly_mul_exact(b, c);
    lemma_poly_mul_exact(ab, c);
    lemma_poly_mul_exact(a, bc);
    lemma_poly_mul_associative(a, b, c);
}

/// The canonical term list with the term `t` added to the terms `ts`.
pub open spec fn insert_term(ts: Seq<Term>, t: Term) -> Seq<Term>
    decreases ts.len(),
{
    if t.fac.num == 0 {
        ts
    } else if ts.len() == 0 {
        seq![t]
    } else if mono_lt(ts.last().base, t.base) {
        ts.push(t)
    } else if ts.last().base == t.base {
        let sum = rat_add(ts.last().fac, t.fac);
        if sum.num == 0 {
            ts.drop_last()
        } else {
            ts.drop_last().push(Term { base: t.base, fac: sum })
        }
    } else {
        insert_term(ts.drop_last(), t).push(ts.last())
    }
}

/// Adding a term to a canonical term list gives a canonical term list
/// that differs from it in the coefficient of the term's monomial only.
pub proof fn lemma_insert_term(ts: Seq<Term>, t: Term)
    requires
        terms_wf(ts),
        mono_wf(t.base),
        is_reduced(t.fac),
    ensures
        terms_wf(insert_term(ts, t)),
        keeps_except(ts, insert_term(ts, t), t.base),
        keeps_except(insert_term(ts, t), ts, t.base),
        coeff(insert_term(ts, t), t.base) == rat_add(coeff(ts, t.base), t.fac),
        to_map(insert_term(ts, t)) == poly_add(to_map(ts), poly_term(t.base, t.fac)),
    decreases ts.len(),
{
    let r = insert_term(ts, t);
    let m0 = t.base;
    lemma_to_map(ts);
    lemma_rat_add_zero(coeff(ts, m0));
    lemma_rat_add_zero(t.fac);
    lemma_mono_lt_irreflexive(m0);
    if t.fac.num == 0 {
        lemma_zero_unique(t.fac);
        assert forall|i: int| 0 <= i < ts.len() implies ts.contains(#[trigger] ts[i]) by {}
    } else if ts.len() == 0 {
        assert(term_wf(r[0]));
        lemma_coeff_at(r, 0);
        assert(!has_term(ts, m0));
    } else {
        let n = ts.len() - 1;
        let last = ts.last();
        let front = ts.drop_last();
        assert(term_wf(ts[n]));
        assert forall|i: int| 0 <= i < front.len() implies #[trigger] front[i] == ts[i] by {}
        if mono_lt(last.base, m0) {
            assert forall|i: int| 0 <= i < ts.len() implies mono_lt((#[trigger] ts[i]).base, m0) by {
                if i < n {
                    assert(mono_lt(ts[i].base, ts[n].base));
                    lemma_mono_lt_transitive(ts[i].base, last.base, m0);
                }
            }
            assert(!has_term(ts, m0));
            assert forall|i: int, j: int| 0 <= i < j < r.len() implies mono_lt(
                (#[trigger] r[i]).base,
                (#[trigger] r[j]).base,
            ) by {
                assert(r[i] == ts[i]);
                if j < ts.len() {
                    assert(r[j] == ts[j]);
                }
            }
            assert forall|i: int| 0 <= i < r.len() implies term_wf(#[trigger] r[i]) by {
                if i < ts.len() {
                    assert(r[i] == ts[i]);
                }
            }
            lemma_coeff_at(r, ts.len() as int);
            assert forall|i: int| 0 <= i < ts.len() implies r.contains(#[trigger] ts[i]) by {
                assert(r[i] == ts[i]);
            }
            assert forall|i: int| 0 <= i < r.len() && (#[trigger] r[i]).base != m0 implies ts.contains(r[i]) by {
                assert(ts[i] == r[i]);
            }
        } else if last.base == m0 {
            let sum = rat_add(last.fac, t.fac);
            lemma_rat_closed(last.fac, t.fac);
            lemma_coeff_at(ts, n);
            assert forall|i: int, j: int| 0 <= i < j < front.len() implies mono_lt(
                (#[trigger] front[i]).base,
                (#[trigger] front[j]).base,
            ) by {
                assert(mono_lt(ts[i].base, ts[j].base));
            }
            assert forall|i: int| 0 <= i < front.len() implies term_wf(#[trigger] front[i]) && front[i].base
                != m0 by {
                assert(term_wf(ts[i]));
                assert(mono_lt(ts[i].base, ts[n].base));
            }
            if sum.num == 0 {
                lemma_zero_unique(sum);
                assert(!has_term(front, m0));
                assert forall|i: int| 0 <= i < ts.len() && (#[trigger] ts[i]).base != m0 implies r.contains(
                    ts[i],
                ) by {
                    assert(r[i] == ts[i]);
                }
                assert forall|i: int| 0 <= i < r.len() implies ts.contains(#[trigger] r[i]) by {
                    assert(ts[i] == r[i]);
                }
            } else {
                assert forall|i: int, j: int| 0 <= i < j < r.len() implies mono_lt(
                    (#[trigger] r[i]).base,
                    (#[trigger] r[j]).base,
                ) by {
                    assert(r[i].base == ts[i].base && r[j].base == ts[j].base);
                    assert(mono_lt(ts[i].base, ts[j].base));
                }
                assert forall|i: int| 0 <= i < r.len() implies term_wf(#[trigger] r[i]) by {
                    if i < n {
                        assert(r[i] == front[i]);
                    }
                }
                lemma_coeff_at(r, n);
                assert forall|i: int| 0 <= i < ts.len() && (#[trigger] ts[i]).base != m0 implies r.contains(
                    ts[i],
                ) by {
                    assert(r[i] == ts[i]);
                }
                assert forall|i: int| 0 <= i < r.len() && (#[trigger] r[i]).base != m0 implies ts.contains(
                    r[i],
                ) by {
                    assert(ts[i] == r[i]);
                }
            }
        } else {
            lemma_mono_lt_total(last.base, m0);
            assert(mono_lt(m0, last.base));
            assert forall|i: int, j: int| 0 <= i < j < front.len() implies mono_lt(
                (#[trigger] front[i]).base,
                (#[trigger] front[j]).base,
            ) by {
                assert(mono_lt(ts[i].base, ts[j].base));
            }
            assert forall|i: int| 0 <= i < front.len() implies term_wf(#[trigger] front[i]) by {
                assert(term_wf(ts[i]));
            }
            lemma_insert_term(front, t);
            let inner = insert_term(front, t);
            assert forall|i: int| 0 <= i < inner.len() implies mono_lt((#[trigger] inner[i]).base, last.base) by {
                if inner[i].base != m0 {
                    assert(front.contains(inner[i]));
                    let j = choose|j: int| 0 <= j < front.len() && front[j] == inner[i];
                    assert(mono_lt(ts[j].base, ts[n].base));
                }
            }
            assert forall|i: int, j: int| 0 <= i < j < r.len() implies mono_lt(
                (#[trigger] r[i]).base,
                (#[trigger] r[j]).base,
            ) by {
                assert(r[i] == inner[i]);
                if j < inner.len() {
                    assert(r[j] == inner[j]);
                }
            }
            assert forall|i: int| 0 <= i < r.len() implies term_wf(#[trigger] r[i]) by {
                if i < inner.len() {
                    assert(r[i] == inner[i]);
                }
            }
            // the last term is no part of the change
            assert forall|i: int| 0 <= i < inner.len() implies r.contains(#[trigger] inner[i]) by {
                assert(r[i] == inner[i]);
            }
            assert forall|i: int| 0 <= i < r.len() && (#[trigger] r[i]).base != last.base implies inner.contains(
                r[i],
            ) by {
                assert(inner[i] == r[i]);
            }
            lemma_coeff_local(inner, r, last.base, m0);
            assert forall|i: int| 0 <= i < front.len() implies ts.contains(#[trigger] front[i]) by {
                assert(ts[i] == front[i]);
            }
            assert forall|i: int| 0 <= i < ts.len() && (#[trigger] ts[i]).base != last.base implies front.contains(
                ts[i],
            ) by {
                assert(front[i] == ts[i]);
            }
            lemma_coeff_local(front, ts, last.base, m0);
            assert forall|i: int| 0 <= i < ts.len() && (#[trigger] ts[i]).base != m0 implies r.contains(ts[i]) by {
                if i < n {
                    assert(front[i] == ts[i]);
                    assert(inner.contains(front[i]));
                    let j = choose|j: int| 0 <= j < inner.len() && inner[j] == front[i];
                    assert(r[j] == ts[i]);
                } else {
                    assert(r[r.len() - 1] == ts[i]);
                }
            }
            assert forall|i: int| 0 <= i < r.len() && (#[trigger] r[i]).base != m0 implies ts.contains(r[i]) by {
                if i < inner.len() {
                    assert(inner[i] == r[i]);
                    assert(front.contains(inner[i]));
                    let j = choose|j: int| 0 <= j < front.len() && front[j] == inner[i];
                    assert(ts[j] == r[i]);
                } else {
                    assert(ts[n] == r[i]);
                }
            }
        }
    }
    lemma_add_term(ts, r, m0, t.fac);
}

/// A canonical polynomial plus a term is a canonical polynomial.
pub proof fn lemma_add_term_canonical(p: PolyMap, t: Term)
    requires
        poly_canonical(p),
        mono_wf(t.base),
        is_reduced(t.fac),
    ensures
        poly_canonical(poly_add(p, term_poly(t))),
{
    lemma_insert_term(canon(p), t);
    let ts = insert_term(canon(p), t);
    assert(terms_wf(ts) && to_map(ts) == poly_add(p, term_poly(t)));
}

/// The polynomial without terms is canonical.
pub proof fn lemma_zero_canonical()
    ensures
        poly_canonical(poly_zero()),
{
    let ts = Seq::<Term>::empty();
    assert(to_map(ts) =~= poly_zero());
    assert(terms_wf(ts));
}

/// A row of an exact product is canonical.
pub proof fn lemma_row_exact_canonical(acc: PolyMap, s: Term, b: Seq<Term>)
    requires
        poly_canonical(acc),
        term_wf(s),
        all_terms_wf(b),
    ensures
        poly_canonical(row_exact(acc, s, b)),
    decreases b.len(),
{
    if b.len() > 0 {
        let front = b.drop_last();
        assert(all_terms_wf(front)) by {
            assert forall|i: int| 0 <= i < front.len() implies term_wf(#[trigger] front[i]) by {
                assert(front[i] == b[i]);
            }
        }
        lemma_row_exact_canonical(acc, s, front);
        assert(term_wf(b.last()));
        lemma_mono_mul(s.base, b.last().base, 0);
        lemma_rat_closed(s.fac, b.last().fac);
        lemma_add_term_canonical(row_exact(acc, s, front), term_mul(s, b.last()));
    }
}

/// An exact product of well-formed terms is canonical.
pub proof fn lemma_mul_exact_canonical(a: Seq<Term>, b: Seq<Term>)
    requires
        all_terms_wf(a),
        all_terms_wf(b),
    ensures
        poly_canonical(mul_exact(a, b)),
    decreases a.len(),
{
    if a.len() == 0 {
        lemma_zero_canonical();
    } else {
        let front = a.drop_last();
        assert(all_terms_wf(front)) by {
            assert forall|i: int| 0 <= i < front.len() implies term_wf(#[trigger] front[i]) by {
                assert(front[i] == a[i]);
            }
        }
        lemma_mul_exact_canonical(front, b);
        assert(term_wf(a.last()));
        lemma_row_exact_canonical(mul_exact(front, b), a.last(), b);
    }
}

/// The exact product of canonical polynomials is canonical, and so is a
/// product that the library computes.
pub proof fn lemma_poly_times_canonical(a: PolyMap, b: PolyMap)
    requires
        poly_canonical(a),
        poly_canonical(b),
    ensures
        poly_canonical(poly_times(a, b)),
        poly_mul(a, b) matches Some(p) ==> poly_canonical(p),
{
    lemma_mul_exact_canonical(canon(a), canon(b));
    lemma_poly_mul_exact(a, b);
}

/// A canonical term list times 1, term by term, exactly.
proof fn lemma_exact_times_one(a: Seq<Term>, k: int)
    requires
        terms_wf(a),
        0 <= k <= a.len(),
    ensures
        mul_exact(a.take(k), seq![unit_term()]) == to_map(a.take(k)),
    decreases k,
{
    let u = unit_term();
    let b = seq![u];
    if k == 0 {
        assert(a.take(0) =~= Seq::<Term>::empty());
        assert(to_map(a.take(0)) =~= poly_zero());
    } else {
        lemma_exact_times_one(a, k - 1);
        lemma_take_push(a, k - 1);
        let s = a[k - 1];
        assert(term_wf(s));
        assert(a.take(k).drop_last() =~= a.take(k - 1));
        assert(a.take(k).last() == s);
        assert(b.drop_last() =~= Seq::<Term>::empty());
        assert(b.last() == u);
        lemma_rat_mul_one(s.fac);
        assert(mono_mul(s.base, u.base) =~= s.base);
        assert(term_mul(s, u) == s);
        let acc = mul_exact(a.take(k - 1), b);
        assert(row_exact(acc, s, b.drop_last()) == acc);
        assert(row_exact(acc, s, b) == poly_add(acc, term_poly(s)));
    }
}

/// The polynomial 1 is the identity of the exact product.
pub proof fn lemma_poly_times_one(a: PolyMap)
    requires
        poly_canonical(a),
    ensures
        poly_times(a, poly_one()) == a,
        poly_times(poly_one(), a) == a,
        poly_canonical(poly_one()),
{
    let ts = canon(a);
    lemma_int_reduced(1);
    lemma_canon_constant(rat_one());
    lemma_exact_times_one(ts, ts.len() as int);
    assert(ts.take(ts.len() as int) =~= ts);
    let one = seq![unit_term()];
    assert(term_wf(one[0]));
    assert(to_map(one) == poly_one()) by {
        lemma_canon(one);
    }
    lemma_mul_exact_commutative(ts, one);
}

/// The power `n` of a polynomial: the product of `n` factors `x`.
pub open spec fn poly_power(x: PolyMap, n: nat) -> PolyMap
    decreases n,
{
    if n == 0 {
        poly_one()
    } else {
        poly_times(x, poly_power(x, (n - 1) as nat))
    }
}

/// A power of a canonical polynomial is canonical.
pub proof fn lemma_power_canonical(x: PolyMap, n: nat)
    requires
        poly_canonical(x),
    ensures
        poly_canonical(poly_power(x, n)),
    decreases n,
{
    if n == 0 {
        lemma_poly_times_one(x);
    } else {
        lemma_power_canonical(x, (n - 1) as nat);
        lemma_poly_times_canonical(x, poly_power(x, (n - 1) as nat));
    }
}

/// The power `m` of the square is the power `2 m`.
pub proof fn lemma_power_square(x: PolyMap, m: nat)
    requires
        poly_canonical(x),
    ensures
        poly_power(poly_times(x, x), m) == poly_power(x, 2 * m),
    decreases m,
{
    if m > 0 {
        let rest = poly_power(x, (2 * m - 2) as nat);
        lemma_power_square(x, (m - 1) as nat);
        lemma_power_canonical(x, (2 * m - 2) as nat);
        assert(poly_power(x, (2 * m - 1) as nat) == poly_times(x, rest));
        assert(poly_power(x, 2 * m) == poly_times(x, poly_power(x, (2 * m - 1) as nat)));
        lemma_poly_mul_associative(x, x, rest);
        assert(poly_power(poly_times(x, x), (m - 1) as nat) == rest) by {
            assert(2 * ((m - 1) as nat) == 2 * m - 2);
        }
    }
}

/// Raising to a power by squaring gives the product with the power, where
/// it gives a result.
pub proof fn lemma_pow_loop_exact(p: PolyMap, y: PolyMap, k: nat)
    requires
        poly_canonical(p),
        poly_canonical(y),
    ensures
        pow_loop(p, y, k) matches Some(r) ==> r == poly_times(p, poly_power(y, k)) && poly_canonical(r),
    decreases k,
{
    lemma_poly_times_one(p);
    lemma_poly_times_one(y);
    lemma_poly_mul_exact(p, y);
    lemma_poly_mul_exact(y, y);
    lemma_poly_times_canonical(p, y);
    lemma_poly_times_canonical(y, y);
    if k == 0 {
    } else if k == 1 {
        assert(poly_power(y, 1) == poly_times(y, poly_power(y, 0)));
    } else if pow_loop(p, y, k) is Some {
        let h = k / 2;
        let q = if k % 2 == 1 {
            poly_times(p, y)
        } else {
            p
        };
        let square = poly_times(y, y);
        assert(pow_loop(p, y, k) == pow_loop(q, square, h));
        lemma_pow_loop_exact(q, square, h);
        lemma_power_square(y, h);
        lemma_power_canonical(y, 2 * h);
        if k % 2 == 1 {
            assert(k == 2 * h + 1);
            assert(poly_power(y, k) == poly_times(y, poly_power(y, 2 * h)));
            lemma_poly_mul_associative(p, y, poly_power(y, 2 * h));
        } else {
            assert(k == 2 * h);
        }
    }
}

/// The power that the library computes by squaring is the product of `n`
/// factors.
pub proof fn lemma_poly_pow_n_exact(x: PolyMap, n: nat)
    requires
        poly_canonical(x),
    ensures
        poly_pow_n(x, n) matches Some(r) ==> r == poly_power(x, n),
{
    lemma_poly_times_one(x);
    lemma_pow_loop_exact(poly_one(), x, n);
    lemma_power_canonical(x, n);
    lemma_poly_times_one(poly_power(x, n));
}

/// The power `n + 1` is the polynomial times its power `n`, where all
/// three can be stored.
pub proof fn lemma_poly_pow_n_step(x: PolyMap, n: nat)
    requires
        poly_canonical(x),
        poly_pow_n(x, n) is Some,
        poly_pow_n(x, n + 1) is Some,
        poly_mul(x, poly_pow_n(x, n)->Some_0) is Some,
    ensures
        poly_pow_n(x, n + 1) == poly_mul(x, poly_pow_n(x, n)->Some_0),
{
    lemma_poly_pow_n_exact(x, n);
    lemma_poly_pow_n_exact(x, n + 1);
    lemma_poly_mul_exact(x, poly_pow_n(x, n)->Some_0);
}

/// The term list of a polynomial of one term has that term.
pub proof fn lemma_canon_term(m: Monomial, c: Fraction)
    requires
        mono_wf(m),
        is_reduced(c),
        c.num != 0,
    ensures
        canon(poly_term(m, c)) == seq![Term { base: m, fac: c }],
        poly_canonical(poly_term(m, c)),
{
    let t = Term { base: m, fac: c };
    let ts = seq![t];
    assert(term_wf(ts[0]));
    assert(terms_wf(ts));
    lemma_coeff_at(ts, 0);
    assert forall|k: Monomial| has_term(ts, k) <==> k == m by {
        if k == m {
            assert(ts[0].base == k);
        }
    }
    assert(to_map(ts) =~= poly_term(m, c));
    lemma_canon(ts);
}

/// The polynomial 1 can be stored.
pub proof fn lemma_one_stored()
    ensures
        poly_stored(poly_one()),
        poly_wf(poly_one()),
{
    lemma_int_reduced(1);
    let empty = Seq::<(crate::node::NodeRc, int)>::empty();
    lemma_canon_term(empty, rat_one());
    assert forall|m: Monomial| #[trigger] poly_one().dom().contains(m) implies mono_fits(m) && fits(
        poly_one()[m],
    ) by {
        assert(m == empty);
    }
    lemma_poly_term(empty, rat_one());
}

} // verus!
