//! Polynomials over the rationals in canonical form: a finite mapping from
//! monomial to nonzero coefficient, stored as a list of terms sorted by
//! monomial.

use vstd::prelude::*;
use crate::monomial::{
    base_copy, base_mul, base_order, base_view, lemma_mono_lt_irreflexive, lemma_mono_lt_transitive,
    lemma_mono_mul, lemma_mono_mul_below, mono_below, mono_fits, mono_lt, mono_mul, mono_wf, Base,
    Monomial, Rank,
};
use crate::rational::{
    fits, is_reduced, lemma_int_reduced, lemma_rat_add_associative, lemma_rat_add_commutative,
    lemma_rat_add_zero, lemma_rat_closed, lemma_rat_mul_nonzero, lemma_zero_unique, rat_add, rat_int,
    rat_mul, rat_one, rat_zero, Fraction, Rational,
};

verus! {

/// Why an operation on polynomials failed.
#[derive(Debug, Clone, Copy, PartialEq, Eq, Structural)]
pub enum PolyError {
    /// Zero was raised to a negative power.
    DivZero,
    /// A coefficient or an exponent of the result cannot be stored.
    Overflow,
}

/// One summand of a polynomial: a coefficient times a monomial.
pub struct Term {
    pub base: Monomial,
    pub fac: Fraction,
}

/// The mathematical value of a polynomial: its nonzero coefficients by
/// monomial.
pub type PolyMap = Map<Monomial, Fraction>;

/// The terms that a stored term list stands for.
pub open spec fn terms_of(v: Seq<(Base, Rational)>) -> Seq<Term> {
    Seq::new(v.len(), |i: int| Term { base: base_view(v[i].0@), fac: v[i].1@ })
}

/// The monomials strictly increase.
pub open spec fn terms_sorted(ts: Seq<Term>) -> bool {
    forall|i: int, j: int| 0 <= i < j < ts.len() ==> mono_lt((#[trigger] ts[i]).base, (#[trigger] ts[j]).base)
}

/// A term of a canonical polynomial: a well-formed monomial with a reduced
/// nonzero coefficient.
pub open spec fn term_wf(t: Term) -> bool {
    mono_wf(t.base) && is_reduced(t.fac) && t.fac.num != 0
}

/// Whether a term can be stored.
pub open spec fn term_fits(t: Term) -> bool {
    mono_fits(t.base) && fits(t.fac)
}

/// The canonical form of a term list.
pub open spec fn terms_wf(ts: Seq<Term>) -> bool {
    &&& terms_sorted(ts)
    &&& forall|i: int| 0 <= i < ts.len() ==> term_wf(#[trigger] ts[i])
}

/// Whether some term has the monomial `m`.
pub open spec fn has_term(ts: Seq<Term>, m: Monomial) -> bool {
    exists|i: int| 0 <= i < ts.len() && (#[trigger] ts[i]).base == m
}

/// The position of a term with the monomial `m`.
pub open spec fn index_of(ts: Seq<Term>, m: Monomial) -> int {
    choose|i: int| 0 <= i < ts.len() && (#[trigger] ts[i]).base == m
}

/// The coefficient of the monomial `m`; zero if no term has it.
pub open spec fn coeff(ts: Seq<Term>, m: Monomial) -> Fraction {
    if has_term(ts, m) {
        ts[index_of(ts, m)].fac
    } else {
        rat_zero()
    }
}

/// The mapping from monomial to coefficient that a term list stands for.
pub open spec fn to_map(ts: Seq<Term>) -> PolyMap {
    Map::new(|m: Monomial| has_term(ts, m), |m: Monomial| coeff(ts, m))
}

/// The coefficient of `m` in `p`; zero outside the domain.
pub open spec fn poly_get(p: PolyMap, m: Monomial) -> Fraction {
    if p.dom().contains(m) {
        p[m]
    } else {
        rat_zero()
    }
}

/// Every monomial is well formed and every coefficient reduced and nonzero.
pub open spec fn poly_wf(p: PolyMap) -> bool {
    forall|m: Monomial| #[trigger] p.dom().contains(m) ==> mono_wf(m) && is_reduced(p[m]) && p[m].num != 0
}

/// Whether every monomial and coefficient can be stored.
pub open spec fn poly_fits(p: PolyMap) -> bool {
    forall|m: Monomial| #[trigger] p.dom().contains(m) ==> mono_fits(m) && fits(p[m])
}

/// The polynomial without terms.
pub open spec fn poly_zero() -> PolyMap {
    Map::empty()
}

/// The polynomial `c * m`: one term, or none if `c` is zero.
pub open spec fn poly_term(m: Monomial, c: Fraction) -> PolyMap {
    if c.num == 0 {
        Map::empty()
    } else {
        Map::empty().insert(m, c)
    }
}

/// The constant polynomial `c`.
pub open spec fn poly_rational(c: Fraction) -> PolyMap {
    poly_term(Seq::empty(), c)
}

/// The sum: coefficients are added by monomial, and zero sums dropped.
pub open spec fn poly_add(a: PolyMap, b: PolyMap) -> PolyMap {
    Map::new(
        |m: Monomial| rat_add(poly_get(a, m), poly_get(b, m)).num != 0,
        |m: Monomial| rat_add(poly_get(a, m), poly_get(b, m)),
    )
}

/// Every coefficient multiplied by `k`.
pub open spec fn poly_scale(a: PolyMap, k: Fraction) -> PolyMap {
    Map::new(|m: Monomial| a.dom().contains(m) && k.num != 0, |m: Monomial| rat_mul(a[m], k))
}

/// The product of two terms.
pub open spec fn term_mul(s: Term, t: Term) -> Term {
    Term { base: mono_mul(s.base, t.base), fac: rat_mul(s.fac, t.fac) }
}

/// In a sorted term list every monomial occurs once.
pub proof fn lemma_coeff_at(ts: Seq<Term>, i: int)
    requires
        terms_sorted(ts),
        0 <= i < ts.len(),
    ensures
        has_term(ts, ts[i].base),
        index_of(ts, ts[i].base) == i,
        coeff(ts, ts[i].base) == ts[i].fac,
{
    let k = index_of(ts, ts[i].base);
    lemma_mono_lt_irreflexive(ts[i].base);
    if k < i {
        assert(mono_lt(ts[k].base, ts[i].base));
    } else if i < k {
        assert(mono_lt(ts[i].base, ts[k].base));
    }
}

/// The mapping of a canonical term list is well formed, and its
/// coefficients are those of the list.
pub proof fn lemma_to_map(ts: Seq<Term>)
    requires
        terms_wf(ts),
    ensures
        poly_wf(to_map(ts)),
        forall|m: Monomial| #[trigger] poly_get(to_map(ts), m) == coeff(ts, m),
        forall|m: Monomial| is_reduced(#[trigger] coeff(ts, m)),
        forall|m: Monomial| has_term(ts, m) <==> (#[trigger] coeff(ts, m)).num != 0,
{
    lemma_int_reduced(0);
    assert forall|m: Monomial| has_term(ts, m) implies mono_wf(m) && is_reduced(#[trigger] coeff(ts, m))
        && coeff(ts, m).num != 0 by {
        let i = index_of(ts, m);
        lemma_coeff_at(ts, i);
        assert(term_wf(ts[i]));
    }
}

/// `b` has every term of `a` whose monomial is not `m0`.
pub open spec fn keeps_except(a: Seq<Term>, b: Seq<Term>, m0: Monomial) -> bool {
    forall|i: int| 0 <= i < a.len() && (#[trigger] a[i]).base != m0 ==> b.contains(a[i])
}

/// Term lists that differ only at `m0` have the same coefficients elsewhere.
pub proof fn lemma_coeff_local(a: Seq<Term>, b: Seq<Term>, m0: Monomial, m: Monomial)
    requires
        terms_sorted(a),
        terms_sorted(b),
        keeps_except(a, b, m0),
        keeps_except(b, a, m0),
        m != m0,
    ensures
        has_term(a, m) == has_term(b, m),
        coeff(a, m) == coeff(b, m),
{
    if has_term(a, m) {
        let i = index_of(a, m);
        assert(b.contains(a[i]));
        let j = choose|j: int| 0 <= j < b.len() && b[j] == a[i];
        lemma_coeff_at(a, i);
        lemma_coeff_at(b, j);
    }
    if has_term(b, m) {
        let i = index_of(b, m);
        assert(a.contains(b[i]));
        let j = choose|j: int| 0 <= j < a.len() && a[j] == b[i];
        lemma_coeff_at(b, i);
        lemma_coeff_at(a, j);
    }
}

/// Changing the coefficient of one monomial by `c` adds the term `c * m0`.
pub proof fn lemma_add_term(a: Seq<Term>, b: Seq<Term>, m0: Monomial, c: Fraction)
    requires
        terms_wf(a),
        terms_wf(b),
        keeps_except(a, b, m0),
        keeps_except(b, a, m0),
        is_reduced(c),
        coeff(b, m0) == rat_add(coeff(a, m0), c),
    ensures
        to_map(b) == poly_add(to_map(a), poly_term(m0, c)),
{
    lemma_to_map(a);
    lemma_to_map(b);
    let sum = poly_add(to_map(a), poly_term(m0, c));
    assert forall|m: Monomial| #[trigger] to_map(b).dom().contains(m) == sum.dom().contains(m) && (to_map(
        b,
    ).dom().contains(m) ==> to_map(b)[m] == sum[m]) by {
        assert(poly_get(to_map(a), m) == coeff(a, m));
        assert(is_reduced(coeff(a, m)));
        assert(has_term(b, m) <==> coeff(b, m).num != 0);
        if m == m0 {
            if c.num == 0 {
                lemma_zero_unique(c);
            }
            assert(poly_get(poly_term(m0, c), m) == c);
        } else {
            lemma_coeff_local(a, b, m0, m);
            assert(poly_get(poly_term(m0, c), m) == rat_zero());
            lemma_rat_add_zero(coeff(a, m));
            assert(has_term(a, m) <==> coeff(a, m).num != 0);
        }
    }
    assert(to_map(b) =~= sum);
}

/// Adds `fac * base` to a canonical term list. Fails, leaving the list as
/// it was, if the new coefficient of `base` cannot be stored.
fn add_to(elements: &mut Vec<(Base, Rational)>, base: Base, fac: Rational) -> (r: Result<(), PolyError>)
    requires
        terms_wf(terms_of(old(elements)@)),
        mono_wf(base_view(base@)),
        fac.wf(),
    ensures
        r.is_ok() <==> fits(rat_add(coeff(terms_of(old(elements)@), base_view(base@)), fac@)),
        r matches Ok(_) ==> terms_wf(terms_of(final(elements)@)) && to_map(terms_of(final(elements)@))
            == poly_add(to_map(terms_of(old(elements)@)), poly_term(base_view(base@), fac@)),
        r matches Err(e) ==> e == PolyError::Overflow && final(elements)@ == old(elements)@,
{
    let ghost ts = terms_of(elements@);
    let ghost m0 = base_view(base@);
    let ghost c = fac@;
    proof {
        lemma_to_map(ts);
        lemma_rat_add_zero(coeff(ts, m0));
        lemma_rat_add_zero(c);
    }
    if fac.is_zero() {
        proof {
            lemma_zero_unique(c);
            if has_term(ts, m0) {
                lemma_coeff_at(ts, index_of(ts, m0));
            }
            assert(keeps_except(ts, ts, m0));
            lemma_add_term(ts, ts, m0, c);
        }
        return Ok(());
    }
    let n = elements.len();
    let mut i: usize = 0;
    let mut passed = false;
    while i < n && !passed
        invariant
            i <= n,
            n == elements.len(),
            elements@ == old(elements)@,
            ts == terms_of(elements@),
            m0 == base_view(base@),
            c == fac@,
            terms_wf(ts),
            fac.wf(),
            forall|k: int| 0 <= k < i ==> mono_lt((#[trigger] ts[k]).base, m0),
            passed ==> i < n && mono_lt(m0, ts[i as int].base),
        decreases n - i + (if passed { 0int } else { 1int }),
    {
        match base_order(&elements[i].0, &base) {
            Rank::Less => {
                i += 1;
            },
            Rank::Greater => {
                passed = true;
            },
            Rank::Equal => {
                proof {
                    lemma_coeff_at(ts, i as int);
                }
                match elements[i].1.add(fac) {
                    None => {
                        return Err(PolyError::Overflow);
                    },
                    Some(s) => {
                        let previous = elements.remove(i);
                        if !s.is_zero() {
                            elements.insert(i, (previous.0, s));
                        }
                        proof {
                            let ts2 = terms_of(elements@);
                            let p = i as int;
                            lemma_rat_closed(ts[p].fac, c);
                            if s@.num == 0 {
                                lemma_zero_unique(s@);
                                assert forall|k: int| 0 <= k < ts2.len() implies #[trigger] ts2[k] == ts[if k
                                    < p {
                                    k
                                } else {
                                    k + 1
                                }] by {}
                                assert forall|k: int| 0 <= k < ts.len() && k != p implies ts2.contains(
                                    #[trigger] ts[k],
                                ) by {
                                    let j = if k < p { k } else { k - 1 };
                                    assert(ts2[j] == ts[k]);
                                }
                                assert forall|k: int| 0 <= k < ts2.len() implies ts.contains(#[trigger] ts2[k]) by {
                                    let j = if k < p { k } else { k + 1 };
                                    assert(ts[j] == ts2[k]);
                                }
                                assert forall|k: int| 0 <= k < ts2.len() implies (#[trigger] ts2[k]).base
                                    != m0 by {
                                    let j = if k < p { k } else { k + 1 };
                                    lemma_coeff_at(ts, j);
                                }
                                assert(!has_term(ts2, m0));
                            } else {
                                assert forall|k: int| 0 <= k < ts2.len() implies #[trigger] ts2[k] == (if k
                                    == p {
                                    Term { base: m0, fac: s@ }
                                } else {
                                    ts[k]
                                }) by {}
                                assert forall|k: int| 0 <= k < ts.len() && k != p implies ts2.contains(
                                    #[trigger] ts[k],
                                ) by {
                                    assert(ts2[k] == ts[k]);
                                }
                                assert forall|k: int| 0 <= k < ts2.len() && k != p implies ts.contains(
                                    #[trigger] ts2[k],
                                ) by {
                                    assert(ts[k] == ts2[k]);
                                }
                                assert forall|k: int, l: int| 0 <= k < l < ts2.len() implies mono_lt(
                                    (#[trigger] ts2[k]).base,
                                    (#[trigger] ts2[l]).base,
                                ) by {
                                    assert(ts2[k].base == ts[k].base && ts2[l].base == ts[l].base);
                                }
                                lemma_coeff_at(ts2, p);
                            }
                            assert(terms_wf(ts2));
                            lemma_add_term(ts, ts2, m0, c);
                        }
                        return Ok(());
                    },
                }
            },
        }
    }
    elements.insert(i, (base, fac));
    proof {
        let ts2 = terms_of(elements@);
        let p = i as int;
        assert forall|k: int| 0 <= k < ts2.len() implies #[trigger] ts2[k] == (if k < p {
            ts[k]
        } else if k == p {
            Term { base: m0, fac: c }
        } else {
            ts[k - 1]
        }) by {}
        assert forall|k: int| p <= k < ts.len() implies mono_lt(m0, (#[trigger] ts[k]).base) by {
            if k > p {
                lemma_mono_lt_transitive(m0, ts[p].base, ts[k].base);
            }
        }
        lemma_mono_lt_irreflexive(m0);
        assert(!has_term(ts, m0));
        assert forall|k: int| 0 <= k < ts.len() implies ts2.contains(#[trigger] ts[k]) by {
            let j = if k < p { k } else { k + 1 };
            assert(ts2[j] == ts[k]);
        }
        assert forall|k: int| 0 <= k < ts2.len() && k != p implies ts.contains(#[trigger] ts2[k]) by {
            let j = if k < p { k } else { k - 1 };
            assert(ts[j] == ts2[k]);
        }
        assert forall|k: int, l: int| 0 <= k < l < ts2.len() implies mono_lt(
            (#[trigger] ts2[k]).base,
            (#[trigger] ts2[l]).base,
        ) by {
            let fk = if k < p { k } else { k - 1 };
            let fl = if l < p { l } else { l - 1 };
            if k != p && l != p {
                assert(mono_lt(ts[fk].base, ts[fl].base));
            }
        }
        assert(terms_wf(ts2));
        lemma_coeff_at(ts2, p);
        lemma_add_term(ts, ts2, m0, c);
    }
    Ok(())
}

/// The coefficient of a sum is the sum of the coefficients, and sums of
/// well-formed polynomials are well formed.
pub proof fn lemma_poly_add(a: PolyMap, b: PolyMap)
    requires
        poly_wf(a),
        poly_wf(b),
    ensures
        poly_wf(poly_add(a, b)),
        forall|m: Monomial| #[trigger]
            poly_get(poly_add(a, b), m) == rat_add(poly_get(a, m), poly_get(b, m)),
        forall|m: Monomial| is_reduced(#[trigger] poly_get(a, m)),
{
    lemma_int_reduced(0);
    assert forall|m: Monomial| #[trigger]
        poly_get(poly_add(a, b), m) == rat_add(poly_get(a, m), poly_get(b, m)) && is_reduced(
        poly_get(poly_add(a, b), m),
    ) && (poly_add(a, b).dom().contains(m) ==> mono_wf(m)) by {
        let s = rat_add(poly_get(a, m), poly_get(b, m));
        lemma_rat_closed(poly_get(a, m), poly_get(b, m));
        if s.num == 0 {
            lemma_zero_unique(s);
        } else if !a.dom().contains(m) && !b.dom().contains(m) {
            lemma_rat_add_zero(rat_zero());
        }
    }
    let sum = poly_add(a, b);
    assert forall|m: Monomial| #[trigger] sum.dom().contains(m) implies mono_wf(m) && is_reduced(sum[m])
        && sum[m].num != 0 by {
        assert(poly_get(sum, m) == sum[m]);
    }
    assert forall|m: Monomial| is_reduced(#[trigger] poly_get(a, m)) by {
        assert(poly_get(poly_add(a, b), m) == rat_add(poly_get(a, m), poly_get(b, m)));
    }
}

/// Addition of polynomials is commutative.
pub proof fn lemma_poly_add_commutative(a: PolyMap, b: PolyMap)
    ensures
        poly_add(a, b) == poly_add(b, a),
{
    assert forall|m: Monomial|
        rat_add(poly_get(a, m), poly_get(b, m)) == #[trigger] rat_add(poly_get(b, m), poly_get(a, m)) by {
        lemma_rat_add_commutative(poly_get(a, m), poly_get(b, m));
    }
    assert(poly_add(a, b) =~= poly_add(b, a));
}

/// Addition of polynomials is associative.
pub proof fn lemma_poly_add_associative(a: PolyMap, b: PolyMap, c: PolyMap)
    requires
        poly_wf(a),
        poly_wf(b),
        poly_wf(c),
    ensures
        poly_add(poly_add(a, b), c) == poly_add(a, poly_add(b, c)),
{
    lemma_poly_add(a, b);
    lemma_poly_add(b, c);
    lemma_poly_add(c, c);
    let l = poly_add(poly_add(a, b), c);
    let r = poly_add(a, poly_add(b, c));
    assert forall|m: Monomial|
        rat_add(poly_get(poly_add(a, b), m), poly_get(c, m)) == rat_add(
            poly_get(a, m),
            poly_get(poly_add(b, c), m),
        ) by {
        lemma_rat_add_associative(poly_get(a, m), poly_get(b, m), poly_get(c, m));
    }
    assert(l =~= r);
}

/// The polynomial without terms is the identity of addition.
pub proof fn lemma_poly_add_zero(a: PolyMap)
    requires
        poly_wf(a),
    ensures
        poly_add(a, poly_zero()) == a,
        poly_add(poly_zero(), a) == a,
{
    lemma_poly_add(a, a);
    assert forall|m: Monomial|
        rat_add(poly_get(a, m), rat_zero()) == poly_get(a, m) && rat_add(rat_zero(), poly_get(a, m))
            == #[trigger] poly_get(a, m) by {
        lemma_rat_add_zero(poly_get(a, m));
    }
    assert(poly_add(a, poly_zero()) =~= a);
    assert(poly_add(poly_zero(), a) =~= a);
}

/// A single term is a well-formed polynomial.
pub proof fn lemma_poly_term(m: Monomial, c: Fraction)
    requires
        mono_wf(m),
        is_reduced(c),
    ensures
        poly_wf(poly_term(m, c)),
{
}

/// Canonical term lists agree on their first `i` monomials if they stand
/// for the same mapping.
proof fn lemma_terms_prefix(a: Seq<Term>, b: Seq<Term>, i: int)
    requires
        terms_wf(a),
        terms_wf(b),
        to_map(a) == to_map(b),
        0 <= i <= a.len(),
        i <= b.len(),
    ensures
        forall|k: int| 0 <= k < i ==> (#[trigger] a[k]).base == b[k].base,
    decreases i,
{
    if i > 0 {
        lemma_terms_prefix(a, b, i - 1);
        let p = i - 1;
        lemma_coeff_at(a, p);
        lemma_coeff_at(b, p);
        assert(to_map(b).dom().contains(a[p].base));
        assert(to_map(a).dom().contains(b[p].base));
        let j = index_of(b, a[p].base);
        let l = index_of(a, b[p].base);
        lemma_mono_lt_irreflexive(a[p].base);
        lemma_mono_lt_irreflexive(b[p].base);
        if j < p {
            assert(a[j].base == b[j].base);
            assert(mono_lt(a[j].base, a[p].base));
        } else if j > p {
            assert(mono_lt(b[p].base, b[j].base));
            if l < p {
                assert(a[l].base == b[l].base);
                assert(mono_lt(b[l].base, b[p].base));
            } else if l > p {
                assert(mono_lt(a[p].base, a[l].base));
                lemma_mono_lt_transitive(a[p].base, a[l].base, a[p].base);
            }
        }
    }
}

/// A mapping has one canonical term list.
pub proof fn lemma_terms_unique(a: Seq<Term>, b: Seq<Term>)
    requires
        terms_wf(a),
        terms_wf(b),
        to_map(a) == to_map(b),
    ensures
        a == b,
{
    let n = if a.len() < b.len() { a.len() as int } else { b.len() as int };
    lemma_terms_prefix(a, b, n);
    if a.len() < b.len() {
        lemma_coeff_at(b, n);
        assert(to_map(a).dom().contains(b[n].base));
        let l = index_of(a, b[n].base);
        assert(a[l].base == b[l].base);
        assert(mono_lt(b[l].base, b[n].base));
        lemma_mono_lt_irreflexive(b[n].base);
    } else if b.len() < a.len() {
        lemma_coeff_at(a, n);
        assert(to_map(b).dom().contains(a[n].base));
        let l = index_of(b, a[n].base);
        assert(a[l].base == b[l].base);
        assert(mono_lt(a[l].base, a[n].base));
        lemma_mono_lt_irreflexive(a[n].base);
    }
    assert(a.len() == b.len());
    assert forall|k: int| 0 <= k < a.len() implies a[k] == b[k] by {
        lemma_coeff_at(a, k);
        lemma_coeff_at(b, k);
        assert(a[k].base == b[k].base);
        assert(to_map(a)[a[k].base] == a[k].fac);
        assert(to_map(b)[b[k].base] == b[k].fac);
    }
    assert(a =~= b);
}

/// The canonical term list of a mapping.
pub open spec fn canon(p: PolyMap) -> Seq<Term> {
    choose|ts: Seq<Term>| terms_wf(ts) && to_map(ts) == p
}

/// The mapping is that of a canonical term list.
pub open spec fn poly_canonical(p: PolyMap) -> bool {
    terms_wf(canon(p)) && to_map(canon(p)) == p
}

/// The mapping is that of a canonical term list, and can be stored.
pub open spec fn poly_stored(p: PolyMap) -> bool {
    poly_canonical(p) && poly_fits(p)
}

/// The canonical term list of the mapping of a canonical term list is that
/// list.
pub proof fn lemma_canon(ts: Seq<Term>)
    requires
        terms_wf(ts),
    ensures
        canon(to_map(ts)) == ts,
{
    lemma_terms_unique(canon(to_map(ts)), ts);
}

/// `acc + s * b[0] + s * b[1] + ...`, added up from the left; `None` once a
/// product or a partial sum cannot be stored.
pub open spec fn row_sum(acc: Option<PolyMap>, s: Term, b: Seq<Term>) -> Option<PolyMap>
    decreases b.len(),
{
    if b.len() == 0 {
        acc
    } else {
        match row_sum(acc, s, b.drop_last()) {
            None => None,
            Some(p) => {
                let t = term_mul(s, b.last());
                let next = poly_add(p, poly_term(t.base, t.fac));
                if term_fits(t) && poly_fits(next) {
                    Some(next)
                } else {
                    None
                }
            },
        }
    }
}

/// The sum of the products of every term of `a` with every term of `b`,
/// added up from the left in the order of `a`, then of `b`; `None` once a
/// product or a partial sum cannot be stored.
pub open spec fn mul_sum(a: Seq<Term>, b: Seq<Term>) -> Option<PolyMap>
    decreases a.len(),
{
    if a.len() == 0 {
        Some(poly_zero())
    } else {
        row_sum(mul_sum(a.drop_last(), b), a.last(), b)
    }
}

/// The product of two polynomials, if it and the partial sums that lead to
/// it can be stored.
pub open spec fn poly_mul(a: PolyMap, b: PolyMap) -> Option<PolyMap> {
    mul_sum(canon(a), canon(b))
}

/// One step of raising to a power by squaring: `p * x^n`.
pub open spec fn pow_loop(p: PolyMap, x: PolyMap, n: nat) -> Option<PolyMap>
    decreases n,
{
    if n == 0 {
        Some(p)
    } else if n == 1 {
        poly_mul(p, x)
    } else {
        let q = if n % 2 == 1 { poly_mul(p, x) } else { Some(p) };
        match (q, poly_mul(x, x)) {
            (Some(q), Some(y)) => pow_loop(q, y, n / 2),
            _ => None,
        }
    }
}

/// `x` raised to the power `n` by repeated squaring.
pub open spec fn poly_pow_n(x: PolyMap, n: nat) -> Option<PolyMap> {
    pow_loop(poly_rational(rat_one()), x, n)
}

/// Once a partial sum cannot be stored, no longer sum can.
pub proof fn lemma_row_sum_none(acc: Option<PolyMap>, s: Term, b: Seq<Term>, j: int)
    requires
        0 <= j <= b.len(),
        row_sum(acc, s, b.take(j)) is None,
    ensures
        row_sum(acc, s, b) is None,
    decreases b.len() - j,
{
    if j < b.len() {
        assert(b.take(j + 1).drop_last() =~= b.take(j));
        lemma_row_sum_none(acc, s, b, j + 1);
    } else {
        assert(b.take(j) =~= b);
    }
}

/// Once the sum over the first terms of `a` cannot be stored, the whole
/// sum cannot.
pub proof fn lemma_mul_sum_none(a: Seq<Term>, b: Seq<Term>, i: int)
    requires
        0 <= i <= a.len(),
        mul_sum(a.take(i), b) is None,
    ensures
        mul_sum(a, b) is None,
    decreases a.len() - i,
{
    if i < a.len() {
        assert(a.take(i + 1).drop_last() =~= a.take(i));
        assert(b.take(0) =~= Seq::<Term>::empty());
        assert(row_sum(None, a[i], b.take(0)) is None);
        lemma_row_sum_none(None, a[i], b, 0);
        lemma_mul_sum_none(a, b, i + 1);
    } else {
        assert(a.take(i) =~= a);
    }
}

/// The order of polynomials from position `i` on: the first pair of
/// monomials that differ decides.
pub open spec fn terms_order_from(a: Seq<Term>, b: Seq<Term>, i: int) -> Rank
    decreases a.len() - i,
{
    if i < 0 || i >= a.len() || i >= b.len() {
        Rank::Equal
    } else if mono_lt(a[i].base, b[i].base) {
        Rank::Less
    } else if mono_lt(b[i].base, a[i].base) {
        Rank::Greater
    } else {
        terms_order_from(a, b, i + 1)
    }
}

/// The order of polynomials: by the number of terms, then by the monomials
/// in turn. The coefficients play no part.
pub open spec fn terms_order(a: Seq<Term>, b: Seq<Term>) -> Rank {
    if a.len() < b.len() {
        Rank::Less
    } else if a.len() > b.len() {
        Rank::Greater
    } else {
        terms_order_from(a, b, 0)
    }
}

/// What is stored can be stored.
pub proof fn lemma_stored_fits(v: Seq<(Base, Rational)>)
    requires
        terms_wf(terms_of(v)),
    ensures
        poly_fits(to_map(terms_of(v))),
{
    let ts = terms_of(v);
    assert forall|m: Monomial| #[trigger] to_map(ts).dom().contains(m) implies mono_fits(m) && fits(
        to_map(ts)[m],
    ) by {
        let i = index_of(ts, m);
        lemma_coeff_at(ts, i);
    }
}

/// A polynomial in canonical form.
#[derive(Debug)]
pub struct Poly {
    // sorted by monomial; never contains a zero
    elements: Vec<(Base, Rational)>,
}

impl View for Poly {
    type V = PolyMap;

    open spec fn view(&self) -> PolyMap {
        to_map(self.terms())
    }
}

impl Clone for Poly {
    fn clone(&self) -> (r: Poly)
        ensures
            r.terms() == self.terms(),
    {
        let mut elements: Vec<(Base, Rational)> = Vec::new();
        let mut i: usize = 0;
        while i < self.elements.len()
            invariant
                i <= self.elements.len(),
                terms_of(elements@) == self.terms().take(i as int),
            decreases self.elements.len() - i,
        {
            let ghost before = terms_of(elements@);
            elements.push((base_copy(&self.elements[i].0), self.elements[i].1));
            proof {
                assert(terms_of(elements@) =~= before.push(self.terms()[i as int]));
                assert(self.terms().take(i + 1) =~= before.push(self.terms()[i as int]));
            }
            i += 1;
        }
        assert(self.terms().take(i as int) =~= self.terms());
        Poly { elements }
    }
}

impl Poly {
    /// The terms, in the order of their monomials.
    pub closed spec fn terms(&self) -> Seq<Term> {
        terms_of(self.elements@)
    }

    /// The representation invariant: the terms are in canonical form.
    pub open spec fn wf(&self) -> bool {
        terms_wf(self.terms())
    }

    /// What is stored can be stored, and is the canonical form of its value.
    pub proof fn lemma_stored(&self)
        requires
            self.wf(),
        ensures
            poly_fits(self@),
            poly_wf(self@),
            poly_stored(self@),
            canon(self@) == self.terms(),
            forall|i: int| 0 <= i < self.terms().len() ==> term_fits(#[trigger] self.terms()[i]),
    {
        lemma_stored_fits(self.elements@);
        lemma_to_map(self.terms());
        lemma_canon(self.terms());
    }

    /// The polynomial with the one term `fac * base`.
    pub(crate) fn one(base: Base, fac: Rational) -> (r: Poly)
        requires
            mono_wf(base_view(base@)),
            fac.wf(),
            fac@.num != 0,
        ensures
            r.wf(),
            r.terms() == seq![Term { base: base_view(base@), fac: fac@ }],
            r@ == poly_term(base_view(base@), fac@),
    {
        let ghost t = Term { base: base_view(base@), fac: fac@ };
        let mut elements: Vec<(Base, Rational)> = Vec::new();
        elements.push((base, fac));
        proof {
            let ts = terms_of(elements@);
            assert(ts =~= seq![t]);
            lemma_coeff_at(ts, 0);
            assert forall|m: Monomial| has_term(ts, m) <==> m == t.base by {
                if m == t.base {
                    assert(ts[0].base == m);
                }
            }
            assert(to_map(ts) =~= poly_term(t.base, t.fac));
        }
        Poly { elements }
    }

    pub fn zero() -> (r: Poly)
        ensures
            r.wf(),
            r.terms() == Seq::<Term>::empty(),
            r@ == poly_zero(),
    {
        let elements: Vec<(Base, Rational)> = Vec::new();
        proof {
            assert(terms_of(elements@) =~= Seq::<Term>::empty());
            assert(to_map(terms_of(elements@)) =~= poly_zero());
        }
        Poly { elements }
    }

    /// The constant polynomial `r`.
    pub fn rational(r: Rational) -> (p: Poly)
        requires
            r.wf(),
        ensures
            p.wf(),
            p@ == poly_rational(r@),
    {
        if r.is_zero() {
            Poly::zero()
        } else {
            let base: Base = Vec::new();
            assert(base_view(base@) =~= Seq::<(crate::node::NodeRc, int)>::empty());
            Poly::one(base, r)
        }
    }

    /// The constant polynomial `i`.
    pub fn integer(i: i64) -> (p: Poly)
        ensures
            p.wf(),
            p@ == poly_rational(rat_int(i as int)),
    {
        Poly::rational(Rational::from_int(i))
    }

    pub fn is_zero(&self) -> (r: bool)
        ensures
            r == (self@ == poly_zero()),
    {
        proof {
            if self.terms().len() > 0 {
                assert(has_term(self.terms(), self.terms()[0].base));
                assert(self@.dom().contains(self.terms()[0].base));
            } else {
                assert(self@ =~= poly_zero());
            }
        }
        self.elements.len() == 0
    }

    /// The number of terms.
    pub fn len(&self) -> (r: usize)
        ensures
            r == self.terms().len(),
    {
        self.elements.len()
    }

    /// The rational that the polynomial is, if it is a constant.
    pub fn as_rational(&self) -> (r: Option<Rational>)
        requires
            self.wf(),
        ensures
            r matches Some(c) ==> c.wf() && self@ == poly_rational(c@),
            r is None ==> forall|c: Fraction| self@ != poly_rational(c),
    {
        let ghost ts = self.terms();
        if self.elements.len() == 0 {
            proof {
                lemma_int_reduced(0);
                assert(self@ =~= poly_zero());
            }
            Some(Rational::from_int(0))
        } else if self.elements.len() == 1 && self.elements[0].0.len() == 0 {
            let c = self.elements[0].1;
            proof {
                assert(term_wf(ts[0]));
                lemma_coeff_at(ts, 0);
                assert(ts[0].base =~= Seq::<(crate::node::NodeRc, int)>::empty());
                assert forall|m: Monomial| has_term(ts, m) <==> m == ts[0].base by {
                    if m == ts[0].base {
                        assert(ts[0].base == m);
                    }
                }
                assert(self@ =~= poly_rational(c@));
            }
            Some(c)
        } else {
            proof {
                let empty = Seq::<(crate::node::NodeRc, int)>::empty();
                lemma_coeff_at(ts, 0);
                if ts[0].base.len() == 0 {
                    lemma_coeff_at(ts, 1);
                    assert(mono_lt(ts[0].base, ts[1].base));
                    lemma_mono_lt_irreflexive(ts[0].base);
                    assert(ts[0].base =~= empty);
                    assert(self@.dom().contains(ts[1].base) && ts[1].base != empty);
                } else {
                    assert(self@.dom().contains(ts[0].base) && ts[0].base != empty);
                }
                assert forall|c: Fraction| self@ != poly_rational(c) by {
                    let m = if ts[0].base.len() == 0 { ts[1].base } else { ts[0].base };
                    assert(self@.dom().contains(m));
                    assert(!poly_rational(c).dom().contains(m));
                }
            }
            None
        }
    }

    /// The integer that the polynomial is, if it is an integer constant.
    pub fn as_int(&self) -> (r: Option<i64>)
        requires
            self.wf(),
        ensures
            r matches Some(i) ==> self@ == poly_rational(rat_int(i as int)),
            r is None ==> forall|i: int| self@ != poly_rational(rat_int(i)),
    {
        match self.as_rational() {
            None => None,
            Some(c) => {
                proof {
                    assert forall|i: int| c@.den != 1 implies self@ != poly_rational(rat_int(i)) by {
                        lemma_int_reduced(i);
                        if c@.num == 0 {
                            lemma_zero_unique(c@);
                        } else {
                            assert(self@.dom().contains(Seq::empty()));
                            if i != 0 {
                                assert(self@[Seq::empty()] == c@);
                                assert(poly_rational(rat_int(i))[Seq::empty()] == rat_int(i));
                            }
                        }
                    }
                }
                c.as_int()
            },
        }
    }

    /// One polynomial for each term, in the order of the terms.
    pub fn split(&self) -> (r: Vec<Poly>)
        requires
            self.wf(),
        ensures
            r@.len() == self.terms().len(),
            forall|i: int| 0 <= i < r@.len() ==> (#[trigger] r@[i]).wf() && r@[i].terms() == seq![self.terms()[i]],
    {
        let mut out: Vec<Poly> = Vec::new();
        let mut k: usize = 0;
        while k < self.elements.len()
            invariant
                k <= self.elements.len(),
                self.wf(),
                out@.len() == k,
                forall|i: int| 0 <= i < k ==> (#[trigger] out@[i]).wf() && out@[i].terms() == seq![self.terms()[i]],
            decreases self.elements.len() - k,
        {
            assert(term_wf(self.terms()[k as int]));
            let p = Poly::one(base_copy(&self.elements[k].0), self.elements[k].1);
            out.push(p);
            k += 1;
        }
        out
    }

    /// The monomial and coefficient of the term at position `i`.
    pub fn term(&self, i: usize) -> (r: (&Base, Rational))
        requires
            i < self.terms().len(),
        ensures
            base_view(r.0@) == self.terms()[i as int].base,
            r.1@ == self.terms()[i as int].fac,
            self.wf() ==> r.1.wf() && mono_wf(base_view(r.0@)),
    {
        proof {
            if self.wf() {
                assert(term_wf(self.terms()[i as int]));
            }
        }
        (&self.elements[i].0, self.elements[i].1)
    }

    /// The terms, each with its monomial and its coefficient, in the
    /// order of the monomials.
    pub fn factors(&self) -> (r: Vec<(Base, Rational)>)
        ensures
            terms_of(r@) == self.terms(),
    {
        let mut out: Vec<(Base, Rational)> = Vec::new();
        let mut i: usize = 0;
        while i < self.elements.len()
            invariant
                i <= self.elements.len(),
                terms_of(out@) == self.terms().take(i as int),
            decreases self.elements.len() - i,
        {
            let ghost before = terms_of(out@);
            out.push((base_copy(&self.elements[i].0), self.elements[i].1));
            proof {
                assert(terms_of(out@) =~= before.push(self.terms()[i as int]));
                assert(self.terms().take(i + 1) =~= before.push(self.terms()[i as int]));
            }
            i += 1;
        }
        assert(self.terms().take(i as int) =~= self.terms());
        out
    }

    /// The sum. Fails if a coefficient of the sum cannot be stored.
    pub fn add(self, rhs: Poly) -> (r: Result<Poly, PolyError>)
        requires
            self.wf(),
            rhs.wf(),
        ensures
            r.is_ok() <==> poly_fits(poly_add(self@, rhs@)),
            r matches Ok(p) ==> p.wf() && p@ == poly_add(self@, rhs@),
            r matches Err(e) ==> e == PolyError::Overflow,
    {
        let ghost a = self@;
        let ghost tb = rhs.terms();
        let mut elements = self.elements;
        let mut j: usize = 0;
        proof {
            self.lemma_stored();
            rhs.lemma_stored();
            assert(tb.take(0) =~= Seq::<Term>::empty());
            assert(to_map(tb.take(0)) =~= poly_zero());
            lemma_poly_add_zero(a);
        }
        while j < rhs.elements.len()
            invariant
                j <= rhs.elements.len(),
                rhs.wf(),
                tb == rhs.terms(),
                a == self@,
                poly_wf(a),
                terms_wf(terms_of(elements@)),
                terms_wf(tb.take(j as int)),
                to_map(terms_of(elements@)) == poly_add(a, to_map(tb.take(j as int))),
            decreases rhs.elements.len() - j,
        {
            let ghost done = tb.take(j as int);
            let ghost t = tb[j as int];
            let ghost acc = terms_of(elements@);
            proof {
                assert(term_wf(t));
                lemma_to_map(done);
                lemma_to_map(acc);
                lemma_to_map(tb);
                lemma_poly_term(t.base, t.fac);
                lemma_poly_add(a, to_map(done));
                // the term was not part of the sum so far
                lemma_take_push(tb, j as int);
                lemma_coeff_at(tb, j as int);
                lemma_rat_add_zero(poly_get(a, t.base));
                lemma_poly_add_associative(a, to_map(done), poly_term(t.base, t.fac));
                lemma_poly_add(a, rhs@);
            }
            let base = base_copy(&rhs.elements[j].0);
            let fac = rhs.elements[j].1;
            match add_to(&mut elements, base, fac) {
                Err(e) => {
                    proof {
                        let s = rat_add(poly_get(a, t.base), t.fac);
                        assert(coeff(acc, t.base) == poly_get(to_map(acc), t.base));
                        assert(poly_get(to_map(done), t.base) == rat_zero());
                        assert(coeff(acc, t.base) == poly_get(a, t.base));
                        assert(!fits(s));
                        lemma_rat_closed(poly_get(a, t.base), t.fac);
                        if s.num == 0 {
                            lemma_zero_unique(s);
                        }
                        assert(poly_get(rhs@, t.base) == t.fac);
                        assert(poly_add(a, rhs@).dom().contains(t.base));
                        assert(poly_add(a, rhs@)[t.base] == s);
                    }
                    return Err(e);
                },
                Ok(_) => {},
            }
            j += 1;
        }
        proof {
            assert(tb.take(j as int) =~= tb);
            lemma_stored_fits(elements@);
        }
        Ok(Poly { elements })
    }
}

/// Appending the next term of a canonical term list to its first `j` terms
/// adds that term to the mapping.
pub proof fn lemma_take_push(ts: Seq<Term>, j: int)
    requires
        terms_wf(ts),
        0 <= j < ts.len(),
    ensures
        terms_wf(ts.take(j)),
        terms_wf(ts.take(j + 1)),
        !has_term(ts.take(j), ts[j].base),
        to_map(ts.take(j + 1)) == poly_add(to_map(ts.take(j)), poly_term(ts[j].base, ts[j].fac)),
{
    let a = ts.take(j);
    let b = ts.take(j + 1);
    let t = ts[j];
    assert(term_wf(t));
    assert forall|k: int| 0 <= k < b.len() implies #[trigger] b[k] == ts[k] by {}
    assert forall|k: int| 0 <= k < a.len() implies #[trigger] a[k] == ts[k] by {}
    lemma_mono_lt_irreflexive(t.base);
    assert forall|k: int| 0 <= k < a.len() implies (#[trigger] a[k]).base != t.base by {
        assert(mono_lt(ts[k].base, ts[j].base));
    }
    assert forall|k: int| 0 <= k < a.len() implies b.contains(#[trigger] a[k]) by {
        assert(b[k] == a[k]);
    }
    assert forall|k: int| 0 <= k < b.len() && (#[trigger] b[k]).base != t.base implies a.contains(b[k]) by {
        assert(a[k] == b[k]);
    }
    lemma_coeff_at(b, j);
    lemma_rat_add_zero(t.fac);
    lemma_add_term(a, b, t.base, t.fac);
}

/// Every base of the polynomial is a handle below `n`.
pub open spec fn poly_below(p: PolyMap, n: int) -> bool {
    forall|m: Monomial| #[trigger] p.dom().contains(m) ==> mono_below(m, n)
}

/// A sum has no bases but those of its summands.
pub proof fn lemma_poly_add_below(a: PolyMap, b: PolyMap, n: int)
    requires
        poly_below(a, n),
        poly_below(b, n),
    ensures
        poly_below(poly_add(a, b), n),
{
    lemma_int_reduced(0);
    lemma_rat_add_zero(rat_zero());
}

/// Scaling brings no new bases.
pub proof fn lemma_poly_scale_below(a: PolyMap, k: Fraction, n: int)
    requires
        poly_below(a, n),
    ensures
        poly_below(poly_scale(a, k), n),
{
}

/// A sum of products of terms is well formed and has no bases but those of
/// the terms.
pub proof fn lemma_row_sum(acc: Option<PolyMap>, s: Term, b: Seq<Term>, n: int)
    requires
        acc matches Some(p) ==> poly_wf(p) && poly_below(p, n),
        term_wf(s),
        mono_below(s.base, n),
        forall|j: int| 0 <= j < b.len() ==> term_wf(#[trigger] b[j]) && mono_below(b[j].base, n),
    ensures
        row_sum(acc, s, b) matches Some(q) ==> poly_wf(q) && poly_below(q, n),
    decreases b.len(),
{
    if b.len() > 0 {
        let front = b.drop_last();
        assert forall|j: int| 0 <= j < front.len() implies term_wf(#[trigger] front[j]) && mono_below(
            front[j].base,
            n,
        ) by {
            assert(front[j] == b[j]);
        }
        lemma_row_sum(acc, s, front, n);
        if let Some(p) = row_sum(acc, s, front) {
            let t = term_mul(s, b.last());
            assert(term_wf(b.last()));
            lemma_mono_mul(s.base, b.last().base, 0);
            lemma_mono_mul_below(s.base, b.last().base, n);
            lemma_rat_closed(s.fac, b.last().fac);
            lemma_poly_term(t.base, t.fac);
            lemma_poly_add(p, poly_term(t.base, t.fac));
            lemma_poly_add_below(p, poly_term(t.base, t.fac), n);
        }
    }
}

/// A product is well formed and has no bases but those of its factors.
pub proof fn lemma_mul_sum(a: Seq<Term>, b: Seq<Term>, n: int)
    requires
        forall|i: int| 0 <= i < a.len() ==> term_wf(#[trigger] a[i]) && mono_below(a[i].base, n),
        forall|j: int| 0 <= j < b.len() ==> term_wf(#[trigger] b[j]) && mono_below(b[j].base, n),
    ensures
        mul_sum(a, b) matches Some(q) ==> poly_wf(q) && poly_below(q, n),
    decreases a.len(),
{
    if a.len() > 0 {
        let front = a.drop_last();
        assert forall|i: int| 0 <= i < front.len() implies term_wf(#[trigger] front[i]) && mono_below(
            front[i].base,
            n,
        ) by {
            assert(front[i] == a[i]);
        }
        lemma_mul_sum(front, b, n);
        lemma_row_sum(mul_sum(front, b), a.last(), b, n);
    }
}

/// The terms of a canonical polynomial have its bases.
pub proof fn lemma_canon_below(p: PolyMap, n: int)
    requires
        poly_stored(p),
        poly_below(p, n),
    ensures
        forall|i: int| 0 <= i < canon(p).len() ==> term_wf(#[trigger] canon(p)[i]) && mono_below(canon(p)[i].base, n),
{
    let ts = canon(p);
    assert forall|i: int| 0 <= i < ts.len() implies term_wf(#[trigger] ts[i]) && mono_below(ts[i].base, n) by {
        lemma_coeff_at(ts, i);
        assert(p.dom().contains(ts[i].base));
    }
}

/// A product of polynomials has no bases but those of its factors.
pub proof fn lemma_poly_mul_below(a: PolyMap, b: PolyMap, n: int)
    requires
        poly_stored(a),
        poly_stored(b),
        poly_below(a, n),
        poly_below(b, n),
    ensures
        poly_mul(a, b) matches Some(q) ==> poly_wf(q) && poly_below(q, n),
{
    lemma_canon_below(a, n);
    lemma_canon_below(b, n);
    lemma_mul_sum(canon(a), canon(b), n);
}

/// Adding a term that can be stored to a polynomial that can be stored
/// gives one that can be stored exactly when the new coefficient can.
pub proof fn lemma_add_term_fits(p: PolyMap, m: Monomial, c: Fraction)
    requires
        poly_wf(p),
        poly_fits(p),
        mono_wf(m),
        mono_fits(m),
        is_reduced(c),
    ensures
        poly_fits(poly_add(p, poly_term(m, c))) <==> fits(rat_add(poly_get(p, m), c)),
{
    let t = poly_term(m, c);
    let next = poly_add(p, t);
    lemma_poly_term(m, c);
    lemma_poly_add(p, t);
    let s = rat_add(poly_get(p, m), c);
    if c.num == 0 {
        lemma_zero_unique(c);
    }
    assert(poly_get(t, m) == c);
    assert(poly_get(next, m) == s);
    lemma_rat_closed(poly_get(p, m), c);
    if s.num == 0 {
        lemma_zero_unique(s);
    }
    if fits(s) {
        assert forall|k: Monomial| #[trigger] next.dom().contains(k) implies mono_fits(k) && fits(next[k]) by {
            assert(poly_get(next, k) == rat_add(poly_get(p, k), poly_get(t, k)));
            if k != m {
                lemma_rat_add_zero(poly_get(p, k));
                assert(p.dom().contains(k));
            }
        }
    } else {
        assert(next.dom().contains(m));
    }
}

/// If a partial sum of a product cannot be stored, the product cannot.
pub proof fn lemma_mul_fails(a: Seq<Term>, b: Seq<Term>, i: int, j: int)
    requires
        0 <= i < a.len(),
        0 <= j <= b.len(),
        row_sum(mul_sum(a.take(i), b), a[i], b.take(j)) is None,
    ensures
        mul_sum(a, b) is None,
{
    lemma_row_sum_none(mul_sum(a.take(i), b), a[i], b, j);
    assert(a.take(i + 1).drop_last() =~= a.take(i));
    lemma_mul_sum_none(a, b, i + 1);
}

impl Poly {
    /// Every coefficient multiplied by `k`. Fails if a product cannot be
    /// stored.
    pub fn scale(self, k: Rational) -> (r: Result<Poly, PolyError>)
        requires
            self.wf(),
            k.wf(),
        ensures
            r.is_ok() <==> poly_fits(poly_scale(self@, k@)),
            r matches Ok(p) ==> p.wf() && p@ == poly_scale(self@, k@),
            r matches Err(e) ==> e == PolyError::Overflow,
    {
        let ghost ts = self.terms();
        if k.is_zero() {
            proof {
                assert(poly_scale(self@, k@) =~= poly_zero());
            }
            return Ok(Poly::zero());
        }
        let mut elements: Vec<(Base, Rational)> = Vec::new();
        let mut i: usize = 0;
        while i < self.elements.len()
            invariant
                i <= self.elements.len(),
                self.wf(),
                k.wf(),
                k@.num != 0,
                ts == self.terms(),
                terms_of(elements@).len() == i,
                forall|l: int| 0 <= l < i ==> #[trigger] terms_of(elements@)[l] == (Term {
                    base: ts[l].base,
                    fac: rat_mul(ts[l].fac, k@),
                }),
            decreases self.elements.len() - i,
        {
            proof {
                assert(term_wf(ts[i as int]));
                lemma_coeff_at(ts, i as int);
            }
            match self.elements[i].1.mul(k) {
                None => {
                    proof {
                        assert(self@.dom().contains(ts[i as int].base));
                        assert(poly_scale(self@, k@).dom().contains(ts[i as int].base));
                    }
                    return Err(PolyError::Overflow);
                },
                Some(f) => {
                    let ghost before = elements@;
                    elements.push((base_copy(&self.elements[i].0), f));
                    proof {
                        assert forall|l: int| 0 <= l <= i implies #[trigger] terms_of(elements@)[l] == (Term {
                            base: ts[l].base,
                            fac: rat_mul(ts[l].fac, k@),
                        }) by {
                            if l < i {
                                assert(elements@[l] == before[l]);
                                assert(terms_of(before)[l] == terms_of(elements@)[l]);
                            }
                        }
                    }
                },
            }
            i += 1;
        }
        proof {
            let ts2 = terms_of(elements@);
            assert forall|l: int, h: int| 0 <= l < h < ts2.len() implies mono_lt(
                (#[trigger] ts2[l]).base,
                (#[trigger] ts2[h]).base,
            ) by {
                assert(mono_lt(ts[l].base, ts[h].base));
            }
            assert forall|l: int| 0 <= l < ts2.len() implies term_wf(#[trigger] ts2[l]) by {
                assert(term_wf(ts[l]));
                lemma_rat_mul_nonzero(ts[l].fac, k@);
                lemma_rat_closed(ts[l].fac, k@);
            }
            assert forall|m: Monomial| has_term(ts2, m) == has_term(ts, m) && (has_term(ts, m) ==> coeff(
                ts2,
                m,
            ) == rat_mul(coeff(ts, m), k@)) by {
                if has_term(ts, m) {
                    let l = index_of(ts, m);
                    assert(ts2[l].base == m);
                    lemma_coeff_at(ts, l);
                    lemma_coeff_at(ts2, l);
                }
                if has_term(ts2, m) {
                    let l = index_of(ts2, m);
                    assert(ts[l].base == m);
                }
            }
            assert(to_map(ts2) =~= poly_scale(self@, k@));
            lemma_stored_fits(elements@);
        }
        Ok(Poly { elements })
    }

    /// Every coefficient multiplied by the integer `k`.
    pub fn scale_int(self, k: i64) -> (r: Result<Poly, PolyError>)
        requires
            self.wf(),
        ensures
            r.is_ok() <==> poly_fits(poly_scale(self@, rat_int(k as int))),
            r matches Ok(p) ==> p.wf() && p@ == poly_scale(self@, rat_int(k as int)),
            r matches Err(e) ==> e == PolyError::Overflow,
    {
        self.scale(Rational::from_int(k))
    }

    /// The product: every term of `self` times every term of `rhs`, added
    /// up in that order. Fails if a product of two terms or a partial sum
    /// cannot be stored.
    pub fn mul(self, rhs: Poly) -> (r: Result<Poly, PolyError>)
        requires
            self.wf(),
            rhs.wf(),
        ensures
            r matches Ok(p) ==> p.wf() && poly_mul(self@, rhs@) == Some(p@),
            r matches Err(e) ==> e == PolyError::Overflow && poly_mul(self@, rhs@) is None,
    {
        let ghost ta = self.terms();
        let ghost tb = rhs.terms();
        let n = self.elements.len();
        let m = rhs.elements.len();
        let mut elements: Vec<(Base, Rational)> = Vec::new();
        let mut i: usize = 0;
        proof {
            self.lemma_stored();
            rhs.lemma_stored();
            assert(ta.take(0) =~= Seq::<Term>::empty());
            assert(terms_of(elements@) =~= Seq::<Term>::empty());
            assert(to_map(terms_of(elements@)) =~= poly_zero());
        }
        while i < n
            invariant
                i <= n,
                n == self.elements.len(),
                m == rhs.elements.len(),
                self.wf(),
                rhs.wf(),
                ta == self.terms(),
                tb == rhs.terms(),
                poly_mul(self@, rhs@) == mul_sum(ta, tb),
                terms_wf(terms_of(elements@)),
                mul_sum(ta.take(i as int), tb) == Some(to_map(terms_of(elements@))),
            decreases n - i,
        {
            let mut j: usize = 0;
            proof {
                assert(tb.take(0) =~= Seq::<Term>::empty());
            }
            while j < m
                invariant
                    i < n,
                    j <= m,
                    n == self.elements.len(),
                    m == rhs.elements.len(),
                    self.wf(),
                    rhs.wf(),
                    ta == self.terms(),
                    tb == rhs.terms(),
                    poly_mul(self@, rhs@) == mul_sum(ta, tb),
                    terms_wf(terms_of(elements@)),
                    row_sum(mul_sum(ta.take(i as int), tb), ta[i as int], tb.take(j as int)) == Some(
                        to_map(terms_of(elements@)),
                    ),
                decreases m - j,
            {
                let ghost acc = to_map(terms_of(elements@));
                let ghost t = term_mul(ta[i as int], tb[j as int]);
                proof {
                    assert(tb.take(j + 1).drop_last() =~= tb.take(j as int));
                    assert(tb.take(j + 1).last() == tb[j as int]);
                    assert(term_wf(ta[i as int]));
                    assert(term_wf(tb[j as int]));
                    lemma_mono_mul(ta[i as int].base, tb[j as int].base, 0);
                    lemma_rat_closed(ta[i as int].fac, tb[j as int].fac);
                    lemma_to_map(terms_of(elements@));
                    lemma_stored_fits(elements@);
                    if term_fits(t) {
                        lemma_add_term_fits(acc, t.base, t.fac);
                    }
                    if !(term_fits(t) && poly_fits(poly_add(acc, poly_term(t.base, t.fac)))) {
                        lemma_mul_fails(ta, tb, i as int, j + 1);
                    }
                }
                let base = match base_mul(&self.elements[i].0, &rhs.elements[j].0) {
                    Some(b) => b,
                    None => {
                        return Err(PolyError::Overflow);
                    },
                };
                let fac = match self.elements[i].1.mul(rhs.elements[j].1) {
                    Some(f) => f,
                    None => {
                        return Err(PolyError::Overflow);
                    },
                };
                match add_to(&mut elements, base, fac) {
                    Err(e) => {
                        return Err(e);
                    },
                    Ok(_) => {},
                }
                j += 1;
            }
            proof {
                assert(tb.take(m as int) =~= tb);
                assert(ta.take(i + 1).drop_last() =~= ta.take(i as int));
            }
            i += 1;
        }
        proof {
            assert(ta.take(n as int) =~= ta);
        }
        Ok(Poly { elements })
    }

    /// The power `n`, by repeated squaring. Fails if a product on the way
    /// fails.
    pub fn pow_n(self, n: u32) -> (r: Result<Poly, PolyError>)
        requires
            self.wf(),
        ensures
            r matches Ok(p) ==> p.wf() && poly_pow_n(self@, n as nat) == Some(p@),
            r matches Ok(p) ==> forall|b: int| poly_below(self@, b) ==> poly_below(p@, b),
            r matches Err(e) ==> e == PolyError::Overflow && poly_pow_n(self@, n as nat) is None,
    {
        let ghost goal = poly_pow_n(self@, n as nat);
        let mut p = Poly::integer(1);
        let mut x = self;
        let mut k = n;
        while k > 1
            invariant
                p.wf(),
                x.wf(),
                goal == poly_pow_n(self@, n as nat),
                pow_loop(p@, x@, k as nat) == goal,
                forall|b: int| poly_below(self@, b) ==> poly_below(p@, b) && poly_below(x@, b),
            decreases k,
        {
            proof {
                p.lemma_stored();
                x.lemma_stored();
                assert forall|b: int| poly_below(self@, b) implies (poly_mul(p@, x@) matches Some(q)
                    ==> poly_below(q, b)) && (poly_mul(x@, x@) matches Some(q) ==> poly_below(q, b)) by {
                    lemma_poly_mul_below(p@, x@, b);
                    lemma_poly_mul_below(x@, x@, b);
                }
            }
            if k % 2 == 1 {
                p = match p.mul(x.clone()) {
                    Ok(q) => q,
                    Err(e) => {
                        return Err(e);
                    },
                };
            }
            k = k / 2;
            x = match x.clone().mul(x.clone()) {
                Ok(y) => y,
                Err(e) => {
                    return Err(e);
                },
            };
        }
        proof {
            p.lemma_stored();
            x.lemma_stored();
            assert forall|b: int| poly_below(self@, b) implies (poly_mul(p@, x@) matches Some(q)
                ==> poly_below(q, b)) by {
                lemma_poly_mul_below(p@, x@, b);
            }
        }
        if k == 1 {
            p.mul(x)
        } else {
            Ok(p)
        }
    }

    /// Whether two polynomials have the same terms.
    pub fn equals(&self, rhs: &Poly) -> (r: bool)
        ensures
            r == (self.terms() == rhs.terms()),
            self.wf() && rhs.wf() ==> r == (self@ == rhs@),
    {
        proof {
            if self.wf() && rhs.wf() && self@ == rhs@ {
                lemma_terms_unique(self.terms(), rhs.terms());
            }
        }
        if self.elements.len() != rhs.elements.len() {
            proof {
                assert(self.terms().len() == self.elements@.len());
                assert(rhs.terms().len() == rhs.elements@.len());
                assert(self.terms() != rhs.terms());
            }
            return false;
        }
        let mut i: usize = 0;
        while i < self.elements.len()
            invariant
                i <= self.elements.len(),
                self.elements.len() == rhs.elements.len(),
                self.wf() && rhs.wf() && self@ == rhs@ ==> self.terms() == rhs.terms(),
                forall|k: int| 0 <= k < i ==> #[trigger] self.terms()[k] == rhs.terms()[k],
            decreases self.elements.len() - i,
        {
            proof {
                Rational::lemma_view_injective(self.elements[i as int].1, rhs.elements[i as int].1);
            }
            let same = match base_order(&self.elements[i].0, &rhs.elements[i].0) {
                Rank::Equal => self.elements[i].1 == rhs.elements[i].1,
                _ => false,
            };
            if !same {
                assert(self.terms()[i as int] != rhs.terms()[i as int]);
                return false;
            }
            i += 1;
        }
        assert(self.terms() =~= rhs.terms());
        true
    }

    /// Compares two polynomials: by the number of terms, then by their
    /// monomials in turn.
    pub fn compare(&self, rhs: &Poly) -> (r: Rank)
        ensures
            r == terms_order(self.terms(), rhs.terms()),
    {
        if self.elements.len() < rhs.elements.len() {
            return Rank::Less;
        }
        if self.elements.len() > rhs.elements.len() {
            return Rank::Greater;
        }
        let mut i: usize = 0;
        while i < self.elements.len()
            invariant
                i <= self.elements.len(),
                self.elements.len() == rhs.elements.len(),
                terms_order_from(self.terms(), rhs.terms(), i as int) == terms_order(self.terms(), rhs.terms()),
            decreases self.elements.len() - i,
        {
            match base_order(&self.elements[i].0, &rhs.elements[i].0) {
                Rank::Less => {
                    return Rank::Less;
                },
                Rank::Greater => {
                    return Rank::Greater;
                },
                Rank::Equal => {
                    proof {
                        lemma_mono_lt_irreflexive(self.terms()[i as int].base);
                    }
                },
            }
            i += 1;
        }
        Rank::Equal
    }
}

} // verus!
