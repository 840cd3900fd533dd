//! Polynomials over the nodes of a store: a node as a polynomial, and
//! integer powers, which may put a polynomial into the store as a base.

use vstd::prelude::*;
use crate::monomial::{base_pow, base_view, lemma_mono_pow_wf, mono_below, mono_pow, Base, Monomial};
use crate::node::{intern_spec, lemma_intern, node_below, store_extends, Cache, Node, NodeRc, NodeView, Store};
use crate::poly::{
    canon, poly_below, poly_get, poly_pow_n, poly_rational, poly_term, term_fits, term_wf, Poly,
    PolyError, PolyMap, Term,
};
use crate::rational::{
    fits, lemma_int_reduced, lemma_rat_pow, lemma_zero_unique, rat_one, rat_pow, Fraction, Rational,
};

verus! {

/// The monomial that is the single base `h` to the power `e`.
pub open spec fn mono_single(h: NodeRc, e: int) -> Monomial {
    seq![(h, e)]
}

/// A node as a polynomial: a polynomial node is its polynomial, any other
/// node the monomial of degree 1 with itself as the base.
pub open spec fn node_poly(s: Store, h: NodeRc) -> PolyMap {
    match s[h.id as int] {
        NodeView::Poly(p) => p,
        _ => poly_term(mono_single(h, 1), rat_one()),
    }
}

/// The rational that a polynomial is, if it is a constant.
pub open spec fn poly_constant(p: PolyMap) -> Option<Fraction> {
    let c = poly_get(p, Seq::empty());
    if p == poly_rational(c) {
        Some(c)
    } else {
        None
    }
}

/// The power `i` of a polynomial and the store afterwards.
///
/// The power 0 is one. A constant is raised exactly; zero has no negative
/// power. A single term has its exponents multiplied by `i` and its
/// coefficient raised. Another polynomial is multiplied out for `i` from 1
/// to 3, and else interned and taken as the base of a new monomial.
pub open spec fn pow_i_spec(s: Store, p: PolyMap, i: int) -> (Store, Result<PolyMap, PolyError>) {
    if i == 0 {
        (s, Ok(poly_rational(rat_one())))
    } else if let Some(c) = poly_constant(p) {
        if c.num == 0 && i < 0 {
            (s, Err(PolyError::DivZero))
        } else if fits(rat_pow(c, i)) {
            (s, Ok(poly_rational(rat_pow(c, i))))
        } else {
            (s, Err(PolyError::Overflow))
        }
    } else if canon(p).len() == 1 {
        let t = canon(p)[0];
        let u = Term { base: mono_pow(t.base, i), fac: rat_pow(t.fac, i) };
        if term_fits(u) {
            (s, Ok(poly_term(u.base, u.fac)))
        } else {
            (s, Err(PolyError::Overflow))
        }
    } else if 0 < i < 4 {
        match poly_pow_n(p, i as nat) {
            Some(q) => (s, Ok(q)),
            None => (s, Err(PolyError::Overflow)),
        }
    } else {
        let (t, h) = intern_spec(s, NodeView::Poly(p));
        (t, Ok(poly_term(mono_single(h, i), rat_one())))
    }
}

/// The stored monomial with the single base `h` to the power `e`.
pub fn base_single(h: NodeRc, e: i64) -> (r: Base)
    ensures
        base_view(r@) == mono_single(h, e as int),
{
    let mut base: Base = Vec::new();
    base.push((h, e));
    assert(base_view(base@) =~= mono_single(h, e as int));
    base
}

/// Handles below `n` are below everything above `n`.
pub proof fn lemma_poly_below_more(p: PolyMap, n: int, m: int)
    requires
        poly_below(p, n),
        n <= m,
    ensures
        poly_below(p, m),
{
    assert forall|k: Monomial| #[trigger] p.dom().contains(k) implies mono_below(k, m) by {
        assert(mono_below(k, n));
    }
}

impl Poly {
    /// The node as a polynomial.
    pub fn from_node(cache: &Cache, node: NodeRc) -> (r: Poly)
        requires
            cache.wf(),
            node.id < cache@.len(),
        ensures
            r.wf(),
            r@ == node_poly(cache@, node),
            poly_below(r@, cache@.len() as int),
    {
        proof {
            cache.lemma_wf();
            assert(node_below(cache@[node.id as int], node.id as int));
        }
        match cache.get(node) {
            Node::Poly(p) => {
                proof {
                    lemma_poly_below_more(p@, node.id as int, cache@.len() as int);
                }
                p.clone()
            },
            _ => {
                proof {
                    lemma_int_reduced(1);
                }
                Poly::one(base_single(node, 1), Rational::from_int(1))
            },
        }
    }

    /// The power `i`. A polynomial that is not multiplied out goes into
    /// the store.
    pub fn pow_i(self, cache: &mut Cache, i: i32) -> (r: Result<Poly, PolyError>)
        requires
            old(cache).wf(),
            self.wf(),
            poly_below(self@, old(cache)@.len() as int),
        ensures
            final(cache).wf(),
            store_extends(old(cache)@, final(cache)@),
            r matches Ok(q) ==> q.wf() && poly_below(q@, final(cache)@.len() as int) && pow_i_spec(
                old(cache)@,
                self@,
                i as int,
            ) == (final(cache)@, Ok::<PolyMap, PolyError>(q@)),
            r matches Err(e) ==> pow_i_spec(old(cache)@, self@, i as int) == (
                final(cache)@,
                Err::<PolyMap, PolyError>(e),
            ),
    {
        let ghost s = cache@;
        let ghost n = s.len() as int;
        proof {
            self.lemma_stored();
            lemma_int_reduced(1);
            cache.lemma_wf();
        }
        if i == 0 {
            return Ok(Poly::integer(1));
        }
        match self.as_rational() {
            Some(c) => {
                proof {
                    if c@.num == 0 {
                        lemma_zero_unique(c@);
                    }
                    assert(poly_get(self@, Seq::empty()) == c@);
                    if !(c@.num == 0 && i < 0) {
                        lemma_rat_pow(c@, i as int);
                    }
                }
                if c.is_zero() && i < 0 {
                    return Err(PolyError::DivZero);
                }
                return match c.pow(i) {
                    Some(v) => Ok(Poly::rational(v)),
                    None => Err(PolyError::Overflow),
                };
            },
            None => {},
        }
        assert(poly_constant(self@) is None);
        if self.len() == 1 {
            let (base, fac) = self.term(0);
            proof {
                let t = self.terms()[0];
                assert(term_wf(t));
                lemma_mono_pow_wf(t.base, i as int);
                lemma_rat_pow(t.fac, i as int);
                assert(self@.dom().contains(t.base)) by {
                    crate::poly::lemma_coeff_at(self.terms(), 0);
                }
                assert(mono_below(t.base, n));
                assert(mono_below(mono_pow(t.base, i as int), n));
            }
            let b = match base_pow(base, i) {
                Some(b) => b,
                None => {
                    return Err(PolyError::Overflow);
                },
            };
            let f = match fac.pow(i) {
                Some(f) => f,
                None => {
                    return Err(PolyError::Overflow);
                },
            };
            return Ok(Poly::one(b, f));
        }
        if i > 0 && i < 4 {
            return self.pow_n(i as u32);
        }
        let ghost p = self@;
        let _ = cache.len();
        let h = cache.intern(Node::Poly(self));
        proof {
            lemma_intern(s, NodeView::Poly(p));
            assert(mono_below(mono_single(h, i as int), cache@.len() as int));
        }
        Ok(Poly::one(base_single(h, i as i64), Rational::from_int(1)))
    }
}

} // verus!
