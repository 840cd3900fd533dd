//! Laws of the expression builder: results do not depend on the order in
//! which an expression was built, and arithmetic on tuples is arithmetic
//! on their elements.

use vstd::prelude::*;
use vstd::arithmetic::power::lemma_pow1;
use crate::builder::{
    arith_spec, collect_spec, leaf_spec, parts_of, pow_spec, repeated, tuple_spec, uniform_spec, zip_spec, Error,
    NodeResult, Operation,
};
use crate::lift::{mono_single, node_poly, poly_constant, pow_i_spec};
use crate::monomial::{mono_below, mono_mul, mono_pow, mono_wf, Monomial};
use crate::node::{
    intern_spec, lemma_intern, node_below, node_ok, store_extends, store_wf, NodeRc, NodeView, Store,
};
use crate::poly::{
    canon, lemma_poly_add, lemma_poly_add_associative, lemma_poly_add_below,
    lemma_poly_add_commutative, lemma_poly_add_zero, lemma_poly_term, mul_sum, poly_add, poly_below,
    poly_fits, poly_get, poly_mul, poly_rational, poly_term, poly_wf, poly_zero, row_sum, term_mul,
    PolyError, PolyMap, Term,
};
use crate::poly_laws::{lemma_canon_term, lemma_one_stored, poly_one, unit_term};
use crate::rational::{lemma_int_reduced, lemma_rat_mul_one, rat_one, rat_pow, rat_zero};

verus! {

/// Whether the handle belongs to the store and is no tuple.
pub open spec fn is_scalar(s: Store, h: NodeRc) -> bool {
    h.id < s.len() && !(s[h.id as int] is Tuple)
}

/// A node of a well-formed store, as a polynomial, is well formed and has
/// no bases but handles of the store.
pub proof fn lemma_node_poly(s: Store, h: NodeRc)
    requires
        store_wf(s),
        h.id < s.len(),
    ensures
        poly_wf(node_poly(s, h)),
        poly_below(node_poly(s, h), s.len() as int),
{
    lemma_int_reduced(1);
    assert(node_ok(s[h.id as int]));
    assert(node_below(s[h.id as int], h.id as int));
    match s[h.id as int] {
        NodeView::Poly(p) => {
            assert forall|m: Monomial| #[trigger] p.dom().contains(m) implies mono_below(m, s.len() as int) by {
                assert(mono_below(m, h.id as int));
            }
        },
        _ => {
            let m = mono_single(h, 1);
            assert(mono_wf(m));
            lemma_poly_term(m, rat_one());
            assert(mono_below(m, s.len() as int));
        },
    }
}

/// The sum of two scalars that can be stored: the store stays well formed,
/// keeps its nodes, and holds the sum of the two polynomials under the
/// handle that is returned.
pub proof fn lemma_scalar_add(s: Store, a: NodeRc, b: NodeRc)
    requires
        store_wf(s),
        s.len() <= usize::MAX,
        is_scalar(s, a),
        is_scalar(s, b),
    ensures
        uniform_spec(s, Operation::Add, a, b).1 is Ok <==> poly_fits(poly_add(node_poly(s, a), node_poly(s, b))),
        uniform_spec(s, Operation::Add, a, b).1 matches Ok(h) ==> {
            let t = uniform_spec(s, Operation::Add, a, b).0;
            &&& store_wf(t)
            &&& store_extends(s, t)
            &&& t.len() <= s.len() + 1
            &&& h.id < t.len()
            &&& t[h.id as int] == NodeView::Poly(poly_add(node_poly(s, a), node_poly(s, b)))
            &&& node_poly(t, h) == poly_add(node_poly(s, a), node_poly(s, b))
        },
{
    let sum = poly_add(node_poly(s, a), node_poly(s, b));
    lemma_node_poly(s, a);
    lemma_node_poly(s, b);
    lemma_poly_add(node_poly(s, a), node_poly(s, b));
    lemma_poly_add_below(node_poly(s, a), node_poly(s, b), s.len() as int);
    assert(uniform_spec(s, Operation::Add, a, b) == leaf_spec(s, Operation::Add, a, b));
    if poly_fits(sum) {
        lemma_intern(s, NodeView::Poly(sum));
    }
}

/// A node keeps its polynomial in every store that extends its own.
pub proof fn lemma_node_poly_extends(s: Store, t: Store, h: NodeRc)
    requires
        store_extends(s, t),
        h.id < s.len(),
    ensures
        node_poly(t, h) == node_poly(s, h),
        is_scalar(s, h) ==> is_scalar(t, h),
{
    assert(t[h.id as int] == s[h.id as int]);
}

/// The sum of scalars does not depend on their order: `b + a` gives the
/// handle of `a + b`, and leaves the store as it is.
pub proof fn lemma_add_commutative(s: Store, a: NodeRc, b: NodeRc)
    requires
        store_wf(s),
        s.len() < usize::MAX,
        is_scalar(s, a),
        is_scalar(s, b),
        uniform_spec(s, Operation::Add, a, b).1 is Ok,
    ensures
        uniform_spec(uniform_spec(s, Operation::Add, a, b).0, Operation::Add, b, a) == uniform_spec(
            s,
            Operation::Add,
            a,
            b,
        ),
{
    let (t, r) = uniform_spec(s, Operation::Add, a, b);
    let h = r->Ok_0;
    lemma_scalar_add(s, a, b);
    lemma_node_poly_extends(s, t, a);
    lemma_node_poly_extends(s, t, b);
    lemma_scalar_add(t, b, a);
    lemma_poly_add_commutative(node_poly(s, a), node_poly(s, b));
    let v = NodeView::Poly(poly_add(node_poly(s, a), node_poly(s, b)));
    assert(t[h.id as int] == v);
    assert(uniform_spec(t, Operation::Add, b, a) == leaf_spec(t, Operation::Add, b, a));
    let g = crate::node::store_find(t, v);
    assert(t[g.id as int] == v);
}

/// Sums of scalars do not depend on their grouping: `(a + b) + c` and
/// `a + (b + c)`, built one after the other in either order of
/// construction, have the same handle.
pub proof fn lemma_add_associative(s: Store, a: NodeRc, b: NodeRc, c: NodeRc)
    requires
        store_wf(s),
        s.len() + 4 <= usize::MAX,
        is_scalar(s, a),
        is_scalar(s, b),
        is_scalar(s, c),
    ensures
        ({
            let (s1, ab) = uniform_spec(s, Operation::Add, a, b);
            let (s2, left) = uniform_spec(s1, Operation::Add, ab->Ok_0, c);
            let (s3, bc) = uniform_spec(s2, Operation::Add, b, c);
            let (s4, right) = uniform_spec(s3, Operation::Add, a, bc->Ok_0);
            ab is Ok && left is Ok && bc is Ok && right is Ok ==> left == right
        }),
{
    let (s1, ab) = uniform_spec(s, Operation::Add, a, b);
    let (s2, left) = uniform_spec(s1, Operation::Add, ab->Ok_0, c);
    let (s3, bc) = uniform_spec(s2, Operation::Add, b, c);
    let (s4, right) = uniform_spec(s3, Operation::Add, a, bc->Ok_0);
    if ab is Ok && left is Ok && bc is Ok && right is Ok {
        let (pa, pb, pc) = (node_poly(s, a), node_poly(s, b), node_poly(s, c));
        lemma_node_poly(s, a);
        lemma_node_poly(s, b);
        lemma_node_poly(s, c);
        lemma_scalar_add(s, a, b);
        lemma_node_poly_extends(s, s1, c);
        lemma_scalar_add(s1, ab->Ok_0, c);
        assert(store_extends(s, s2));
        lemma_node_poly_extends(s, s2, a);
        lemma_node_poly_extends(s, s2, b);
        lemma_node_poly_extends(s, s2, c);
        lemma_scalar_add(s2, b, c);
        assert(store_extends(s, s3));
        lemma_node_poly_extends(s, s3, a);
        lemma_scalar_add(s3, a, bc->Ok_0);
        lemma_poly_add_associative(pa, pb, pc);
        assert(store_extends(s2, s4));
        let (l, r) = (left->Ok_0, right->Ok_0);
        assert(s4[l.id as int] == s2[l.id as int]);
        assert(s4[l.id as int] == s4[r.id as int]);
    }
}

/// An operation on scalars keeps every node of the store.
pub proof fn lemma_leaf_extends(s: Store, op: Operation, a: NodeRc, b: NodeRc)
    ensures
        store_extends(s, leaf_spec(s, op, a, b).0),
{
    let t = arith_spec(s, op, a, b).0;
    assert(store_extends(s, t));
    assert(store_extends(t, leaf_spec(s, op, a, b).0) || op is Func);
}

/// Arithmetic on a pair and a scalar is arithmetic on the elements:
/// `(x, y) op k` is the tuple of `x op k` and `y op k`, built in that
/// order, where `x op k` does not fail.
pub proof fn lemma_broadcast_pair(s: Store, op: Operation, t: NodeRc, x: NodeRc, y: NodeRc, k: NodeRc)
    requires
        !op.unary(),
        t.id < s.len(),
        s[t.id as int] == NodeView::Tuple(seq![x, y]),
        is_scalar(s, x),
        is_scalar(s, y),
        is_scalar(s, k),
        uniform_spec(s, op, x, k).1 is Ok,
    ensures
        ({
            let (s1, first) = uniform_spec(s, op, x, k);
            let (s2, second) = uniform_spec(s1, op, y, k);
            uniform_spec(s, op, t, k) == tuple_spec((s2, collect_spec(seq![first, second])))
        }),
{
    let f = |u: Store, p: NodeRc, q: NodeRc| leaf_spec(u, op, p, q);
    let xs = seq![x, y];
    let ys = repeated(k, 2);
    let (s1, first) = uniform_spec(s, op, x, k);
    let (s2, second) = uniform_spec(s1, op, y, k);
    assert(uniform_spec(s, op, t, k) == tuple_spec(zip_spec(s, f, xs, ys)));
    assert(uniform_spec(s, op, x, k) == leaf_spec(s, op, x, k));
    lemma_leaf_extends(s, op, x, k);
    assert(s1[y.id as int] == s[y.id as int]);
    assert(s1[k.id as int] == s[k.id as int]);
    assert(uniform_spec(s1, op, y, k) == leaf_spec(s1, op, y, k));
    // the pairs, one after the other
    let xs1 = xs.drop_last();
    let ys1 = ys.drop_last();
    assert(xs1 =~= seq![x] && ys1 =~= seq![k]);
    assert(xs1.drop_last() =~= Seq::<NodeRc>::empty());
    assert(zip_spec(s, f, xs1.drop_last(), ys1.drop_last()) == (s, Ok::<Seq<NodeRc>, Error>(Seq::empty())));
    assert(xs1.last() == x && ys1.last() == k);
    assert(xs.last() == y && ys.last() == k);
    // the results, collected
    let items: Seq<NodeResult> = seq![first, second];
    let items1 = items.drop_last();
    assert(items1 =~= seq![first]);
    assert(items1.drop_last() =~= Seq::<NodeResult>::empty());
    assert(collect_spec(items1.drop_last()) == Ok::<Seq<NodeRc>, Error>(Seq::empty()));
    assert(items1.last() == first);
    assert(items.last() == second);
    let h = first->Ok_0;
    let one = Seq::<NodeRc>::empty().push(h);
    assert(zip_spec(s, f, xs1, ys1) == (s1, Ok::<Seq<NodeRc>, Error>(one)));
    assert(collect_spec(items1) == Ok::<Seq<NodeRc>, Error>(one));
    match second {
        Ok(g) => {
            assert(zip_spec(s, f, xs, ys) == (s2, Ok::<Seq<NodeRc>, Error>(one.push(g))));
            assert(collect_spec(items) == Ok::<Seq<NodeRc>, Error>(one.push(g)));
        },
        Err(e) => {
            assert(zip_spec(s, f, xs, ys) == (s2, Err::<Seq<NodeRc>, Error>(e)));
            assert(collect_spec(items) == Err::<Seq<NodeRc>, Error>(e));
        },
    }
}

/// Tuples of different lengths do not go together: the operation fails
/// with both lengths and leaves the store as it is.
pub proof fn lemma_shape_mismatch(s: Store, op: Operation, a: NodeRc, b: NodeRc)
    requires
        !op.unary(),
        parts_of(s, a) is Some,
        parts_of(s, b) is Some,
        parts_of(s, a)->Some_0.len() != parts_of(s, b)->Some_0.len(),
    ensures
        uniform_spec(s, op, a, b) == (
            s,
            Err::<NodeRc, Error>(
                Error::ShapeMismatch(
                    parts_of(s, a)->Some_0.len() as usize,
                    parts_of(s, b)->Some_0.len() as usize,
                ),
            ),
        ),
        pow_spec(s, a, b) == uniform_spec(s, op, a, b),
{
}

/// A variable or a function application divided by itself is 1.
pub proof fn lemma_div_self(s: Store, a: NodeRc)
    requires
        a.id < s.len(),
        s[a.id as int] is Var || s[a.id as int] is Func,
    ensures
        uniform_spec(s, Operation::Div, a, a) == (
            intern_spec(s, NodeView::Poly(poly_one())).0,
            Ok::<NodeRc, Error>(intern_spec(s, NodeView::Poly(poly_one())).1),
        ),
{
    let m = mono_single(a, 1);
    let inverse = mono_single(a, -1);
    let empty = Seq::<(NodeRc, int)>::empty();
    let p = node_poly(s, a);
    let t = Term { base: m, fac: rat_one() };
    let u = Term { base: inverse, fac: rat_one() };
    let q = poly_term(inverse, rat_one());
    lemma_int_reduced(1);
    assert(mono_wf(m));
    assert(mono_wf(inverse));
    lemma_canon_term(m, rat_one());
    lemma_canon_term(inverse, rat_one());
    // the node is no constant
    assert(p.dom().contains(m));
    assert(m != empty) by {
        assert(m.len() == 1);
    }
    assert(poly_get(p, empty) == rat_zero());
    assert(!poly_rational(rat_zero()).dom().contains(m));
    assert(poly_constant(p) is None);
    // its power -1
    lemma_pow1(1);
    assert(rat_pow(rat_one(), -1) == rat_one());
    assert(mono_pow(m, -1) =~= inverse);
    assert(canon(p)[0] == t);
    assert(pow_i_spec(s, p, -1) == (s, Ok::<PolyMap, PolyError>(q)));
    // the product of the two
    let one = seq![t];
    let other = seq![u];
    assert(one.drop_last() =~= Seq::<Term>::empty());
    assert(other.drop_last() =~= Seq::<Term>::empty());
    assert(one.last() == t && other.last() == u);
    assert(m.skip(1) =~= empty && inverse.skip(1) =~= empty);
    assert(mono_mul(m.skip(1), inverse.skip(1)) == empty);
    assert(mono_mul(m, inverse) == empty);
    lemma_rat_mul_one(rat_one());
    assert(term_mul(t, u) == unit_term());
    lemma_one_stored();
    lemma_poly_add_zero(poly_one());
    assert(mul_sum(one.drop_last(), other) == Some(poly_zero()));
    assert(row_sum(Some(poly_zero()), t, other.drop_last()) == Some(poly_zero()));
    assert(mul_sum(one, other) == Some(poly_one()));
    assert(poly_mul(p, q) == Some(poly_one()));
    assert(uniform_spec(s, Operation::Div, a, a) == leaf_spec(s, Operation::Div, a, a));
}

} // verus!
