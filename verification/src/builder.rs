//! The expression builder: it makes nodes through the interning store and
//! keeps every arithmetic result in canonical polynomial form.
//!
//! What an operation does is stated by a spec function from the store
//! before to the store after and the result. Arithmetic on tuples is done
//! element by element, from the first element on, and stops at the first
//! failure.

use vstd::prelude::*;
use crate::decimal::{lemma_ten_power_monotone, parse_i64, parse_i64_spec, ten_power};
use crate::func::{Func, Transient};
use crate::lift::{lemma_poly_below_more, node_poly, poly_constant, pow_i_spec};
use crate::node::{
    handles_below, intern_spec, lemma_intern, node_below, node_ok, store_extends, store_has, store_wf,
    Cache, Node, NodeRc, NodeView, Store,
};
use crate::monomial::{base_view, mono_below, Base, Monomial};
use crate::poly::{
    canon, lemma_poly_add_below, lemma_poly_mul_below, lemma_poly_scale_below, poly_add, poly_below,
    poly_fits, poly_get, poly_mul, poly_rational, poly_scale, Poly, PolyError, PolyMap, Term,
};
use crate::rational::{lemma_int_reduced, rat_int, Rational};

verus! {

/// Why the builder could not make an expression.
#[derive(Debug, Clone, Copy, PartialEq, Eq, Structural)]
pub enum Error {
    /// The digits of a literal are not an integer.
    IntegerError,
    /// Tuples of these two lengths do not go together.
    ShapeMismatch(usize, usize),
    /// Zero was raised to a negative power.
    DivZero,
    /// A coefficient or an exponent of the result cannot be stored.
    Overflow,
    /// Arrays are not implemented.
    NotImplemented,
}

pub type NodeResult = Result<NodeRc, Error>;

/// The store after an operation, and its result.
pub type Outcome = (Store, Result<NodeRc, Error>);

/// The builder's error for a failure of polynomial arithmetic.
pub open spec fn poly_error(e: PolyError) -> Error {
    match e {
        PolyError::DivZero => Error::DivZero,
        PolyError::Overflow => Error::Overflow,
    }
}

impl Error {
    /// The builder's error for a failure of polynomial arithmetic.
    pub fn from_poly(e: PolyError) -> (r: Error)
        ensures
            r == poly_error(e),
    {
        match e {
            PolyError::DivZero => Error::DivZero,
            PolyError::Overflow => Error::Overflow,
        }
    }
}

/// The operations that are applied to the elements of tuples.
#[derive(Debug, Clone, Copy, PartialEq, Eq, Structural)]
pub enum Operation {
    Add,
    Sub,
    Mul,
    Div,
    /// The power with this exponent.
    PowI(i32),
    /// The application of this function.
    Func(Func),
}

impl Operation {
    /// Whether the operation has one operand only.
    pub open spec fn unary(self) -> bool {
        self is PowI || self is Func
    }

    /// Whether the operation has one operand only.
    pub fn is_unary(self) -> (r: bool)
        ensures
            r == self.unary(),
    {
        match self {
            Operation::PowI(_) => true,
            Operation::Func(_) => true,
            _ => false,
        }
    }
}

/// The polynomial, if it can be stored.
pub open spec fn checked(p: PolyMap) -> Result<PolyMap, PolyError> {
    if poly_fits(p) {
        Ok(p)
    } else {
        Err(PolyError::Overflow)
    }
}

/// The product, if it can be stored.
pub open spec fn checked_mul(a: PolyMap, b: PolyMap) -> Result<PolyMap, PolyError> {
    match poly_mul(a, b) {
        Some(p) => Ok(p),
        None => Err(PolyError::Overflow),
    }
}

/// The polynomial that an arithmetic operation on two scalars gives, and
/// the store afterwards. `a - b` is `a + (-1) * b`, and `a / b` is
/// `a * b^-1`.
pub open spec fn arith_spec(s: Store, op: Operation, a: NodeRc, b: NodeRc) -> (Store, Result<PolyMap, PolyError>) {
    let pa = node_poly(s, a);
    let pb = node_poly(s, b);
    match op {
        Operation::Add => (s, checked(poly_add(pa, pb))),
        Operation::Sub => {
            let nb = poly_scale(pb, rat_int(-1));
            if poly_fits(nb) {
                (s, checked(poly_add(pa, nb)))
            } else {
                (s, Err(PolyError::Overflow))
            }
        },
        Operation::Mul => (s, checked_mul(pa, pb)),
        Operation::Div => {
            let (t, r) = pow_i_spec(s, pb, -1);
            match r {
                Ok(q) => (t, checked_mul(pa, q)),
                Err(e) => (t, Err(e)),
            }
        },
        Operation::PowI(i) => pow_i_spec(s, pa, i as int),
        Operation::Func(_) => (s, Ok(pa)),
    }
}

/// An operation on scalars: the function application or the polynomial is
/// interned.
pub open spec fn leaf_spec(s: Store, op: Operation, a: NodeRc, b: NodeRc) -> Outcome {
    match op {
        Operation::Func(f) => {
            let (t, h) = intern_spec(s, NodeView::Func(f, a));
            (t, Ok(h))
        },
        _ => {
            let (t, r) = arith_spec(s, op, a, b);
            match r {
                Ok(p) => {
                    let (u, h) = intern_spec(t, NodeView::Poly(p));
                    (u, Ok(h))
                },
                Err(e) => (t, Err(poly_error(e))),
            }
        },
    }
}

/// `f` applied to the pairs of `xs` and `ys` in turn, each in the store
/// that the one before left; the first failure ends it.
pub open spec fn zip_spec(
    s: Store,
    f: spec_fn(Store, NodeRc, NodeRc) -> Outcome,
    xs: Seq<NodeRc>,
    ys: Seq<NodeRc>,
) -> (Store, Result<Seq<NodeRc>, Error>)
    decreases xs.len(),
{
    if xs.len() == 0 {
        (s, Ok(Seq::empty()))
    } else {
        let (t, r) = zip_spec(s, f, xs.drop_last(), ys.drop_last());
        match r {
            Err(e) => (t, Err(e)),
            Ok(hs) => {
                let (u, q) = f(t, xs.last(), ys.last());
                match q {
                    Err(e) => (u, Err(e)),
                    Ok(h) => (u, Ok(hs.push(h))),
                }
            },
        }
    }
}

/// The tuple of the handles, interned, if there was no failure.
pub open spec fn tuple_spec(step: (Store, Result<Seq<NodeRc>, Error>)) -> Outcome {
    match step.1 {
        Ok(hs) => {
            let (u, h) = intern_spec(step.0, NodeView::Tuple(hs));
            (u, Ok(h))
        },
        Err(e) => (step.0, Err(e)),
    }
}

/// The parts of a tuple node.
pub open spec fn parts_of(s: Store, h: NodeRc) -> Option<Seq<NodeRc>> {
    match s[h.id as int] {
        NodeView::Tuple(parts) => Some(parts),
        _ => None,
    }
}

/// `n` times the handle `h`.
pub open spec fn repeated(h: NodeRc, n: nat) -> Seq<NodeRc> {
    Seq::new(n, |i: int| h)
}

/// The broadcasting rule. Two tuples must have the same length, and `f` is
/// applied to their elements in pairs. With one tuple, `f` is applied to
/// each of its elements and the other operand. Without a tuple, `f` is
/// applied to the operands. `second` says whether the second operand counts.
pub open spec fn broadcast_spec(
    s: Store,
    f: spec_fn(Store, NodeRc, NodeRc) -> Outcome,
    second: bool,
    a: NodeRc,
    b: NodeRc,
) -> Outcome {
    let ta = parts_of(s, a);
    let tb = if second { parts_of(s, b) } else { None };
    match (ta, tb) {
        (Some(xs), Some(ys)) => {
            if xs.len() != ys.len() {
                (s, Err(Error::ShapeMismatch(xs.len() as usize, ys.len() as usize)))
            } else {
                tuple_spec(zip_spec(s, f, xs, ys))
            }
        },
        (Some(xs), None) => tuple_spec(zip_spec(s, f, xs, repeated(b, xs.len()))),
        (None, Some(ys)) => tuple_spec(zip_spec(s, f, repeated(a, ys.len()), ys)),
        (None, None) => f(s, a, b),
    }
}

/// An operation with broadcasting over tuples.
pub open spec fn uniform_spec(s: Store, op: Operation, a: NodeRc, b: NodeRc) -> Outcome {
    broadcast_spec(s, |t: Store, x: NodeRc, y: NodeRc| leaf_spec(t, op, x, y), !op.unary(), a, b)
}

/// The exponent that a node is, if it is an integer constant that fits
/// into 32 bits.
pub open spec fn exponent_of(s: Store, b: NodeRc) -> Option<i32> {
    match s[b.id as int] {
        NodeView::Poly(p) => match poly_constant(p) {
            Some(c) => if c.den == 1 && i32::MIN <= c.num <= i32::MAX {
                Some(c.num as i32)
            } else {
                None
            },
            None => None,
        },
        _ => None,
    }
}

/// The power of two scalars: with an integer constant as the exponent the
/// exact power, else `exp(b * log(a))`.
pub open spec fn pow_elem_spec(s: Store, a: NodeRc, b: NodeRc) -> Outcome {
    match exponent_of(s, b) {
        Some(i) => uniform_spec(s, Operation::PowI(i), a, a),
        None => {
            let (s1, r1) = uniform_spec(s, Operation::Func(Func::Transient(Transient::Log)), a, a);
            match r1 {
                Err(e) => (s1, Err(e)),
                Ok(g) => {
                    let (s2, r2) = uniform_spec(s1, Operation::Mul, g, b);
                    match r2 {
                        Err(e) => (s2, Err(e)),
                        Ok(m) => uniform_spec(s2, Operation::Func(Func::Transient(Transient::Exp)), m, m),
                    }
                },
            }
        },
    }
}

/// The power, with broadcasting over tuples.
pub open spec fn pow_spec(s: Store, a: NodeRc, b: NodeRc) -> Outcome {
    broadcast_spec(s, |t: Store, x: NodeRc, y: NodeRc| pow_elem_spec(t, x, y), true, a, b)
}

/// The negation: `-1` is interned, and multiplied with the operand.
pub open spec fn neg_spec(s: Store, a: NodeRc) -> Outcome {
    let (t, minus) = intern_spec(s, NodeView::Poly(poly_rational(rat_int(-1))));
    uniform_spec(t, Operation::Mul, minus, a)
}

/// The handles of the results up to the first failure, or that failure.
pub open spec fn collect_spec(items: Seq<NodeResult>) -> Result<Seq<NodeRc>, Error>
    decreases items.len(),
{
    if items.len() == 0 {
        Ok(Seq::empty())
    } else {
        match collect_spec(items.drop_last()) {
            Err(e) => Err(e),
            Ok(hs) => match items.last() {
                Err(e) => Err(e),
                Ok(h) => Ok(hs.push(h)),
            },
        }
    }
}

/// The items combined with `op` from the left, starting from `init`; the
/// first failure, of an item or of a step, ends it.
pub open spec fn fold_spec(s: Store, op: Operation, init: NodeRc, items: Seq<NodeResult>) -> Outcome
    decreases items.len(),
{
    if items.len() == 0 {
        (s, Ok(init))
    } else {
        let (t, r) = fold_spec(s, op, init, items.drop_last());
        match r {
            Err(e) => (t, Err(e)),
            Ok(acc) => match items.last() {
                Err(e) => (t, Err(e)),
                Ok(x) => uniform_spec(t, op, acc, x),
            },
        }
    }
}

/// The sum of the items: zero is interned, and the items added to it.
pub open spec fn sum_spec(s: Store, items: Seq<NodeResult>) -> Outcome {
    let (t, zero) = intern_spec(s, NodeView::Poly(poly_rational(rat_int(0))));
    fold_spec(t, Operation::Add, zero, items)
}

/// The product of the items: one is interned, and multiplied by the items.
pub open spec fn product_spec(s: Store, items: Seq<NodeResult>) -> Outcome {
    let (t, one) = intern_spec(s, NodeView::Poly(poly_rational(rat_int(1))));
    fold_spec(t, Operation::Mul, one, items)
}

/// A failure in the first `k` pairs is the failure of the whole.
pub proof fn lemma_zip_failure(
    s: Store,
    f: spec_fn(Store, NodeRc, NodeRc) -> Outcome,
    xs: Seq<NodeRc>,
    ys: Seq<NodeRc>,
    k: int,
)
    requires
        0 <= k <= xs.len(),
        xs.len() == ys.len(),
    ensures
        zip_spec(s, f, xs.take(k), ys.take(k)).1 is Err ==> zip_spec(s, f, xs, ys) == zip_spec(s, f, xs.take(k), ys.take(k)),
    decreases xs.len() - k,
{
    if k < xs.len() {
        assert(xs.take(k + 1).drop_last() =~= xs.take(k));
        assert(ys.take(k + 1).drop_last() =~= ys.take(k));
        lemma_zip_failure(s, f, xs, ys, k + 1);
    } else {
        assert(xs.take(k) =~= xs);
        assert(ys.take(k) =~= ys);
    }
}

/// A failure in the first `k` items is the failure of the whole.
pub proof fn lemma_fold_failure(s: Store, op: Operation, init: NodeRc, items: Seq<NodeResult>, k: int)
    requires
        0 <= k <= items.len(),
    ensures
        fold_spec(s, op, init, items.take(k)).1 is Err ==> fold_spec(s, op, init, items) == fold_spec(s, op, init, items.take(k)),
    decreases items.len() - k,
{
    if k < items.len() {
        assert(items.take(k + 1).drop_last() =~= items.take(k));
        lemma_fold_failure(s, op, init, items, k + 1);
    } else {
        assert(items.take(k) =~= items);
    }
}

/// A failure among the first `k` items is the failure of the whole.
pub proof fn lemma_collect_failure(items: Seq<NodeResult>, k: int)
    requires
        0 <= k <= items.len(),
    ensures
        collect_spec(items.take(k)) is Err ==> collect_spec(items) == collect_spec(items.take(k)),
    decreases items.len() - k,
{
    if k < items.len() {
        assert(items.take(k + 1).drop_last() =~= items.take(k));
        lemma_collect_failure(items, k + 1);
    } else {
        assert(items.take(k) =~= items);
    }
}

/// A named function: its parameters and its body.
#[derive(Debug)]
pub struct Definition {
    pub name: String,
    pub args: Vec<String>,
    pub expr: NodeRc,
}

/// The mathematical value of a definition.
pub struct DefView {
    pub name: Seq<char>,
    pub args: Seq<Seq<char>>,
    pub expr: NodeRc,
}

/// The texts of a list of strings.
pub open spec fn strings_view(v: Seq<String>) -> Seq<Seq<char>> {
    Seq::new(v.len(), |i: int| v[i]@)
}

impl View for Definition {
    type V = DefView;

    open spec fn view(&self) -> DefView {
        DefView { name: self.name@, args: strings_view(self.args@), expr: self.expr }
    }
}

/// The expression builder. It owns the interning store and the table of
/// named functions.
pub struct Builder {
    cache: Cache,
    defs: Vec<Definition>,
}

/// What every operation of the builder keeps and gives: the invariant, the
/// handles given out before, the definitions, and the stated outcome.
pub open spec fn advanced(before: Builder, after: Builder, r: NodeResult, expected: Outcome) -> bool {
    &&& after.wf()
    &&& store_extends(before.store(), after.store())
    &&& after.definitions() == before.definitions()
    &&& (after.store(), r) == expected
    &&& (r matches Ok(h) ==> h.id < after.store().len())
}

/// `n` times the handle `h`.
pub fn repeat(h: NodeRc, n: usize) -> (r: Vec<NodeRc>)
    ensures
        r@ == repeated(h, n as nat),
{
    let mut out: Vec<NodeRc> = Vec::new();
    let mut i: usize = 0;
    while i < n
        invariant
            i <= n,
            out@ == repeated(h, i as nat),
        decreases n - i,
    {
        out.push(h);
        i += 1;
        assert(out@ =~= repeated(h, i as nat));
    }
    out
}

impl Builder {
    /// The contents of the interning store, by handle.
    pub closed spec fn store(&self) -> Store {
        self.cache@
    }

    /// The named functions, in the order in which they were defined.
    pub closed spec fn definitions(&self) -> Seq<DefView> {
        Seq::new(self.defs@.len(), |i: int| self.defs@[i]@)
    }

    /// The invariant: the store is well formed and holds the bodies of the
    /// definitions.
    pub closed spec fn wf(&self) -> bool {
        &&& self.cache.wf()
        &&& forall|i: int| 0 <= i < self.defs@.len() ==> (#[trigger] self.defs@[i]).expr.id < self.cache@.len()
    }

    /// What the invariant says of the store and the definitions.
    pub proof fn lemma_wf(&self)
        requires
            self.wf(),
        ensures
            store_wf(self.store()),
            forall|i: int| 0 <= i < self.definitions().len() ==> (#[trigger] self.definitions()[i]).expr.id < self.store().len(),
    {
        self.cache.lemma_wf();
        assert forall|i: int| 0 <= i < self.definitions().len() implies (#[trigger] self.definitions()[i]).expr.id
            < self.store().len() by {
            assert(self.defs@[i].expr.id < self.cache@.len());
        }
    }

    /// The number of nodes in the store.
    pub fn len(&self) -> (r: usize)
        ensures
            r == self.store().len(),
    {
        self.cache.len()
    }

    /// The interning store.
    pub fn cache(&self) -> (r: &Cache)
        ensures
            r@ == self.store(),
            self.wf() ==> r.wf(),
    {
        &self.cache
    }

    /// The node behind a handle.
    pub fn node(&self, h: NodeRc) -> (r: &Node)
        requires
            h.id < self.store().len(),
        ensures
            r@ == self.store()[h.id as int],
            self.wf() ==> r.wf(),
    {
        self.cache.get(h)
    }

    /// The handle of the node in the store.
    pub fn intern(&mut self, node: Node) -> (r: NodeRc)
        requires
            old(self).wf(),
            node.wf(),
            node_ok(node@),
            node_below(node@, old(self).store().len() as int),
        ensures
            final(self).wf(),
            store_extends(old(self).store(), final(self).store()),
            final(self).definitions() == old(self).definitions(),
            (final(self).store(), r) == intern_spec(old(self).store(), node@),
            r.id < final(self).store().len(),
            final(self).store()[r.id as int] == node@,
    {
        proof {
            self.cache.lemma_wf();
        }
        let _ = self.cache.len();
        proof {
            lemma_intern(self.cache@, node@);
        }
        self.cache.intern(node)
    }

    /// The handle of the polynomial.
    pub fn poly(&mut self, p: Poly) -> (r: NodeRc)
        requires
            old(self).wf(),
            p.wf(),
            poly_below(p@, old(self).store().len() as int),
        ensures
            final(self).wf(),
            store_extends(old(self).store(), final(self).store()),
            final(self).definitions() == old(self).definitions(),
            (final(self).store(), r) == intern_spec(old(self).store(), NodeView::Poly(p@)),
            r.id < final(self).store().len(),
            final(self).store()[r.id as int] == NodeView::Poly(p@),
    {
        proof {
            p.lemma_stored();
        }
        self.intern(Node::Poly(p))
    }

    /// The handle of the integer `i`.
    pub fn integer(&mut self, i: i64) -> (r: NodeRc)
        requires
            old(self).wf(),
        ensures
            final(self).wf(),
            store_extends(old(self).store(), final(self).store()),
            final(self).definitions() == old(self).definitions(),
            (final(self).store(), r) == intern_spec(old(self).store(), NodeView::Poly(poly_rational(rat_int(i as int)))),
            r.id < final(self).store().len(),
    {
        self.poly(Poly::integer(i))
    }

    /// The handle of the rational `r`.
    pub fn rational(&mut self, r: Rational) -> (h: NodeRc)
        requires
            old(self).wf(),
            r.wf(),
        ensures
            final(self).wf(),
            store_extends(old(self).store(), final(self).store()),
            final(self).definitions() == old(self).definitions(),
            (final(self).store(), h) == intern_spec(old(self).store(), NodeView::Poly(poly_rational(r@))),
            h.id < final(self).store().len(),
    {
        self.poly(Poly::rational(r))
    }

    /// The handle of the variable with this name.
    pub fn var(&mut self, name: &str) -> (r: NodeRc)
        requires
            old(self).wf(),
        ensures
            final(self).wf(),
            store_extends(old(self).store(), final(self).store()),
            final(self).definitions() == old(self).definitions(),
            (final(self).store(), r) == intern_spec(old(self).store(), NodeView::Var(name@)),
            r.id < final(self).store().len(),
    {
        self.intern(Node::Var(String::from_str(name)))
    }

    /// One operation on scalars.
    fn leaf(&mut self, op: Operation, a: NodeRc, b: NodeRc) -> (r: NodeResult)
        requires
            old(self).wf(),
            a.id < old(self).store().len(),
            b.id < old(self).store().len(),
        ensures
            advanced(*old(self), *final(self), r, leaf_spec(old(self).store(), op, a, b)),
    {
        let ghost s = self.store();
        let ghost n = s.len() as int;
        if let Operation::Func(f) = op {
            return Ok(self.intern(Node::Func(f, a)));
        }
        let pa = Poly::from_node(&self.cache, a);
        let pb = Poly::from_node(&self.cache, b);
        proof {
            pa.lemma_stored();
            pb.lemma_stored();
            lemma_poly_add_below(pa@, pb@, n);
            lemma_poly_scale_below(pb@, rat_int(-1), n);
            lemma_poly_add_below(pa@, poly_scale(pb@, rat_int(-1)), n);
            lemma_poly_mul_below(pa@, pb@, n);
        }
        let computed = match op {
            Operation::Add => pa.add(pb),
            Operation::Sub => match pb.scale_int(-1) {
                Ok(nb) => pa.add(nb),
                Err(e) => Err(e),
            },
            Operation::Mul => pa.mul(pb),
            Operation::Div => match pb.pow_i(&mut self.cache, -1) {
                Ok(q) => {
                    proof {
                        q.lemma_stored();
                        lemma_poly_below_more(pa@, n, self.cache@.len() as int);
                        lemma_poly_mul_below(pa@, q@, self.cache@.len() as int);
                    }
                    pa.mul(q)
                },
                Err(e) => Err(e),
            },
            Operation::PowI(i) => pa.pow_i(&mut self.cache, i),
            Operation::Func(_) => Ok(pa),
        };
        match computed {
            Ok(p) => Ok(self.poly(p)),
            Err(e) => Err(Error::from_poly(e)),
        }
    }

    /// `op` on the pairs of `xs` and `ys` in turn.
    fn zip_leaf(&mut self, op: Operation, xs: &Vec<NodeRc>, ys: &Vec<NodeRc>) -> (r: Result<Vec<NodeRc>, Error>)
        requires
            old(self).wf(),
            xs@.len() == ys@.len(),
            forall|i: int| 0 <= i < xs@.len() ==> (#[trigger] xs@[i]).id < old(self).store().len(),
            forall|i: int| 0 <= i < ys@.len() ==> (#[trigger] ys@[i]).id < old(self).store().len(),
        ensures
            final(self).wf(),
            store_extends(old(self).store(), final(self).store()),
            final(self).definitions() == old(self).definitions(),
            r matches Ok(v) ==> zip_spec(
                old(self).store(),
                |t: Store, x: NodeRc, y: NodeRc| leaf_spec(t, op, x, y),
                xs@,
                ys@,
            ) == (final(self).store(), Ok::<Seq<NodeRc>, Error>(v@)) && forall|i: int|
                0 <= i < v@.len() ==> (#[trigger] v@[i]).id < final(self).store().len(),
            r matches Err(e) ==> zip_spec(
                old(self).store(),
                |t: Store, x: NodeRc, y: NodeRc| leaf_spec(t, op, x, y),
                xs@,
                ys@,
            ) == (final(self).store(), Err::<Seq<NodeRc>, Error>(e)),
    {
        let ghost s = self.store();
        let ghost f = |t: Store, x: NodeRc, y: NodeRc| leaf_spec(t, op, x, y);
        let mut out: Vec<NodeRc> = Vec::new();
        let mut i: usize = 0;
        assert(xs@.take(0) =~= Seq::<NodeRc>::empty());
        while i < xs.len()
            invariant
                i <= xs@.len(),
                xs@.len() == ys@.len(),
                self.wf(),
                s == old(self).store(),
                f == (|t: Store, x: NodeRc, y: NodeRc| leaf_spec(t, op, x, y)),
                store_extends(s, self.store()),
                self.definitions() == old(self).definitions(),
                forall|k: int| 0 <= k < xs@.len() ==> (#[trigger] xs@[k]).id < s.len(),
                forall|k: int| 0 <= k < ys@.len() ==> (#[trigger] ys@[k]).id < s.len(),
                zip_spec(s, f, xs@.take(i as int), ys@.take(i as int)) == (
                    self.store(),
                    Ok::<Seq<NodeRc>, Error>(out@),
                ),
                forall|k: int| 0 <= k < out@.len() ==> (#[trigger] out@[k]).id < self.store().len(),
            decreases xs@.len() - i,
        {
            proof {
                assert(xs@.take(i + 1).drop_last() =~= xs@.take(i as int));
                assert(ys@.take(i + 1).drop_last() =~= ys@.take(i as int));
                assert(xs@[i as int].id < s.len());
                assert(ys@[i as int].id < s.len());
            }
            let ghost before = self.store();
            match self.leaf(op, xs[i], ys[i]) {
                Ok(h) => {
                    let ghost previous = out@;
                    out.push(h);
                    assert forall|k: int| 0 <= k < out@.len() implies (#[trigger] out@[k]).id
                        < self.store().len() by {
                        if k < previous.len() {
                            assert(out@[k] == previous[k]);
                            assert(previous[k].id < before.len());
                        }
                    }
                },
                Err(e) => {
                    proof {
                        lemma_zip_failure(s, f, xs@, ys@, i + 1);
                    }
                    return Err(e);
                },
            }
            i += 1;
        }
        proof {
            assert(xs@.take(i as int) =~= xs@);
            assert(ys@.take(i as int) =~= ys@);
        }
        Ok(out)
    }

    /// An operation with broadcasting over tuples.
    fn uniform(&mut self, op: Operation, a: NodeRc, b: NodeRc) -> (r: NodeResult)
        requires
            old(self).wf(),
            a.id < old(self).store().len(),
            b.id < old(self).store().len(),
        ensures
            advanced(*old(self), *final(self), r, uniform_spec(old(self).store(), op, a, b)),
    {
        let ghost s = self.store();
        proof {
            self.lemma_wf();
            assert(node_below(s[a.id as int], a.id as int));
            assert(node_below(s[b.id as int], b.id as int));
        }
        let ta = self.cache.tuple_parts(a);
        let tb = if op.is_unary() {
            None
        } else {
            self.cache.tuple_parts(b)
        };
        let (xs, ys) = match (ta, tb) {
            (Some(xs), Some(ys)) => {
                if xs.len() != ys.len() {
                    return Err(Error::ShapeMismatch(xs.len(), ys.len()));
                }
                (xs, ys)
            },
            (Some(xs), None) => {
                let ys = repeat(b, xs.len());
                (xs, ys)
            },
            (None, Some(ys)) => {
                let xs = repeat(a, ys.len());
                (xs, ys)
            },
            (None, None) => {
                return self.leaf(op, a, b);
            },
        };
        proof {
            let f = |t: Store, x: NodeRc, y: NodeRc| leaf_spec(t, op, x, y);
            assert(uniform_spec(s, op, a, b) == tuple_spec(zip_spec(s, f, xs@, ys@)));
            assert forall|i: int| 0 <= i < xs@.len() implies (#[trigger] xs@[i]).id < s.len() by {
                if parts_of(s, a) is Some {
                    assert(s[a.id as int] == NodeView::Tuple(xs@));
                } else {
                    assert(xs@[i] == a);
                }
            }
            assert forall|i: int| 0 <= i < ys@.len() implies (#[trigger] ys@[i]).id < s.len() by {
                if !op.unary() && parts_of(s, b) is Some {
                    assert(s[b.id as int] == NodeView::Tuple(ys@));
                } else {
                    assert(ys@[i] == b);
                }
            }
        }
        match self.zip_leaf(op, &xs, &ys) {
            Ok(parts) => Ok(self.intern(Node::Tuple(parts))),
            Err(e) => Err(e),
        }
    }

    /// a + b
    pub fn add(&mut self, a: NodeRc, b: NodeRc) -> (r: NodeResult)
        requires
            old(self).wf(),
            a.id < old(self).store().len(),
            b.id < old(self).store().len(),
        ensures
            advanced(*old(self), *final(self), r, uniform_spec(old(self).store(), Operation::Add, a, b)),
    {
        self.uniform(Operation::Add, a, b)
    }

    /// a - b
    pub fn sub(&mut self, a: NodeRc, b: NodeRc) -> (r: NodeResult)
        requires
            old(self).wf(),
            a.id < old(self).store().len(),
            b.id < old(self).store().len(),
        ensures
            advanced(*old(self), *final(self), r, uniform_spec(old(self).store(), Operation::Sub, a, b)),
    {
        self.uniform(Operation::Sub, a, b)
    }

    /// a * b
    pub fn mul(&mut self, a: NodeRc, b: NodeRc) -> (r: NodeResult)
        requires
            old(self).wf(),
            a.id < old(self).store().len(),
            b.id < old(self).store().len(),
        ensures
            advanced(*old(self), *final(self), r, uniform_spec(old(self).store(), Operation::Mul, a, b)),
    {
        self.uniform(Operation::Mul, a, b)
    }

    /// a / b
    ///
    /// Only the literal zero is refused as a divisor. A symbolic divisor
    /// is taken to be nonzero: `a / a` is 1 where `a` is a single term (a
    /// variable, a function application, a nonzero constant, or a product
    /// of powers of such). A divisor of several terms becomes one base to
    /// the power -1, and the dividend is multiplied by it term by term.
    pub fn div(&mut self, a: NodeRc, b: NodeRc) -> (r: NodeResult)
        requires
            old(self).wf(),
            a.id < old(self).store().len(),
            b.id < old(self).store().len(),
        ensures
            advanced(*old(self), *final(self), r, uniform_spec(old(self).store(), Operation::Div, a, b)),
    {
        self.uniform(Operation::Div, a, b)
    }

    /// - a
    pub fn neg(&mut self, a: NodeRc) -> (r: NodeResult)
        requires
            old(self).wf(),
            a.id < old(self).store().len(),
        ensures
            advanced(*old(self), *final(self), r, neg_spec(old(self).store(), a)),
    {
        let minus = self.integer(-1);
        self.uniform(Operation::Mul, minus, a)
    }

    /// a ^ i
    pub fn pow_i(&mut self, a: NodeRc, i: i32) -> (r: NodeResult)
        requires
            old(self).wf(),
            a.id < old(self).store().len(),
        ensures
            advanced(*old(self), *final(self), r, uniform_spec(old(self).store(), Operation::PowI(i), a, a)),
    {
        self.uniform(Operation::PowI(i), a, a)
    }

    /// f(g)
    pub fn func(&mut self, f: Func, g: NodeRc) -> (r: NodeResult)
        requires
            old(self).wf(),
            g.id < old(self).store().len(),
        ensures
            advanced(*old(self), *final(self), r, uniform_spec(old(self).store(), Operation::Func(f), g, g)),
    {
        self.uniform(Operation::Func(f), g, g)
    }

    /// The exponent that the node is, if it is an integer constant that
    /// fits into 32 bits.
    fn exponent(&self, b: NodeRc) -> (r: Option<i32>)
        requires
            self.wf(),
            b.id < self.store().len(),
        ensures
            r == exponent_of(self.store(), b),
    {
        match self.cache.get(b) {
            Node::Poly(p) => {
                let found = p.as_int();
                proof {
                    let c = poly_get(p@, Seq::empty());
                    match found {
                        Some(i) => {
                            lemma_int_reduced(i as int);
                            assert(c == rat_int(i as int));
                        },
                        None => {
                            if poly_constant(p@) is Some && c.den == 1 {
                                assert(c == rat_int(c.num));
                            }
                        },
                    }
                }
                match found {
                    Some(i) => if i >= -0x8000_0000 && i <= 0x7fff_ffff {
                        Some(i as i32)
                    } else {
                        None
                    },
                    None => None,
                }
            },
            _ => None,
        }
    }

    /// The power of two scalars.
    fn pow_elem(&mut self, a: NodeRc, b: NodeRc) -> (r: NodeResult)
        requires
            old(self).wf(),
            a.id < old(self).store().len(),
            b.id < old(self).store().len(),
        ensures
            advanced(*old(self), *final(self), r, pow_elem_spec(old(self).store(), a, b)),
    {
        match self.exponent(b) {
            Some(i) => self.pow_i(a, i),
            None => {
                let g = match self.func(Func::Transient(Transient::Log), a) {
                    Ok(g) => g,
                    Err(e) => {
                        return Err(e);
                    },
                };
                let m = match self.mul(g, b) {
                    Ok(m) => m,
                    Err(e) => {
                        return Err(e);
                    },
                };
                self.func(Func::Transient(Transient::Exp), m)
            },
        }
    }

    /// The powers of the pairs of `xs` and `ys` in turn.
    fn zip_pow(&mut self, xs: &Vec<NodeRc>, ys: &Vec<NodeRc>) -> (r: Result<Vec<NodeRc>, Error>)
        requires
            old(self).wf(),
            xs@.len() == ys@.len(),
            forall|i: int| 0 <= i < xs@.len() ==> (#[trigger] xs@[i]).id < old(self).store().len(),
            forall|i: int| 0 <= i < ys@.len() ==> (#[trigger] ys@[i]).id < old(self).store().len(),
        ensures
            final(self).wf(),
            store_extends(old(self).store(), final(self).store()),
            final(self).definitions() == old(self).definitions(),
            r matches Ok(v) ==> zip_spec(
                old(self).store(),
                |t: Store, x: NodeRc, y: NodeRc| pow_elem_spec(t, x, y),
                xs@,
                ys@,
            ) == (final(self).store(), Ok::<Seq<NodeRc>, Error>(v@)) && forall|i: int|
                0 <= i < v@.len() ==> (#[trigger] v@[i]).id < final(self).store().len(),
            r matches Err(e) ==> zip_spec(
                old(self).store(),
                |t: Store, x: NodeRc, y: NodeRc| pow_elem_spec(t, x, y),
                xs@,
                ys@,
            ) == (final(self).store(), Err::<Seq<NodeRc>, Error>(e)),
    {
        let ghost s = self.store();
        let ghost f = |t: Store, x: NodeRc, y: NodeRc| pow_elem_spec(t, x, y);
        let mut out: Vec<NodeRc> = Vec::new();
        let mut i: usize = 0;
        assert(xs@.take(0) =~= Seq::<NodeRc>::empty());
        while i < xs.len()
            invariant
                i <= xs@.len(),
                xs@.len() == ys@.len(),
                self.wf(),
                s == old(self).store(),
                f == (|t: Store, x: NodeRc, y: NodeRc| pow_elem_spec(t, x, y)),
                store_extends(s, self.store()),
                self.definitions() == old(self).definitions(),
                forall|k: int| 0 <= k < xs@.len() ==> (#[trigger] xs@[k]).id < s.len(),
                forall|k: int| 0 <= k < ys@.len() ==> (#[trigger] ys@[k]).id < s.len(),
                zip_spec(s, f, xs@.take(i as int), ys@.take(i as int)) == (
                    self.store(),
                    Ok::<Seq<NodeRc>, Error>(out@),
                ),
                forall|k: int| 0 <= k < out@.len() ==> (#[trigger] out@[k]).id < self.store().len(),
            decreases xs@.len() - i,
        {
            proof {
                assert(xs@.take(i + 1).drop_last() =~= xs@.take(i as int));
                assert(ys@.take(i + 1).drop_last() =~= ys@.take(i as int));
                assert(xs@[i as int].id < s.len());
                assert(ys@[i as int].id < s.len());
            }
            let ghost before = self.store();
            match self.pow_elem(xs[i], ys[i]) {
                Ok(h) => {
                    let ghost previous = out@;
                    out.push(h);
                    assert forall|k: int| 0 <= k < out@.len() implies (#[trigger] out@[k]).id
                        < self.store().len() by {
                        if k < previous.len() {
                            assert(out@[k] == previous[k]);
                            assert(previous[k].id < before.len());
                        }
                    }
                },
                Err(e) => {
                    proof {
                        lemma_zip_failure(s, f, xs@, ys@, i + 1);
                    }
                    return Err(e);
                },
            }
            i += 1;
        }
        proof {
            assert(xs@.take(i as int) =~= xs@);
            assert(ys@.take(i as int) =~= ys@);
        }
        Ok(out)
    }

    /// a ^ b
    pub fn pow(&mut self, a: NodeRc, b: NodeRc) -> (r: NodeResult)
        requires
            old(self).wf(),
            a.id < old(self).store().len(),
            b.id < old(self).store().len(),
        ensures
            advanced(*old(self), *final(self), r, pow_spec(old(self).store(), a, b)),
    {
        let ghost s = self.store();
        proof {
            self.lemma_wf();
            assert(node_below(s[a.id as int], a.id as int));
            assert(node_below(s[b.id as int], b.id as int));
        }
        let ta = self.cache.tuple_parts(a);
        let tb = self.cache.tuple_parts(b);
        let (xs, ys) = match (ta, tb) {
            (Some(xs), Some(ys)) => {
                if xs.len() != ys.len() {
                    return Err(Error::ShapeMismatch(xs.len(), ys.len()));
                }
                (xs, ys)
            },
            (Some(xs), None) => {
                let ys = repeat(b, xs.len());
                (xs, ys)
            },
            (None, Some(ys)) => {
                let xs = repeat(a, ys.len());
                (xs, ys)
            },
            (None, None) => {
                return self.pow_elem(a, b);
            },
        };
        proof {
            let f = |t: Store, x: NodeRc, y: NodeRc| pow_elem_spec(t, x, y);
            assert(pow_spec(s, a, b) == tuple_spec(zip_spec(s, f, xs@, ys@)));
            assert forall|i: int| 0 <= i < xs@.len() implies (#[trigger] xs@[i]).id < s.len() by {
                if parts_of(s, a) is Some {
                    assert(s[a.id as int] == NodeView::Tuple(xs@));
                } else {
                    assert(xs@[i] == a);
                }
            }
            assert forall|i: int| 0 <= i < ys@.len() implies (#[trigger] ys@[i]).id < s.len() by {
                if parts_of(s, b) is Some {
                    assert(s[b.id as int] == NodeView::Tuple(ys@));
                } else {
                    assert(ys@[i] == b);
                }
            }
        }
        match self.zip_pow(&xs, &ys) {
            Ok(parts) => Ok(self.intern(Node::Tuple(parts))),
            Err(e) => Err(e),
        }
    }

    /// The tuple of the results; the first failure among them, if there
    /// is one.
    pub fn tuple(&mut self, parts: Vec<NodeResult>) -> (r: NodeResult)
        requires
            old(self).wf(),
            forall|i: int| 0 <= i < parts@.len() ==> (#[trigger] parts@[i] matches Ok(h) ==> h.id < old(self).store().len()),
        ensures
            advanced(*old(self), *final(self), r, tuple_spec((old(self).store(), collect_spec(parts@)))),
    {
        let mut out: Vec<NodeRc> = Vec::new();
        let mut i: usize = 0;
        assert(parts@.take(0) =~= Seq::<NodeResult>::empty());
        while i < parts.len()
            invariant
                i <= parts@.len(),
                self.wf(),
                *self == *old(self),
                forall|k: int| 0 <= k < parts@.len() ==> (#[trigger] parts@[k] matches Ok(h) ==> h.id < self.store().len()),
                collect_spec(parts@.take(i as int)) == Ok::<Seq<NodeRc>, Error>(out@),
                forall|k: int| 0 <= k < out@.len() ==> (#[trigger] out@[k]).id < self.store().len(),
            decreases parts@.len() - i,
        {
            proof {
                assert(parts@.take(i + 1).drop_last() =~= parts@.take(i as int));
            }
            match parts[i] {
                Ok(h) => {
                    let ghost previous = out@;
                    assert(parts@[i as int] matches Ok(h) ==> h.id < self.store().len());
                    out.push(h);
                    assert forall|k: int| 0 <= k < out@.len() implies (#[trigger] out@[k]).id
                        < self.store().len() by {
                        if k < previous.len() {
                            assert(out@[k] == previous[k]);
                        }
                    }
                },
                Err(e) => {
                    proof {
                        lemma_collect_failure(parts@, i + 1);
                    }
                    return Err(e);
                },
            }
            i += 1;
        }
        proof {
            assert(parts@.take(i as int) =~= parts@);
        }
        Ok(self.intern(Node::Tuple(out)))
    }

    /// The items combined with `op` from the left, starting from `init`.
    fn fold(&mut self, op: Operation, init: NodeRc, items: &Vec<NodeResult>) -> (r: NodeResult)
        requires
            old(self).wf(),
            init.id < old(self).store().len(),
            forall|i: int| 0 <= i < items@.len() ==> (#[trigger] items@[i] matches Ok(h) ==> h.id < old(self).store().len()),
        ensures
            advanced(*old(self), *final(self), r, fold_spec(old(self).store(), op, init, items@)),
    {
        let ghost s = self.store();
        let mut acc = init;
        let mut i: usize = 0;
        assert(items@.take(0) =~= Seq::<NodeResult>::empty());
        while i < items.len()
            invariant
                i <= items@.len(),
                self.wf(),
                s == old(self).store(),
                store_extends(s, self.store()),
                self.definitions() == old(self).definitions(),
                forall|k: int| 0 <= k < items@.len() ==> (#[trigger] items@[k] matches Ok(h) ==> h.id < s.len()),
                fold_spec(s, op, init, items@.take(i as int)) == (self.store(), Ok::<NodeRc, Error>(acc)),
                acc.id < self.store().len(),
            decreases items@.len() - i,
        {
            proof {
                assert(items@.take(i + 1).drop_last() =~= items@.take(i as int));
            }
            let x = match items[i] {
                Ok(x) => x,
                Err(e) => {
                    proof {
                        lemma_fold_failure(s, op, init, items@, i + 1);
                    }
                    return Err(e);
                },
            };
            assert(items@[i as int] matches Ok(h) ==> h.id < s.len());
            acc = match self.uniform(op, acc, x) {
                Ok(h) => h,
                Err(e) => {
                    proof {
                        lemma_fold_failure(s, op, init, items@, i + 1);
                    }
                    return Err(e);
                },
            };
            i += 1;
        }
        proof {
            assert(items@.take(i as int) =~= items@);
        }
        Ok(acc)
    }

    /// f_0 · f_1 · f_2 · … · f_n
    pub fn product(&mut self, factors: Vec<NodeResult>) -> (r: NodeResult)
        requires
            old(self).wf(),
            forall|i: int| 0 <= i < factors@.len() ==> (#[trigger] factors@[i] matches Ok(h) ==> h.id < old(self).store().len()),
        ensures
            advanced(*old(self), *final(self), r, product_spec(old(self).store(), factors@)),
    {
        let one = self.integer(1);
        self.fold(Operation::Mul, one, &factors)
    }

    /// f_0 + f_1 + f_2 + … + f_n
    pub fn sum(&mut self, summands: Vec<NodeResult>) -> (r: NodeResult)
        requires
            old(self).wf(),
            forall|i: int| 0 <= i < summands@.len() ==> (#[trigger] summands@[i] matches Ok(h) ==> h.id < old(self).store().len()),
        ensures
            advanced(*old(self), *final(self), r, sum_spec(old(self).store(), summands@)),
    {
        let zero = self.integer(0);
        self.fold(Operation::Add, zero, &summands)
    }

    /// Arrays are not implemented: this fails, whatever the parts.
    pub fn array(&self, _parts: Vec<NodeResult>) -> (r: NodeResult)
        ensures
            r == Err::<NodeRc, Error>(Error::NotImplemented),
    {
        Err(Error::NotImplemented)
    }

    /// Defines the function `name` with the parameters `args` and the body
    /// `node`. A later definition of a name replaces an earlier one.
    pub fn define(&mut self, name: &str, args: &[&str], node: NodeRc)
        requires
            old(self).wf(),
            node.id < old(self).store().len(),
        ensures
            final(self).wf(),
            final(self).store() == old(self).store(),
            final(self).definitions() == old(self).definitions().push(
                DefView { name: name@, args: texts_view(args@), expr: node },
            ),
    {
        let mut names: Vec<String> = Vec::new();
        let mut i: usize = 0;
        while i < args.len()
            invariant
                i <= args@.len(),
                strings_view(names@) == texts_view(args@).take(i as int),
            decreases args@.len() - i,
        {
            let ghost before = strings_view(names@);
            names.push(String::from_str(args[i]));
            proof {
                assert(strings_view(names@) =~= before.push(args@[i as int]@));
                assert(texts_view(args@).take(i + 1) =~= before.push(args@[i as int]@));
            }
            i += 1;
        }
        proof {
            assert(texts_view(args@).take(i as int) =~= texts_view(args@));
        }
        let ghost before = self.definitions();
        self.defs.push(Definition { name: String::from_str(name), args: names, expr: node });
        proof {
            assert(self.definitions() =~= before.push(DefView { name: name@, args: texts_view(args@), expr: node }));
            assert forall|k: int| 0 <= k < self.defs@.len() implies (#[trigger] self.defs@[k]).expr.id
                < self.cache@.len() by {
                if k < old(self).defs@.len() {
                    assert(self.defs@[k] == old(self).defs@[k]);
                }
            }
        }
    }
}

/// The texts of a list of string slices.
pub open spec fn texts_view(v: Seq<&str>) -> Seq<Seq<char>> {
    Seq::new(v.len(), |i: int| v[i]@)
}

/// What the parameters of a function stand for in one application.
pub type Bindings = Seq<(Seq<char>, NodeRc)>;

/// The parameters paired with the arguments, as far as both go.
pub open spec fn bindings(names: Seq<Seq<char>>, values: Seq<NodeRc>) -> Bindings {
    Seq::new(
        if names.len() <= values.len() {
            names.len()
        } else {
            values.len()
        },
        |i: int| (names[i], values[i]),
    )
}

/// What `name` stands for: the last binding of that name.
pub open spec fn lookup_spec(b: Bindings, name: Seq<char>) -> Option<NodeRc>
    decreases b.len(),
{
    if b.len() == 0 {
        None
    } else if b.last().0 == name {
        Some(b.last().1)
    } else {
        lookup_spec(b.drop_last(), name)
    }
}

/// The definition of `name`: the last one of that name.
pub open spec fn find_def(defs: Seq<DefView>, name: Seq<char>) -> Option<DefView>
    decreases defs.len(),
{
    if defs.len() == 0 {
        None
    } else if defs.last().name == name {
        Some(defs.last())
    } else {
        find_def(defs.drop_last(), name)
    }
}

/// Whether an exponent fits into 32 bits.
pub open spec fn small_exponent(e: int) -> bool {
    i32::MIN <= e <= i32::MAX
}

/// Substitution: the node `h` with every variable that `b` binds replaced
/// by what it stands for, and the store afterwards.
///
/// A variable is replaced or stays. A tuple is substituted element by
/// element. A function application is rebuilt on the substituted argument.
/// A polynomial is built anew: the sum, over its terms, of the product of
/// the coefficient and the substituted bases raised to their exponents.
pub open spec fn subst_spec(s: Store, h: NodeRc, b: Bindings) -> Outcome
    decreases h.id, 1nat, 0nat, 0nat,
{
    match s[h.id as int] {
        NodeView::Var(name) => match lookup_spec(b, name) {
            Some(x) => (s, Ok(x)),
            None => (s, Ok(h)),
        },
        NodeView::Tuple(parts) => tuple_spec(subst_list(s, parts, b, h.id)),
        NodeView::Func(f, g) => {
            if g.id < h.id {
                let (t, r) = subst_spec(s, g, b);
                match r {
                    Ok(x) => uniform_spec(t, Operation::Func(f), x, x),
                    Err(e) => (t, Err(e)),
                }
            } else {
                (s, Ok(h))
            }
        },
        NodeView::Poly(p) => {
            let (t, zero) = intern_spec(s, NodeView::Poly(poly_rational(rat_int(0))));
            subst_terms(t, zero, canon(p), b, h.id)
        },
    }
}

/// The nodes of a tuple substituted in turn.
pub open spec fn subst_list(s: Store, parts: Seq<NodeRc>, b: Bindings, limit: usize) -> (
    Store,
    Result<Seq<NodeRc>, Error>,
)
    decreases limit, 0nat, 1nat, parts.len(),
{
    if parts.len() == 0 {
        (s, Ok(Seq::empty()))
    } else {
        let (t, r) = subst_list(s, parts.drop_last(), b, limit);
        match r {
            Err(e) => (t, Err(e)),
            Ok(hs) => {
                if parts.last().id < limit {
                    let (u, q) = subst_spec(t, parts.last(), b);
                    match q {
                        Err(e) => (u, Err(e)),
                        Ok(x) => (u, Ok(hs.push(x))),
                    }
                } else {
                    (t, Ok(hs.push(parts.last())))
                }
            },
        }
    }
}

/// The substituted terms added to `acc` in turn.
pub open spec fn subst_terms(s: Store, acc: NodeRc, terms: Seq<Term>, b: Bindings, limit: usize) -> Outcome
    decreases limit, 0nat, 3nat, terms.len(),
{
    if terms.len() == 0 {
        (s, Ok(acc))
    } else {
        let (t, r) = subst_terms(s, acc, terms.drop_last(), b, limit);
        match r {
            Err(e) => (t, Err(e)),
            Ok(sum) => {
                let (u, q) = subst_term(t, terms.last(), b, limit);
                match q {
                    Err(e) => (u, Err(e)),
                    Ok(item) => uniform_spec(u, Operation::Add, sum, item),
                }
            },
        }
    }
}

/// A substituted term: the coefficient is interned, then one, and their
/// product is multiplied by the powers of the substituted bases.
pub open spec fn subst_term(s: Store, term: Term, b: Bindings, limit: usize) -> Outcome
    decreases limit, 0nat, 2nat, 0nat,
{
    let (s1, c) = intern_spec(s, NodeView::Poly(poly_rational(term.fac)));
    let (s2, one) = intern_spec(s1, NodeView::Poly(poly_rational(rat_int(1))));
    let (s3, r) = uniform_spec(s2, Operation::Mul, one, c);
    match r {
        Err(e) => (s3, Err(e)),
        Ok(acc) => subst_bases(s3, acc, term.base, b, limit),
    }
}

/// `acc` multiplied by the powers of the substituted bases in turn.
pub open spec fn subst_bases(s: Store, acc: NodeRc, base: Monomial, b: Bindings, limit: usize) -> Outcome
    decreases limit, 0nat, 1nat, base.len(),
{
    if base.len() == 0 {
        (s, Ok(acc))
    } else {
        let (t, r) = subst_bases(s, acc, base.drop_last(), b, limit);
        match r {
            Err(e) => (t, Err(e)),
            Ok(product) => subst_factor(t, product, base.last().0, base.last().1, b, limit),
        }
    }
}

/// `product` multiplied by the substituted base `v` raised to the power
/// `e`. An exponent that does not fit into 32 bits is a failure.
pub open spec fn subst_factor(s: Store, product: NodeRc, v: NodeRc, e: int, b: Bindings, limit: usize) -> Outcome
    decreases limit, 0nat, 0nat, 0nat,
{
    if v.id < limit {
        let (u, q) = subst_spec(s, v, b);
        match q {
            Err(e) => (u, Err(e)),
            Ok(x) => {
                if small_exponent(e) {
                    let (u2, q2) = uniform_spec(u, Operation::PowI(e as i32), x, x);
                    match q2 {
                        Err(e) => (u2, Err(e)),
                        Ok(item) => uniform_spec(u2, Operation::Mul, product, item),
                    }
                } else {
                    (u, Err(Error::Overflow))
                }
            },
        }
    } else {
        (s, Ok(product))
    }
}

/// The body of `d` substituted for each of the arguments in turn.
pub open spec fn map_call(s: Store, d: DefView, parts: Seq<NodeRc>) -> (Store, Result<Seq<NodeRc>, Error>)
    decreases parts.len(),
{
    if parts.len() == 0 {
        (s, Ok(Seq::empty()))
    } else {
        let (t, r) = map_call(s, d, parts.drop_last());
        match r {
            Err(e) => (t, Err(e)),
            Ok(hs) => {
                let (u, q) = subst_spec(t, d.expr, bindings(d.args, seq![parts.last()]));
                match q {
                    Err(e) => (u, Err(e)),
                    Ok(x) => (u, Ok(hs.push(x))),
                }
            },
        }
    }
}

/// The application of the function `d`. A function of one parameter is
/// applied to each element of a tuple; a function of several parameters
/// takes a tuple of as many elements; every other argument is a shape
/// mismatch.
pub open spec fn call_spec(s: Store, d: DefView, right: NodeRc) -> Outcome {
    match parts_of(s, right) {
        Some(parts) => {
            if d.args.len() == 1 {
                tuple_spec(map_call(s, d, parts))
            } else if d.args.len() == parts.len() {
                subst_spec(s, d.expr, bindings(d.args, parts))
            } else {
                (s, Err(Error::ShapeMismatch(d.args.len() as usize, parts.len() as usize)))
            }
        },
        None => {
            if d.args.len() == 1 {
                subst_spec(s, d.expr, bindings(d.args, seq![right]))
            } else {
                (s, Err(Error::ShapeMismatch(d.args.len() as usize, 1)))
            }
        },
    }
}

/// Juxtaposition: the application of a defined function, if `left` is a
/// variable that names one, else the product.
pub open spec fn apply_spec(s: Store, defs: Seq<DefView>, left: NodeRc, right: NodeRc) -> Outcome {
    match s[left.id as int] {
        NodeView::Var(name) => match find_def(defs, name) {
            Some(d) => call_spec(s, d, right),
            None => uniform_spec(s, Operation::Mul, left, right),
        },
        _ => uniform_spec(s, Operation::Mul, left, right),
    }
}

/// A failure in the first `k` nodes is the failure of the whole.
pub proof fn lemma_subst_list_failure(s: Store, parts: Seq<NodeRc>, b: Bindings, limit: usize, k: int)
    requires
        0 <= k <= parts.len(),
    ensures
        subst_list(s, parts.take(k), b, limit).1 is Err ==> subst_list(s, parts, b, limit) == subst_list(s, parts.take(k), b, limit),
    decreases parts.len() - k,
{
    if k < parts.len() {
        assert(parts.take(k + 1).drop_last() =~= parts.take(k));
        lemma_subst_list_failure(s, parts, b, limit, k + 1);
    } else {
        assert(parts.take(k) =~= parts);
    }
}

/// A failure in the first `k` terms is the failure of the whole.
pub proof fn lemma_subst_terms_failure(s: Store, acc: NodeRc, terms: Seq<Term>, b: Bindings, limit: usize, k: int)
    requires
        0 <= k <= terms.len(),
    ensures
        subst_terms(s, acc, terms.take(k), b, limit).1 is Err ==> subst_terms(s, acc, terms, b, limit) == subst_terms(s, acc, terms.take(k), b, limit),
    decreases terms.len() - k,
{
    if k < terms.len() {
        assert(terms.take(k + 1).drop_last() =~= terms.take(k));
        lemma_subst_terms_failure(s, acc, terms, b, limit, k + 1);
    } else {
        assert(terms.take(k) =~= terms);
    }
}

/// A failure in the first `k` bases is the failure of the whole.
pub proof fn lemma_subst_bases_failure(s: Store, acc: NodeRc, base: Monomial, b: Bindings, limit: usize, k: int)
    requires
        0 <= k <= base.len(),
    ensures
        subst_bases(s, acc, base.take(k), b, limit).1 is Err ==> subst_bases(s, acc, base, b, limit) == subst_bases(s, acc, base.take(k), b, limit),
    decreases base.len() - k,
{
    if k < base.len() {
        assert(base.take(k + 1).drop_last() =~= base.take(k));
        lemma_subst_bases_failure(s, acc, base, b, limit, k + 1);
    } else {
        assert(base.take(k) =~= base);
    }
}

/// A failure in the first `k` applications is the failure of the whole.
pub proof fn lemma_map_call_failure(s: Store, d: DefView, parts: Seq<NodeRc>, k: int)
    requires
        0 <= k <= parts.len(),
    ensures
        map_call(s, d, parts.take(k)).1 is Err ==> map_call(s, d, parts) == map_call(s, d, parts.take(k)),
    decreases parts.len() - k,
{
    if k < parts.len() {
        assert(parts.take(k + 1).drop_last() =~= parts.take(k));
        lemma_map_call_failure(s, d, parts, k + 1);
    } else {
        assert(parts.take(k) =~= parts);
    }
}

/// What `name` stands for among the parameters `names` with the arguments
/// `values`.
pub fn lookup(names: &Vec<String>, values: &Vec<NodeRc>, name: &String) -> (r: Option<NodeRc>)
    ensures
        r == lookup_spec(bindings(strings_view(names@), values@), name@),
{
    let ghost b = bindings(strings_view(names@), values@);
    let n = if names.len() <= values.len() {
        names.len()
    } else {
        values.len()
    };
    let mut i: usize = n;
    assert(b.take(n as int) =~= b);
    while i > 0
        invariant
            i <= n,
            n <= names@.len(),
            n <= values@.len(),
            n == b.len(),
            b == bindings(strings_view(names@), values@),
            lookup_spec(b, name@) == lookup_spec(b.take(i as int), name@),
        decreases i,
    {
        i -= 1;
        proof {
            assert(b.take(i + 1).drop_last() =~= b.take(i as int));
            assert(b.take(i + 1).last() == (names@[i as int]@, values@[i as int]));
        }
        if names[i] == *name {
            return Some(values[i]);
        }
    }
    None
}

/// A copy of a list of strings.
pub fn copy_strings(v: &Vec<String>) -> (r: Vec<String>)
    ensures
        strings_view(r@) == strings_view(v@),
{
    let mut out: Vec<String> = Vec::new();
    let mut i: usize = 0;
    while i < v.len()
        invariant
            i <= v@.len(),
            strings_view(out@) == strings_view(v@).take(i as int),
        decreases v@.len() - i,
    {
        let ghost before = strings_view(out@);
        out.push(String::from_str(v[i].as_str()));
        proof {
            assert(strings_view(out@) =~= before.push(v@[i as int]@));
            assert(strings_view(v@).take(i + 1) =~= before.push(v@[i as int]@));
        }
        i += 1;
    }
    proof {
        assert(strings_view(v@).take(i as int) =~= strings_view(v@));
    }
    out
}

impl Builder {
    /// The position of the definition of `name`.
    fn find(&self, name: &String) -> (r: Option<usize>)
        ensures
            r matches Some(i) ==> i < self.definitions().len() && find_def(self.definitions(), name@) == Some(
                self.definitions()[i as int],
            ),
            r is None ==> find_def(self.definitions(), name@) is None,
    {
        let ghost d = self.definitions();
        let mut i: usize = self.defs.len();
        assert(d.take(i as int) =~= d);
        while i > 0
            invariant
                i <= self.defs@.len(),
                d == self.definitions(),
                find_def(d, name@) == find_def(d.take(i as int), name@),
            decreases i,
        {
            i -= 1;
            proof {
                assert(d.take(i + 1).drop_last() =~= d.take(i as int));
                assert(d.take(i + 1).last() == d[i as int]);
            }
            if self.defs[i].name == *name {
                return Some(i);
            }
        }
        None
    }

    /// `product` times the substituted base `v` to the power `e`.
    fn substitute_factor(
        &mut self,
        product: NodeRc,
        v: NodeRc,
        e: i64,
        names: &Vec<String>,
        values: &Vec<NodeRc>,
        limit: usize,
    ) -> (r: NodeResult)
        requires
            old(self).wf(),
            v.id < limit,
            limit < old(self).store().len(),
            product.id < old(self).store().len(),
            forall|i: int| 0 <= i < values@.len() ==> (#[trigger] values@[i]).id < old(self).store().len(),
        ensures
            advanced(
                *old(self),
                *final(self),
                r,
                subst_factor(old(self).store(), product, v, e as int, bindings(strings_view(names@), values@), limit),
            ),
        decreases limit, 0nat,
    {
        let x = match self.substitute(v, names, values) {
            Ok(x) => x,
            Err(e) => {
                return Err(e);
            },
        };
        if e < -0x8000_0000 || e > 0x7fff_ffff {
            return Err(Error::Overflow);
        }
        let item = match self.pow_i(x, e as i32) {
            Ok(h) => h,
            Err(e) => {
                return Err(e);
            },
        };
        self.mul(product, item)
    }

    /// One term of a polynomial with its bases substituted.
    fn substitute_term(
        &mut self,
        base: &Base,
        fac: Rational,
        names: &Vec<String>,
        values: &Vec<NodeRc>,
        limit: usize,
    ) -> (r: NodeResult)
        requires
            old(self).wf(),
            fac.wf(),
            limit < old(self).store().len(),
            mono_below(base_view(base@), limit as int),
            forall|i: int| 0 <= i < values@.len() ==> (#[trigger] values@[i]).id < old(self).store().len(),
        ensures
            advanced(
                *old(self),
                *final(self),
                r,
                subst_term(
                    old(self).store(),
                    Term { base: base_view(base@), fac: fac@ },
                    bindings(strings_view(names@), values@),
                    limit,
                ),
            ),
        decreases limit, 1nat,
    {
        let ghost s = self.store();
        let ghost b = bindings(strings_view(names@), values@);
        let ghost mono = base_view(base@);
        let c = self.rational(fac);
        let one = self.integer(1);
        let first = match self.mul(one, c) {
            Ok(h) => h,
            Err(e) => {
                return Err(e);
            },
        };
        let ghost s3 = self.store();
        let mut product = first;
        let mut j: usize = 0;
        assert(mono.take(0) =~= Seq::<(NodeRc, int)>::empty());
        while j < base.len()
            invariant
                j <= base@.len(),
                mono == base_view(base@),
                mono_below(mono, limit as int),
                self.wf(),
                s == old(self).store(),
                b == bindings(strings_view(names@), values@),
                limit < s.len(),
                store_extends(s, s3),
                store_extends(s3, self.store()),
                self.definitions() == old(self).definitions(),
                forall|i: int| 0 <= i < values@.len() ==> (#[trigger] values@[i]).id < s.len(),
                subst_term(s, Term { base: mono, fac: fac@ }, b, limit) == subst_bases(s3, first, mono, b, limit),
                subst_bases(s3, first, mono.take(j as int), b, limit) == (
                    self.store(),
                    Ok::<NodeRc, Error>(product),
                ),
                product.id < self.store().len(),
            decreases base@.len() - j,
        {
            let (v, e) = base[j];
            proof {
                assert(mono.take(j + 1).drop_last() =~= mono.take(j as int));
                assert(mono.take(j + 1).last() == (v, e as int));
                assert(mono[j as int].0.id < limit);
                lemma_subst_bases_failure(s3, first, mono, b, limit, j + 1);
            }
            product = match self.substitute_factor(product, v, e, names, values, limit) {
                Ok(h) => h,
                Err(e) => {
                    return Err(e);
                },
            };
            j += 1;
        }
        proof {
            assert(mono.take(j as int) =~= mono);
        }
        Ok(product)
    }

    /// The node with every variable among `names` replaced by the value at
    /// the same place in `values`.
    ///
    /// The recursion is as deep as the expression is nested.
    pub fn substitute(&mut self, node: NodeRc, names: &Vec<String>, values: &Vec<NodeRc>) -> (r: NodeResult)
        requires
            old(self).wf(),
            node.id < old(self).store().len(),
            forall|i: int| 0 <= i < values@.len() ==> (#[trigger] values@[i]).id < old(self).store().len(),
        ensures
            advanced(
                *old(self),
                *final(self),
                r,
                subst_spec(old(self).store(), node, bindings(strings_view(names@), values@)),
            ),
        decreases node.id, 2nat,
    {
        let ghost s = self.store();
        let ghost b = bindings(strings_view(names@), values@);
        let limit = node.id;
        proof {
            self.lemma_wf();
            assert(node_below(s[node.id as int], node.id as int));
            assert(node_ok(s[node.id as int]));
        }
        // a variable
        let variable: Option<Option<NodeRc>> = match self.cache.get(node) {
            Node::Var(name) => Some(lookup(names, values, name)),
            _ => None,
        };
        if let Some(found) = variable {
            return match found {
                Some(x) => {
                    proof {
                        lemma_lookup(b, s[node.id as int]->Var_0);
                    }
                    Ok(x)
                },
                None => Ok(node),
            };
        }
        // a tuple
        if let Some(parts) = self.cache.tuple_parts(node) {
            let mut out: Vec<NodeRc> = Vec::new();
            let mut i: usize = 0;
            proof {
                assert(parts@.take(0) =~= Seq::<NodeRc>::empty());
                assert(s[node.id as int] == NodeView::Tuple(parts@));
                assert(node_below(NodeView::Tuple(parts@), node.id as int));
                assert(handles_below(parts@, node.id as int));
            }
            while i < parts.len()
                invariant
                    i <= parts@.len(),
                    self.wf(),
                    s == old(self).store(),
                    b == bindings(strings_view(names@), values@),
                    limit == node.id,
                    store_extends(s, self.store()),
                    self.definitions() == old(self).definitions(),
                    forall|k: int| 0 <= k < parts@.len() ==> (#[trigger] parts@[k]).id < limit,
                    limit < s.len(),
                    forall|k: int| 0 <= k < values@.len() ==> (#[trigger] values@[k]).id < s.len(),
                    subst_spec(s, node, b) == tuple_spec(subst_list(s, parts@, b, limit)),
                    subst_list(s, parts@.take(i as int), b, limit) == (self.store(), Ok::<Seq<NodeRc>, Error>(out@)),
                    forall|k: int| 0 <= k < out@.len() ==> (#[trigger] out@[k]).id < self.store().len(),
                decreases parts@.len() - i,
            {
                proof {
                    assert(parts@.take(i + 1).drop_last() =~= parts@.take(i as int));
                    assert(parts@.take(i + 1).last() == parts@[i as int]);
                    assert(parts@[i as int].id < limit);
                    lemma_subst_list_failure(s, parts@, b, limit, i + 1);
                }
                let ghost before = self.store();
                match self.substitute(parts[i], names, values) {
                    Ok(x) => {
                        let ghost previous = out@;
                        out.push(x);
                        assert forall|k: int| 0 <= k < out@.len() implies (#[trigger] out@[k]).id
                            < self.store().len() by {
                            if k < previous.len() {
                                assert(out@[k] == previous[k]);
                                assert(previous[k].id < before.len());
                            }
                        }
                    },
                    Err(e) => {
                        return Err(e);
                    },
                }
                i += 1;
            }
            proof {
                assert(parts@.take(i as int) =~= parts@);
            }
            return Ok(self.intern(Node::Tuple(out)));
        }
        // a function application
        let application: Option<(Func, NodeRc)> = match self.cache.get(node) {
            Node::Func(f, g) => Some((*f, *g)),
            _ => None,
        };
        if let Some((f, g)) = application {
            let x = match self.substitute(g, names, values) {
                Ok(x) => x,
                Err(e) => {
                    return Err(e);
                },
            };
            return self.func(f, x);
        }
        // a polynomial
        let p: Poly = match self.cache.get(node) {
            Node::Poly(p) => p.clone(),
            _ => {
                return Ok(node);
            },
        };
        let ghost terms = p.terms();
        proof {
            p.lemma_stored();
            assert(s[node.id as int] == NodeView::Poly(p@));
            assert(poly_below(p@, limit as int));
        }
        let zero = self.integer(0);
        let ghost s0 = self.store();
        let mut acc = zero;
        let mut k: usize = 0;
        assert(terms.take(0) =~= Seq::<Term>::empty());
        while k < p.len()
            invariant
                k <= terms.len(),
                p.wf(),
                terms == p.terms(),
                poly_below(p@, limit as int),
                self.wf(),
                s == old(self).store(),
                b == bindings(strings_view(names@), values@),
                limit == node.id,
                limit < s.len(),
                store_extends(s, s0),
                store_extends(s0, self.store()),
                self.definitions() == old(self).definitions(),
                forall|i: int| 0 <= i < values@.len() ==> (#[trigger] values@[i]).id < s.len(),
                subst_spec(s, node, b) == subst_terms(s0, zero, terms, b, limit),
                subst_terms(s0, zero, terms.take(k as int), b, limit) == (self.store(), Ok::<NodeRc, Error>(acc)),
                acc.id < self.store().len(),
            decreases terms.len() - k,
        {
            let ghost term = terms[k as int];
            proof {
                assert(terms.take(k + 1).drop_last() =~= terms.take(k as int));
                assert(terms.take(k + 1).last() == term);
                crate::poly::lemma_coeff_at(terms, k as int);
                assert(p@.dom().contains(term.base));
                assert(mono_below(term.base, limit as int));
                lemma_subst_terms_failure(s0, zero, terms, b, limit, k + 1);
            }
            let (base, fac) = p.term(k);
            let item = match self.substitute_term(base, fac, names, values, limit) {
                Ok(h) => h,
                Err(e) => {
                    return Err(e);
                },
            };
            acc = match self.add(acc, item) {
                Ok(h) => h,
                Err(e) => {
                    return Err(e);
                },
            };
            k += 1;
        }
        proof {
            assert(terms.take(k as int) =~= terms);
        }
        Ok(acc)
    }

    /// Juxtaposition: applies the function that `left` names to `right`,
    /// or multiplies the two if `left` names none.
    pub fn apply(&mut self, left: NodeRc, right: NodeRc) -> (r: NodeResult)
        requires
            old(self).wf(),
            left.id < old(self).store().len(),
            right.id < old(self).store().len(),
        ensures
            advanced(
                *old(self),
                *final(self),
                r,
                apply_spec(old(self).store(), old(self).definitions(), left, right),
            ),
    {
        let ghost s = self.store();
        let found: Option<usize> = match self.cache.get(left) {
            Node::Var(name) => self.find(name),
            _ => None,
        };
        let at = match found {
            Some(at) => at,
            None => {
                return self.mul(left, right);
            },
        };
        proof {
            self.lemma_wf();
            assert(node_below(s[right.id as int], right.id as int));
            assert(self.definitions()[at as int] == self.defs@[at as int]@);
        }
        let ghost d = self.definitions()[at as int];
        let args = copy_strings(&self.defs[at].args);
        let expr = self.defs[at].expr;
        assert(apply_spec(s, self.definitions(), left, right) == call_spec(s, d, right));
        match self.cache.tuple_parts(right) {
            Some(parts) => {
                proof {
                    assert(s[right.id as int] == NodeView::Tuple(parts@));
                    assert forall|k: int| 0 <= k < parts@.len() implies (#[trigger] parts@[k]).id < s.len() by {
                        assert(s[right.id as int] == NodeView::Tuple(parts@));
                    }
                }
                if args.len() == 1 {
                    let mut out: Vec<NodeRc> = Vec::new();
                    let mut i: usize = 0;
                    assert(parts@.take(0) =~= Seq::<NodeRc>::empty());
                    while i < parts.len()
                        invariant
                            i <= parts@.len(),
                            self.wf(),
                            s == old(self).store(),
                            store_extends(s, self.store()),
                            self.definitions() == old(self).definitions(),
                            strings_view(args@) == d.args,
                            expr == d.expr,
                            expr.id < s.len(),
                            forall|k: int| 0 <= k < parts@.len() ==> (#[trigger] parts@[k]).id < s.len(),
                            apply_spec(s, old(self).definitions(), left, right) == tuple_spec(
                                map_call(s, d, parts@),
                            ),
                            map_call(s, d, parts@.take(i as int)) == (
                                self.store(),
                                Ok::<Seq<NodeRc>, Error>(out@),
                            ),
                            forall|k: int| 0 <= k < out@.len() ==> (#[trigger] out@[k]).id < self.store().len(),
                        decreases parts@.len() - i,
                    {
                        proof {
                            assert(parts@.take(i + 1).drop_last() =~= parts@.take(i as int));
                            assert(parts@.take(i + 1).last() == parts@[i as int]);
                            assert(parts@[i as int].id < s.len());
                            lemma_map_call_failure(s, d, parts@, i + 1);
                        }
                        let ghost before = self.store();
                        let mut one: Vec<NodeRc> = Vec::new();
                        one.push(parts[i]);
                        assert(one@ =~= seq![parts@[i as int]]);
                        match self.substitute(expr, &args, &one) {
                            Ok(x) => {
                                let ghost previous = out@;
                                out.push(x);
                                assert forall|k: int| 0 <= k < out@.len() implies (#[trigger] out@[k]).id
                                    < self.store().len() by {
                                    if k < previous.len() {
                                        assert(out@[k] == previous[k]);
                                        assert(previous[k].id < before.len());
                                    }
                                }
                            },
                            Err(e) => {
                                return Err(e);
                            },
                        }
                        i += 1;
                    }
                    proof {
                        assert(parts@.take(i as int) =~= parts@);
                    }
                    Ok(self.intern(Node::Tuple(out)))
                } else if args.len() == parts.len() {
                    self.substitute(expr, &args, &parts)
                } else {
                    Err(Error::ShapeMismatch(args.len(), parts.len()))
                }
            },
            None => {
                if args.len() == 1 {
                    let mut one: Vec<NodeRc> = Vec::new();
                    one.push(right);
                    assert(one@ =~= seq![right]);
                    self.substitute(expr, &args, &one)
                } else {
                    Err(Error::ShapeMismatch(args.len(), 1))
                }
            },
        }
    }
}

/// A binding that is found binds one of the values.
pub proof fn lemma_lookup(b: Bindings, name: Seq<char>)
    ensures
        lookup_spec(b, name) matches Some(x) ==> exists|i: int| 0 <= i < b.len() && (#[trigger] b[i]).1 == x,
    decreases b.len(),
{
    if b.len() > 0 {
        if b.last().0 == name {
            assert(b[b.len() - 1].1 == b.last().1);
        } else {
            lemma_lookup(b.drop_last(), name);
            if let Some(x) = lookup_spec(b.drop_last(), name) {
                let i = choose|i: int| 0 <= i < b.drop_last().len() && (#[trigger] b.drop_last()[i]).1 == x;
                assert(b[i].1 == x);
            }
        }
    }
}

/// The store of a new builder: the variable `x` and the four
/// transcendental functions of it.
pub open spec fn initial_store() -> Store {
    let x = NodeRc { id: 0 };
    seq![
        NodeView::Var("x"@),
        NodeView::Func(Func::Transient(Transient::Sin), x),
        NodeView::Func(Func::Transient(Transient::Cos), x),
        NodeView::Func(Func::Transient(Transient::Exp), x),
        NodeView::Func(Func::Transient(Transient::Log), x),
    ]
}

/// The definition of a transcendental function of one parameter, `x`.
pub open spec fn transient_def(name: Seq<char>, at: usize) -> DefView {
    DefView { name, args: seq!["x"@], expr: NodeRc { id: at } }
}

/// The definitions of a new builder: `sin`, `cos`, `exp` and `log`.
pub open spec fn initial_definitions() -> Seq<DefView> {
    seq![
        transient_def("sin"@, 1),
        transient_def("cos"@, 2),
        transient_def("exp"@, 3),
        transient_def("log"@, 4),
    ]
}

/// The place of the first `.` in the text, or its length if it has none.
pub open spec fn first_dot(s: Seq<char>) -> int
    decreases s.len(),
{
    if s.len() == 0 {
        0
    } else if s[0] == '.' {
        0
    } else {
        1 + first_dot(s.skip(1))
    }
}

/// A decimal number with a point: the integer before the point plus the
/// integer after it over the power of ten with as many digits.
pub open spec fn decimal_float_spec(s: Store, text: Seq<char>) -> Outcome {
    let dp = first_dot(text);
    let whole = text.subrange(0, dp);
    let fraction = text.subrange(dp + 1, text.len() as int);
    if ten_power(fraction.len()) > i64::MAX {
        (s, Err(Error::Overflow))
    } else {
        match (parse_i64_spec(whole), parse_i64_spec(fraction)) {
            (Some(i), Some(j)) => {
                let (s1, hi) = intern_spec(s, NodeView::Poly(poly_rational(rat_int(i as int))));
                let (s2, hj) = intern_spec(s1, NodeView::Poly(poly_rational(rat_int(j as int))));
                let (s3, hd) = intern_spec(
                    s2,
                    NodeView::Poly(poly_rational(rat_int(ten_power(fraction.len())))),
                );
                let (s4, r) = uniform_spec(s3, Operation::Div, hj, hd);
                match r {
                    Ok(q) => uniform_spec(s4, Operation::Add, hi, q),
                    Err(e) => (s4, Err(e)),
                }
            },
            _ => (s, Err(Error::IntegerError)),
        }
    }
}

/// The first `.` of a text that has one is where `first_dot` says.
pub proof fn lemma_first_dot(s: Seq<char>, k: int)
    requires
        0 <= k <= s.len(),
        forall|i: int| 0 <= i < k ==> s[i] != '.',
        k < s.len() ==> s[k] == '.',
    ensures
        first_dot(s) == k,
    decreases s.len(),
{
    if s.len() > 0 && k > 0 {
        let t = s.skip(1);
        assert forall|i: int| 0 <= i < k - 1 implies t[i] != '.' by {
            assert(t[i] == s[i + 1]);
        }
        lemma_first_dot(t, k - 1);
    }
}

impl Builder {
    /// A builder with the definitions of `sin`, `cos`, `exp` and `log`.
    pub fn new() -> (r: Builder)
        ensures
            r.wf(),
            r.store() == initial_store(),
            r.definitions() == initial_definitions(),
    {
        let mut b = Builder { cache: Cache::new(), defs: Vec::new() };
        assert(b.definitions() =~= Seq::<DefView>::empty());
        b.init();
        b
    }

    /// Defines one transcendental function of the variable `x`.
    fn define_transient(&mut self, name: &str, t: Transient, x: NodeRc)
        requires
            old(self).wf(),
            x.id < old(self).store().len(),
            !(old(self).store()[x.id as int] is Tuple),
        ensures
            final(self).wf(),
            final(self).store() == intern_spec(old(self).store(), NodeView::Func(Func::Transient(t), x)).0,
            final(self).definitions() == old(self).definitions().push(
                DefView {
                    name: name@,
                    args: seq!["x"@],
                    expr: intern_spec(old(self).store(), NodeView::Func(Func::Transient(t), x)).1,
                },
            ),
    {
        match self.func(Func::Transient(t), x) {
            Ok(f) => {
                let mut args: Vec<String> = Vec::new();
                args.push(String::from_str("x"));
                assert(strings_view(args@) =~= seq!["x"@]);
                self.define_owned(String::from_str(name), args, f);
            },
            Err(_) => {},
        }
    }

    /// Adds a definition.
    fn define_owned(&mut self, name: String, args: Vec<String>, node: NodeRc)
        requires
            old(self).wf(),
            node.id < old(self).store().len(),
        ensures
            final(self).wf(),
            final(self).store() == old(self).store(),
            final(self).definitions() == old(self).definitions().push(
                DefView { name: name@, args: strings_view(args@), expr: node },
            ),
    {
        let ghost before = self.definitions();
        let ghost d = DefView { name: name@, args: strings_view(args@), expr: node };
        self.defs.push(Definition { name, args, expr: node });
        proof {
            assert(self.definitions() =~= before.push(d));
            assert forall|k: int| 0 <= k < self.defs@.len() implies (#[trigger] self.defs@[k]).expr.id
                < self.cache@.len() by {
                if k < old(self).defs@.len() {
                    assert(self.defs@[k] == old(self).defs@[k]);
                }
            }
        }
    }

    fn init(&mut self)
        requires
            old(self).wf(),
            old(self).store() == Seq::<NodeView>::empty(),
            old(self).definitions() == Seq::<DefView>::empty(),
        ensures
            final(self).wf(),
            final(self).store() == initial_store(),
            final(self).definitions() == initial_definitions(),
    {
        let x = self.var("x");
        let ghost s0 = self.store();
        proof {
            assert(!store_has(Seq::<NodeView>::empty(), NodeView::Var("x"@)));
            assert(s0 =~= seq![NodeView::Var("x"@)]);
            assert(x.id == 0);
        }
        self.define_transient("sin", Transient::Sin, x);
        let ghost s1 = self.store();
        proof {
            let v = NodeView::Func(Func::Transient(Transient::Sin), x);
            assert(!store_has(s0, v));
            assert(s1 =~= seq![s0[0], v]);
        }
        self.define_transient("cos", Transient::Cos, x);
        let ghost s2 = self.store();
        proof {
            let v = NodeView::Func(Func::Transient(Transient::Cos), x);
            assert(!store_has(s1, v));
            assert(s2 =~= seq![s1[0], s1[1], v]);
        }
        self.define_transient("exp", Transient::Exp, x);
        let ghost s3 = self.store();
        proof {
            let v = NodeView::Func(Func::Transient(Transient::Exp), x);
            assert(!store_has(s2, v));
            assert(s3 =~= seq![s2[0], s2[1], s2[2], v]);
        }
        self.define_transient("log", Transient::Log, x);
        proof {
            let v = NodeView::Func(Func::Transient(Transient::Log), x);
            assert(!store_has(s3, v));
            assert(self.store() =~= initial_store());
            assert(self.definitions() =~= initial_definitions());
        }
    }

    /// The handle of the integer that the digits stand for.
    pub fn decimal(&mut self, n: &str) -> (r: NodeResult)
        requires
            old(self).wf(),
        ensures
            advanced(
                *old(self),
                *final(self),
                r,
                match parse_i64_spec(n@) {
                    Some(i) => {
                        let (t, h) = intern_spec(
                            old(self).store(),
                            NodeView::Poly(poly_rational(rat_int(i as int))),
                        );
                        (t, Ok(h))
                    },
                    None => (old(self).store(), Err(Error::IntegerError)),
                },
            ),
    {
        match parse_i64(n) {
            Some(i) => Ok(self.integer(i)),
            None => Err(Error::IntegerError),
        }
    }

    /// The handle of the decimal number with a point that the text stands
    /// for. The text must hold a point.
    pub fn decimal_float(&mut self, s: &str) -> (r: NodeResult)
        requires
            old(self).wf(),
            s@.contains('.'),
        ensures
            advanced(*old(self), *final(self), r, decimal_float_spec(old(self).store(), s@)),
    {
        let n = s.unicode_len();
        let mut dp: usize = 0;
        while dp < n && s.get_char(dp) != '.'
            invariant
                dp <= n,
                n == s@.len(),
                forall|i: int| 0 <= i < dp ==> s@[i] != '.',
            decreases n - dp,
        {
            dp += 1;
        }
        proof {
            lemma_first_dot(s@, dp as int);
        }
        assert(dp < n);
        let ghost fraction = s@.subrange(dp + 1, n as int);
        // the power of ten with as many digits as follow the point
        let mut div: i64 = 1;
        let mut k: usize = dp + 1;
        while k < n
            invariant
                dp + 1 <= k <= n,
                *self == *old(self),
                self.wf(),
                n == s@.len(),
                first_dot(s@) == dp,
                fraction == s@.subrange(dp + 1, n as int),
                fraction.len() == n - dp - 1,
                div == ten_power((k - dp - 1) as nat),
                0 < div,
            decreases n - k,
        {
            div = match div.checked_mul(10) {
                Some(d) => d,
                None => {
                    proof {
                        lemma_ten_power_monotone((k - dp) as nat, fraction.len());
                    }
                    return Err(Error::Overflow);
                },
            };
            k += 1;
        }
        let i = match parse_i64(s.substring_char(0, dp)) {
            Some(i) => i,
            None => {
                return Err(Error::IntegerError);
            },
        };
        let j = match parse_i64(s.substring_char(dp + 1, n)) {
            Some(j) => j,
            None => {
                return Err(Error::IntegerError);
            },
        };
        let hi = self.integer(i);
        let hj = self.integer(j);
        let hd = self.integer(div);
        let q = match self.div(hj, hd) {
            Ok(q) => q,
            Err(e) => {
                return Err(e);
            },
        };
        self.add(hi, q)
    }
}

} // verus!
