//! Monomials: products of interned bases raised to nonzero integer powers,
//! kept sorted by base so that equal products have equal representations.

use vstd::prelude::*;
use crate::node::NodeRc;

verus! {

/// The stored form of a monomial: `(base, exponent)` pairs.
pub type Base = Vec<(NodeRc, i64)>;

/// The mathematical form of a monomial: `(base, exponent)` pairs with
/// unbounded exponents. The empty monomial is the constant 1.
pub type Monomial = Seq<(NodeRc, int)>;

/// The result of a three-way comparison.
#[derive(Clone, Copy, Debug, PartialEq, Eq, Structural)]
pub enum Rank {
    Less,
    Equal,
    Greater,
}

/// The monomial that a stored base list stands for.
pub open spec fn base_view(b: Seq<(NodeRc, i64)>) -> Monomial {
    Seq::new(b.len(), |i: int| (b[i].0, b[i].1 as int))
}

/// A monomial is well formed when its bases strictly increase and no
/// exponent is zero.
pub open spec fn mono_wf(m: Monomial) -> bool {
    &&& forall|i: int, j: int| 0 <= i < j < m.len() ==> (#[trigger] m[i]).0.id < (#[trigger] m[j]).0.id
    &&& forall|i: int| 0 <= i < m.len() ==> (#[trigger] m[i]).1 != 0
}

/// Whether every exponent can be stored.
pub open spec fn mono_fits(m: Monomial) -> bool {
    forall|i: int| 0 <= i < m.len() ==> i64::MIN <= (#[trigger] m[i]).1 <= i64::MAX
}

/// Every base of `m` has an id of at least `n`.
pub open spec fn mono_from(m: Monomial, n: int) -> bool {
    forall|i: int| 0 <= i < m.len() ==> (#[trigger] m[i]).0.id >= n
}

/// Every base of `m` is a handle below `n`.
pub open spec fn mono_below(m: Monomial, n: int) -> bool {
    forall|k: int| 0 <= k < m.len() ==> (#[trigger] m[k]).0.id < n
}

/// The exponent of `h` in `m`; zero if `h` does not occur.
pub open spec fn mono_exp(m: Monomial, h: NodeRc) -> int
    decreases m.len(),
{
    if m.len() == 0 {
        0
    } else if m[0].0 == h {
        m[0].1
    } else {
        mono_exp(m.skip(1), h)
    }
}

/// The product of two monomials: exponents of shared bases are added, and a
/// base whose exponents cancel disappears.
pub open spec fn mono_mul(a: Monomial, b: Monomial) -> Monomial
    decreases a.len() + b.len(),
{
    if a.len() == 0 {
        b
    } else if b.len() == 0 {
        a
    } else if a[0].0.id < b[0].0.id {
        seq![a[0]] + mono_mul(a.skip(1), b)
    } else if b[0].0.id < a[0].0.id {
        seq![b[0]] + mono_mul(a, b.skip(1))
    } else if a[0].1 + b[0].1 == 0 {
        mono_mul(a.skip(1), b.skip(1))
    } else {
        seq![(a[0].0, a[0].1 + b[0].1)] + mono_mul(a.skip(1), b.skip(1))
    }
}

/// A monomial raised to the power `i`: every exponent is multiplied by `i`.
pub open spec fn mono_pow(m: Monomial, i: int) -> Monomial {
    Seq::new(m.len(), |k: int| (m[k].0, m[k].1 * i))
}

/// `a` comes before `b` at position `k` and agrees with it before.
pub open spec fn lex_lt_at(a: Seq<int>, b: Seq<int>, k: int) -> bool {
    &&& 0 <= k < a.len()
    &&& k < b.len()
    &&& a[k] < b[k]
    &&& forall|j: int| 0 <= j < k ==> a[j] == b[j]
}

/// Lexicographic order on integer sequences.
pub open spec fn lex_lt(a: Seq<int>, b: Seq<int>) -> bool {
    exists|k: int| lex_lt_at(a, b, k)
}

/// The bases of a monomial, as integers.
pub open spec fn mono_ids(m: Monomial) -> Seq<int> {
    Seq::new(m.len(), |i: int| m[i].0.id as int)
}

/// The exponents of a monomial.
pub open spec fn mono_exps(m: Monomial) -> Seq<int> {
    Seq::new(m.len(), |i: int| m[i].1)
}

/// The order in which a polynomial keeps its monomials: by length, then by
/// the bases, then by the exponents.
pub open spec fn mono_lt(a: Monomial, b: Monomial) -> bool {
    ||| a.len() < b.len()
    ||| (a.len() == b.len() && lex_lt(mono_ids(a), mono_ids(b)))
    ||| (a.len() == b.len() && mono_ids(a) == mono_ids(b) && lex_lt(mono_exps(a), mono_exps(b)))
}

pub proof fn lemma_lex_lt_irreflexive(a: Seq<int>)
    ensures
        !lex_lt(a, a),
{
}

pub proof fn lemma_lex_lt_transitive(a: Seq<int>, b: Seq<int>, c: Seq<int>)
    requires
        lex_lt(a, b),
        lex_lt(b, c),
    ensures
        lex_lt(a, c),
{
    let k1 = choose|k: int| lex_lt_at(a, b, k);
    let k2 = choose|k: int| lex_lt_at(b, c, k);
    let k = if k1 < k2 { k1 } else { k2 };
    assert(lex_lt_at(a, c, k));
}

/// No monomial comes before itself.
pub proof fn lemma_mono_lt_irreflexive(a: Monomial)
    ensures
        !mono_lt(a, a),
{
    lemma_lex_lt_irreflexive(mono_ids(a));
    lemma_lex_lt_irreflexive(mono_exps(a));
}

/// The monomial order is transitive.
pub proof fn lemma_mono_lt_transitive(a: Monomial, b: Monomial, c: Monomial)
    requires
        mono_lt(a, b),
        mono_lt(b, c),
    ensures
        mono_lt(a, c),
{
    if a.len() == b.len() && b.len() == c.len() {
        if lex_lt(mono_ids(a), mono_ids(b)) {
            if lex_lt(mono_ids(b), mono_ids(c)) {
                lemma_lex_lt_transitive(mono_ids(a), mono_ids(b), mono_ids(c));
            }
        } else if lex_lt(mono_ids(b), mono_ids(c)) {
        } else {
            lemma_lex_lt_transitive(mono_exps(a), mono_exps(b), mono_exps(c));
        }
    }
}

/// A monomial is determined by its bases and exponents.
pub proof fn lemma_mono_ids_exps(a: Monomial, b: Monomial)
    requires
        mono_ids(a) == mono_ids(b),
        mono_exps(a) == mono_exps(b),
    ensures
        a == b,
{
    assert(a.len() == mono_ids(a).len());
    assert(b.len() == mono_ids(b).len());
    assert forall|i: int| 0 <= i < a.len() implies a[i] == b[i] by {
        assert(mono_ids(a)[i] == a[i].0.id as int);
        assert(mono_ids(b)[i] == b[i].0.id as int);
        assert(mono_exps(a)[i] == a[i].1);
        assert(mono_exps(b)[i] == b[i].1);
        assert(a[i].0.id == b[i].0.id);
        assert(a[i].0 == b[i].0);
        assert(a[i].1 == b[i].1);
    }
    assert(a =~= b);
}

/// Of two integer sequences of one length that differ, one comes before
/// the other.
pub proof fn lemma_lex_total(a: Seq<int>, b: Seq<int>)
    requires
        a.len() == b.len(),
    ensures
        a == b || lex_lt(a, b) || lex_lt(b, a),
    decreases a.len(),
{
    if a.len() == 0 {
        assert(a =~= b);
    } else {
        let fa = a.drop_last();
        let fb = b.drop_last();
        let n = a.len() - 1;
        lemma_lex_total(fa, fb);
        if fa == fb {
            assert forall|j: int| 0 <= j < n implies a[j] == b[j] by {
                assert(a[j] == fa[j] && b[j] == fb[j]);
            }
            if a[n] < b[n] {
                assert(lex_lt_at(a, b, n));
            } else if b[n] < a[n] {
                assert(lex_lt_at(b, a, n));
            } else {
                assert(a =~= b);
            }
        } else if lex_lt(fa, fb) {
            let k = choose|k: int| lex_lt_at(fa, fb, k);
            assert forall|j: int| 0 <= j <= k implies a[j] == fa[j] && b[j] == fb[j] by {}
            assert(lex_lt_at(a, b, k));
        } else {
            let k = choose|k: int| lex_lt_at(fb, fa, k);
            assert forall|j: int| 0 <= j <= k implies a[j] == fa[j] && b[j] == fb[j] by {}
            assert(lex_lt_at(b, a, k));
        }
    }
}

/// Of two monomials that differ, one comes before the other.
pub proof fn lemma_mono_lt_total(a: Monomial, b: Monomial)
    ensures
        a == b || mono_lt(a, b) || mono_lt(b, a),
{
    if a.len() == b.len() {
        lemma_lex_total(mono_ids(a), mono_ids(b));
        if mono_ids(a) == mono_ids(b) {
            lemma_lex_total(mono_exps(a), mono_exps(b));
            if mono_exps(a) == mono_exps(b) {
                lemma_mono_ids_exps(a, b);
            }
        }
    }
}

/// A base below every base of a monomial has exponent zero in it.
pub proof fn lemma_mono_exp_absent(m: Monomial, h: NodeRc, n: int)
    requires
        mono_from(m, n),
        h.id < n,
    ensures
        mono_exp(m, h) == 0,
    decreases m.len(),
{
    if m.len() > 0 {
        assert(m[0].0.id >= n);
        assert forall|i: int| 0 <= i < m.skip(1).len() implies (#[trigger] m.skip(1)[i]).0.id >= n by {
            assert(m.skip(1)[i] == m[i + 1]);
        }
        lemma_mono_exp_absent(m.skip(1), h, n);
    }
}

/// The tail of a well-formed monomial is well formed and starts above its
/// head.
pub proof fn lemma_mono_tail(m: Monomial)
    requires
        mono_wf(m),
        m.len() > 0,
    ensures
        mono_wf(m.skip(1)),
        mono_from(m.skip(1), m[0].0.id + 1),
        mono_from(m, m[0].0.id as int),
{
    let t = m.skip(1);
    assert forall|i: int| 0 <= i < t.len() implies (#[trigger] t[i]).0.id >= m[0].0.id + 1 && t[i].1 != 0 by {
        assert(t[i] == m[i + 1]);
    }
    assert forall|i: int, j: int| 0 <= i < j < t.len() implies (#[trigger] t[i]).0.id < (#[trigger] t[j]).0.id by {
        assert(t[i] == m[i + 1]);
        assert(t[j] == m[j + 1]);
    }
    assert forall|i: int| 0 <= i < m.len() implies (#[trigger] m[i]).0.id >= m[0].0.id by {
        if i > 0 {
            assert(m[0].0.id < m[i].0.id);
        }
    }
}

/// Putting a smaller base in front of a well-formed monomial keeps it well
/// formed.
pub proof fn lemma_mono_cons(x: (NodeRc, int), m: Monomial)
    requires
        mono_wf(m),
        mono_from(m, x.0.id + 1),
        x.1 != 0,
    ensures
        mono_wf(seq![x] + m),
        mono_from(seq![x] + m, x.0.id as int),
        (seq![x] + m).skip(1) == m,
        (seq![x] + m)[0] == x,
{
    let r = seq![x] + m;
    assert forall|i: int| 0 < i < r.len() implies #[trigger] r[i] == m[i - 1] by {}
    assert(r.skip(1) =~= m);
    assert forall|i: int, j: int| 0 <= i < j < r.len() implies (#[trigger] r[i]).0.id < (#[trigger] r[j]).0.id by {
        assert(r[j] == m[j - 1]);
        if i > 0 {
            assert(r[i] == m[i - 1]);
        }
    }
    assert forall|i: int| 0 <= i < r.len() implies (#[trigger] r[i]).1 != 0 by {
        if i > 0 {
            assert(r[i] == m[i - 1]);
        }
    }
    assert forall|i: int| 0 <= i < r.len() implies (#[trigger] r[i]).0.id >= x.0.id by {
        if i > 0 {
            assert(r[i] == m[i - 1]);
        }
    }
}

/// The product of well-formed monomials is well formed, and the exponent of
/// every base in it is the sum of its exponents in the factors.
pub proof fn lemma_mono_mul(a: Monomial, b: Monomial, n: int)
    requires
        mono_wf(a),
        mono_wf(b),
        mono_from(a, n),
        mono_from(b, n),
    ensures
        mono_wf(mono_mul(a, b)),
        mono_from(mono_mul(a, b), n),
        forall|h: NodeRc| #[trigger]
            mono_exp(mono_mul(a, b), h) == mono_exp(a, h) + mono_exp(b, h),
    decreases a.len() + b.len(),
{
    let r = mono_mul(a, b);
    if a.len() == 0 {
    } else if b.len() == 0 {
    } else {
        lemma_mono_tail(a);
        lemma_mono_tail(b);
        let (x, y) = (a[0], b[0]);
        assert(x.0.id >= n && y.0.id >= n);
        if x.0.id < y.0.id {
            let rest = mono_mul(a.skip(1), b);
            lemma_mono_mul(a.skip(1), b, x.0.id + 1);
            lemma_mono_cons(x, rest);
            assert forall|h: NodeRc| #[trigger] mono_exp(r, h) == mono_exp(a, h) + mono_exp(b, h) by {
                assert(r.skip(1) == rest && r[0] == x);
                if h == x.0 {
                    lemma_mono_exp_absent(b, h, y.0.id as int);
                } else {
                    assert(mono_exp(r, h) == mono_exp(rest, h));
                }
            }
        } else if y.0.id < x.0.id {
            let rest = mono_mul(a, b.skip(1));
            lemma_mono_mul(a, b.skip(1), y.0.id + 1);
            lemma_mono_cons(y, rest);
            assert forall|h: NodeRc| #[trigger] mono_exp(r, h) == mono_exp(a, h) + mono_exp(b, h) by {
                assert(r.skip(1) == rest && r[0] == y);
                if h == y.0 {
                    lemma_mono_exp_absent(a, h, x.0.id as int);
                } else {
                    assert(mono_exp(r, h) == mono_exp(rest, h));
                }
            }
        } else {
            assert(x.0 == y.0);
            let rest = mono_mul(a.skip(1), b.skip(1));
            lemma_mono_mul(a.skip(1), b.skip(1), x.0.id + 1);
            lemma_mono_exp_absent(a.skip(1), x.0, x.0.id + 1);
            lemma_mono_exp_absent(b.skip(1), x.0, x.0.id + 1);
            if x.1 + y.1 == 0 {
                assert(mono_from(r, n));
            } else {
                lemma_mono_cons((x.0, x.1 + y.1), rest);
            }
            assert forall|h: NodeRc| #[trigger] mono_exp(r, h) == mono_exp(a, h) + mono_exp(b, h) by {
                assert(mono_exp(rest, h) == mono_exp(a.skip(1), h) + mono_exp(b.skip(1), h));
                if x.1 + y.1 != 0 {
                    assert(r.skip(1) == rest && r[0] == (x.0, x.1 + y.1));
                }
            }
        }
        assert(mono_from(r, n));
    }
}

/// A product has no bases but those of its factors.
pub proof fn lemma_mono_mul_below(a: Monomial, b: Monomial, n: int)
    requires
        mono_below(a, n),
        mono_below(b, n),
    ensures
        mono_below(mono_mul(a, b), n),
    decreases a.len() + b.len(),
{
    if a.len() > 0 && b.len() > 0 {
        let ta = a.skip(1);
        let tb = b.skip(1);
        assert forall|k: int| 0 <= k < ta.len() implies (#[trigger] ta[k]).0.id < n by {
            assert(ta[k] == a[k + 1]);
        }
        assert forall|k: int| 0 <= k < tb.len() implies (#[trigger] tb[k]).0.id < n by {
            assert(tb[k] == b[k + 1]);
        }
        assert(a[0].0.id < n && b[0].0.id < n);
        if a[0].0.id < b[0].0.id {
            lemma_mono_mul_below(ta, b, n);
        } else if b[0].0.id < a[0].0.id {
            lemma_mono_mul_below(a, tb, n);
        } else {
            lemma_mono_mul_below(ta, tb, n);
        }
    }
}

/// Well-formed monomials with the same exponent for every base are equal.
pub proof fn lemma_mono_unique(a: Monomial, b: Monomial)
    requires
        mono_wf(a),
        mono_wf(b),
        forall|h: NodeRc| mono_exp(a, h) == #[trigger] mono_exp(b, h),
    ensures
        a == b,
    decreases a.len() + b.len(),
{
    if a.len() == 0 {
        if b.len() > 0 {
            assert(mono_exp(a, b[0].0) == mono_exp(b, b[0].0));
        }
        assert(a =~= b);
    } else if b.len() == 0 {
        assert(mono_exp(a, a[0].0) == mono_exp(b, a[0].0));
    } else {
        lemma_mono_tail(a);
        lemma_mono_tail(b);
        let (x, y) = (a[0], b[0]);
        assert(mono_exp(a, x.0) == mono_exp(b, x.0));
        assert(mono_exp(a, y.0) == mono_exp(b, y.0));
        if x.0.id < y.0.id {
            lemma_mono_exp_absent(b, x.0, y.0.id as int);
        } else if y.0.id < x.0.id {
            lemma_mono_exp_absent(a, y.0, x.0.id as int);
        } else {
            assert(x.0 == y.0);
            assert(x == y);
            lemma_mono_exp_absent(a.skip(1), x.0, x.0.id + 1);
            lemma_mono_exp_absent(b.skip(1), x.0, x.0.id + 1);
            assert forall|h: NodeRc| mono_exp(a.skip(1), h) == #[trigger] mono_exp(b.skip(1), h) by {
                assert(mono_exp(a, h) == mono_exp(b, h));
            }
            lemma_mono_unique(a.skip(1), b.skip(1));
            assert(a =~= seq![x] + a.skip(1));
            assert(b =~= seq![y] + b.skip(1));
        }
    }
}

/// Multiplication of monomials is commutative.
pub proof fn lemma_mono_mul_commutative(a: Monomial, b: Monomial)
    requires
        mono_wf(a),
        mono_wf(b),
    ensures
        mono_mul(a, b) == mono_mul(b, a),
{
    lemma_mono_mul(a, b, 0);
    lemma_mono_mul(b, a, 0);
    assert forall|h: NodeRc| mono_exp(mono_mul(a, b), h) == #[trigger] mono_exp(mono_mul(b, a), h) by {}
    lemma_mono_unique(mono_mul(a, b), mono_mul(b, a));
}

/// Multiplication of monomials is associative.
pub proof fn lemma_mono_mul_associative(a: Monomial, b: Monomial, c: Monomial)
    requires
        mono_wf(a),
        mono_wf(b),
        mono_wf(c),
    ensures
        mono_mul(mono_mul(a, b), c) == mono_mul(a, mono_mul(b, c)),
{
    lemma_mono_mul(a, b, 0);
    lemma_mono_mul(b, c, 0);
    lemma_mono_mul(mono_mul(a, b), c, 0);
    lemma_mono_mul(a, mono_mul(b, c), 0);
    assert forall|h: NodeRc|
        mono_exp(mono_mul(mono_mul(a, b), c), h) == #[trigger] mono_exp(mono_mul(a, mono_mul(b, c)), h) by {
        assert(mono_exp(mono_mul(a, b), h) == mono_exp(a, h) + mono_exp(b, h));
        assert(mono_exp(mono_mul(b, c), h) == mono_exp(b, h) + mono_exp(c, h));
    }
    lemma_mono_unique(mono_mul(mono_mul(a, b), c), mono_mul(a, mono_mul(b, c)));
}

/// A power of a well-formed monomial is well formed.
pub proof fn lemma_mono_pow_wf(m: Monomial, i: int)
    requires
        mono_wf(m),
        i != 0,
    ensures
        mono_wf(mono_pow(m, i)),
{
    let r = mono_pow(m, i);
    assert forall|k: int| 0 <= k < r.len() implies (#[trigger] r[k]).1 != 0 by {
        let e = m[k].1;
        assert(e != 0);
        assert(e * i != 0) by (nonlinear_arith)
            requires
                e != 0,
                i != 0,
        ;
    }
    assert forall|k: int, l: int| 0 <= k < l < r.len() implies (#[trigger] r[k]).0.id < (#[trigger] r[l]).0.id by {
        assert(m[k].0.id < m[l].0.id);
    }
}

/// A copy of a stored monomial.
pub fn base_copy(a: &Base) -> (r: Base)
    ensures
        r@ == a@,
{
    let mut out: Base = Vec::new();
    let mut i: usize = 0;
    while i < a.len()
        invariant
            i <= a.len(),
            out@ == a@.take(i as int),
        decreases a.len() - i,
    {
        out.push(a[i]);
        assert(a@.take(i + 1) =~= a@.take(i as int).push(a@[i as int]));
        i += 1;
    }
    assert(a@.take(a.len() as int) =~= a@);
    out
}

/// Compares two stored monomials in the order of [`mono_lt`].
pub fn base_order(a: &Base, b: &Base) -> (r: Rank)
    ensures
        r == Rank::Less <==> mono_lt(base_view(a@), base_view(b@)),
        r == Rank::Equal <==> base_view(a@) == base_view(b@),
        r == Rank::Greater <==> mono_lt(base_view(b@), base_view(a@)),
        r == Rank::Equal ==> a@ == b@,
{
    let ghost va = base_view(a@);
    let ghost vb = base_view(b@);
    proof {
        lemma_mono_lt_irreflexive(va);
        if mono_lt(va, vb) && mono_lt(vb, va) {
            lemma_mono_lt_transitive(va, vb, va);
        }
    }
    if a.len() < b.len() {
        return Rank::Less;
    }
    if a.len() > b.len() {
        return Rank::Greater;
    }
    let n = a.len();
    let mut i: usize = 0;
    while i < n
        invariant
            i <= n,
            n == a.len(),
            n == b.len(),
            va == base_view(a@),
            vb == base_view(b@),
            forall|j: int| 0 <= j < i ==> a@[j].0 == b@[j].0,
        decreases n - i,
    {
        if a[i].0.id < b[i].0.id {
            assert(lex_lt_at(mono_ids(va), mono_ids(vb), i as int));
            return Rank::Less;
        }
        if a[i].0.id > b[i].0.id {
            assert(lex_lt_at(mono_ids(vb), mono_ids(va), i as int));
            return Rank::Greater;
        }
        i += 1;
    }
    assert(mono_ids(va) =~= mono_ids(vb));
    let mut i: usize = 0;
    while i < n
        invariant
            i <= n,
            n == a.len(),
            n == b.len(),
            va == base_view(a@),
            vb == base_view(b@),
            mono_ids(va) == mono_ids(vb),
            forall|j: int| 0 <= j < n ==> a@[j].0 == b@[j].0,
            forall|j: int| 0 <= j < i ==> a@[j].1 == b@[j].1,
        decreases n - i,
    {
        if a[i].1 < b[i].1 {
            assert(lex_lt_at(mono_exps(va), mono_exps(vb), i as int));
            return Rank::Less;
        }
        if a[i].1 > b[i].1 {
            assert(lex_lt_at(mono_exps(vb), mono_exps(va), i as int));
            return Rank::Greater;
        }
        i += 1;
    }
    assert(a@ =~= b@);
    assert(va =~= vb);
    Rank::Equal
}

/// The product of two stored monomials, or `None` if an exponent of the
/// product cannot be stored.
pub fn base_mul(a: &Base, b: &Base) -> (r: Option<Base>)
    requires
        mono_wf(base_view(a@)),
        mono_wf(base_view(b@)),
    ensures
        r.is_some() <==> mono_fits(mono_mul(base_view(a@), base_view(b@))),
        r matches Some(m) ==> base_view(m@) == mono_mul(base_view(a@), base_view(b@)),
{
    let ghost va = base_view(a@);
    let ghost vb = base_view(b@);
    let n = a.len();
    let m = b.len();
    let mut out: Base = Vec::new();
    let mut i: usize = 0;
    let mut j: usize = 0;
    assert(va.skip(0) =~= va && vb.skip(0) =~= vb);
    assert(base_view(out@) + mono_mul(va, vb) =~= mono_mul(va, vb));
    while i < n || j < m
        invariant
            i <= n,
            j <= m,
            n == a.len(),
            m == b.len(),
            va == base_view(a@),
            vb == base_view(b@),
            base_view(out@) + mono_mul(va.skip(i as int), vb.skip(j as int)) == mono_mul(va, vb),
        decreases (n - i) + (m - j),
    {
        let ghost ra = va.skip(i as int);
        let ghost rb = vb.skip(j as int);
        let ghost before = base_view(out@);
        proof {
            if i < n {
                assert(ra.skip(1) =~= va.skip(i + 1));
                assert(ra[0] == va[i as int]);
            }
            if j < m {
                assert(rb.skip(1) =~= vb.skip(j + 1));
                assert(rb[0] == vb[j as int]);
            }
        }
        if i < n && (j >= m || a[i].0.id < b[j].0.id) {
            let e = a[i];
            out.push(e);
            i += 1;
            proof {
                let rest = mono_mul(va.skip(i as int), rb);
                assert(mono_mul(ra, rb) =~= seq![(e.0, e.1 as int)] + rest) by {
                    if j >= m {
                        assert(rb.len() == 0);
                        assert(rest == va.skip(i as int));
                        assert(ra =~= seq![ra[0]] + ra.skip(1));
                    }
                }
                assert(base_view(out@) =~= before.push((e.0, e.1 as int)));
                assert(base_view(out@) + rest =~= before + (seq![(e.0, e.1 as int)] + rest));
            }
        } else if i >= n || b[j].0.id < a[i].0.id {
            let e = b[j];
            out.push(e);
            j += 1;
            proof {
                let rest = mono_mul(ra, vb.skip(j as int));
                assert(mono_mul(ra, rb) =~= seq![(e.0, e.1 as int)] + rest) by {
                    if i >= n {
                        assert(ra.len() == 0);
                        assert(rest == vb.skip(j as int));
                        assert(rb =~= seq![rb[0]] + rb.skip(1));
                    }
                }
                assert(base_view(out@) =~= before.push((e.0, e.1 as int)));
                assert(base_view(out@) + rest =~= before + (seq![(e.0, e.1 as int)] + rest));
            }
        } else {
            let x = a[i];
            let y = b[j];
            match x.1.checked_add(y.1) {
                None => {
                    proof {
                        let rest = mono_mul(ra.skip(1), rb.skip(1));
                        let product = mono_mul(va, vb);
                        let k = before.len() as int;
                        assert(product == before + (seq![(x.0, x.1 + y.1)] + rest));
                        assert(product[k] == (x.0, x.1 + y.1));
                        assert(!(i64::MIN <= product[k].1 <= i64::MAX));
                    }
                    return None;
                },
                Some(e) => {
                    i += 1;
                    j += 1;
                    if e != 0 {
                        out.push((x.0, e));
                        proof {
                            let rest = mono_mul(va.skip(i as int), vb.skip(j as int));
                            assert(base_view(out@) =~= before.push((x.0, e as int)));
                            assert(base_view(out@) + rest =~= before + (seq![(x.0, e as int)] + rest));
                        }
                    }
                },
            }
        }
    }
    proof {
        assert(mono_mul(va.skip(n as int), vb.skip(m as int)).len() == 0);
        assert(base_view(out@) =~= mono_mul(va, vb));
    }
    Some(out)
}

/// A stored monomial raised to the nonzero power `i`, or `None` if an
/// exponent of the power cannot be stored.
pub fn base_pow(a: &Base, i: i32) -> (r: Option<Base>)
    requires
        i != 0,
    ensures
        r.is_some() <==> mono_fits(mono_pow(base_view(a@), i as int)),
        r matches Some(m) ==> base_view(m@) == mono_pow(base_view(a@), i as int),
{
    let ghost va = base_view(a@);
    let mut out: Base = Vec::new();
    let mut k: usize = 0;
    while k < a.len()
        invariant
            k <= a.len(),
            va == base_view(a@),
            base_view(out@) == mono_pow(va, i as int).take(k as int),
        decreases a.len() - k,
    {
        let x = a[k];
        match x.1.checked_mul(i as i64) {
            None => {
                proof {
                    let p = mono_pow(va, i as int);
                    assert(p[k as int].1 == x.1 * i);
                }
                return None;
            },
            Some(e) => {
                let ghost before = base_view(out@);
                out.push((x.0, e));
                proof {
                    let p = mono_pow(va, i as int);
                    assert(base_view(out@) =~= before.push((x.0, e as int)));
                    assert(p.take(k + 1) =~= p.take(k as int).push(p[k as int]));
                }
                k += 1;
            },
        }
    }
    proof {
        let p = mono_pow(va, i as int);
        assert(p.take(a.len() as int) =~= p);
    }
    Some(out)
}

/// The inverse of a monomial: every exponent negated.
pub open spec fn mono_inv(m: Monomial) -> Monomial {
    Seq::new(m.len(), |k: int| (m[k].0, -m[k].1))
}

/// The inverse of a well-formed monomial is well formed, and has the
/// negated exponents.
pub proof fn lemma_mono_inv(m: Monomial)
    requires
        mono_wf(m),
    ensures
        mono_wf(mono_inv(m)),
        forall|h: NodeRc| #[trigger] mono_exp(mono_inv(m), h) == -mono_exp(m, h),
    decreases m.len(),
{
    let r = mono_inv(m);
    assert forall|i: int, j: int| 0 <= i < j < r.len() implies (#[trigger] r[i]).0.id < (#[trigger] r[j]).0.id by {
        assert(m[i].0.id < m[j].0.id);
    }
    assert forall|i: int| 0 <= i < r.len() implies (#[trigger] r[i]).1 != 0 by {
        assert(m[i].1 != 0);
    }
    if m.len() > 0 {
        lemma_mono_tail(m);
        lemma_mono_inv(m.skip(1));
        assert(r.skip(1) =~= mono_inv(m.skip(1)));
        assert forall|h: NodeRc| #[trigger] mono_exp(r, h) == -mono_exp(m, h) by {
            assert(mono_exp(mono_inv(m.skip(1)), h) == -mono_exp(m.skip(1), h));
        }
    }
}

/// Multiplying by a monomial and by its inverse gives the monomial back.
pub proof fn lemma_mono_cancel(m: Monomial, b: Monomial)
    requires
        mono_wf(m),
        mono_wf(b),
    ensures
        mono_mul(mono_mul(m, b), mono_inv(b)) == m,
        mono_mul(mono_mul(m, mono_inv(b)), b) == m,
        mono_wf(mono_mul(m, b)),
        mono_wf(mono_mul(m, mono_inv(b))),
{
    lemma_mono_inv(b);
    lemma_mono_mul(m, b, 0);
    lemma_mono_mul(m, mono_inv(b), 0);
    lemma_mono_mul(mono_mul(m, b), mono_inv(b), 0);
    lemma_mono_mul(mono_mul(m, mono_inv(b)), b, 0);
    assert forall|h: NodeRc| mono_exp(mono_mul(mono_mul(m, b), mono_inv(b)), h) == #[trigger] mono_exp(m, h) by {
        assert(mono_exp(mono_mul(m, b), h) == mono_exp(m, h) + mono_exp(b, h));
        assert(mono_exp(mono_inv(b), h) == -mono_exp(b, h));
    }
    lemma_mono_unique(mono_mul(mono_mul(m, b), mono_inv(b)), m);
    assert forall|h: NodeRc| mono_exp(mono_mul(mono_mul(m, mono_inv(b)), b), h) == #[trigger] mono_exp(m, h) by {
        assert(mono_exp(mono_mul(m, mono_inv(b)), h) == mono_exp(m, h) + mono_exp(mono_inv(b), h));
        assert(mono_exp(mono_inv(b), h) == -mono_exp(b, h));
    }
    lemma_mono_unique(mono_mul(mono_mul(m, mono_inv(b)), b), m);
}

} // verus!
