//! The lowering pass: from an interned expression to a program for a
//! numeric backend, with every shared sub-expression computed once.
//!
//! A node that is used more than once is stored in a temporary when it is
//! made, and loaded at each further use. A base raised to the power `e`
//! is used `|e|` times.

use vstd::prelude::*;
use crate::builder::{strings_view, Error};
use crate::monomial::{base_view, mono_below, Base, Monomial};
use crate::node::{node_below, node_stored, store_wf, Cache, Node, NodeRc, NodeView, Store};
use crate::poly::{canon, lemma_coeff_at, poly_below, Poly, Term};
use crate::rational::{abs, Fraction, Rational};
use crate::vm::{
    instrs_view, lemma_extends_transitive, lemma_push_extends, lemma_store_index_extends,
    lemma_store_index_push, lemma_value_tree_extends, lemma_value_trees_concat, lemma_value_trees_index,
    lemma_value_trees_later, loads, program_extends, store_index, store_uses, value_tree, value_trees,
    Instr, InstrView, Program, Tree,
};

verus! {

/// The places at which a node uses other nodes: the node used, and how
/// many times.
pub type Uses = Seq<(NodeRc, nat)>;

/// The uses of a monomial: each base as many times as the magnitude of
/// its exponent.
pub open spec fn factor_uses(base: Monomial) -> Uses {
    Seq::new(base.len(), |k: int| (base[k].0, abs(base[k].1) as nat))
}

/// The uses of a list of terms.
pub open spec fn terms_uses(terms: Seq<Term>) -> Uses
    decreases terms.len(),
{
    if terms.len() == 0 {
        Seq::empty()
    } else {
        terms_uses(terms.drop_last()) + factor_uses(terms.last().base)
    }
}

/// The uses of the node `h`: the argument of a function application, and
/// the bases of a polynomial.
pub open spec fn positions(s: Store, h: nat) -> Uses {
    match s[h as int] {
        NodeView::Func(_, g) => seq![(g, 1nat)],
        NodeView::Poly(p) => terms_uses(canon(p)),
        _ => Seq::empty(),
    }
}

/// How many times the uses `u` use the node `v`.
pub open spec fn weight(u: Uses, v: nat) -> nat
    decreases u.len(),
{
    if u.len() == 0 {
        0
    } else {
        weight(u.drop_last(), v) + (if u.last().0.id == v {
            u.last().1
        } else {
            0
        })
    }
}

/// The reference count of the node `v` in the expression `root`: 1 for
/// the root itself, plus the uses of `v` by each node above it that is
/// used itself.
pub open spec fn uses(s: Store, root: nat, v: nat) -> nat
    decreases root - v, root + 2,
{
    if v > root {
        0
    } else {
        (if v == root {
            1nat
        } else {
            0nat
        }) + incoming(s, root, v, v + 1)
    }
}

/// The uses of the node `v` by the nodes from `lo` to `root` that are
/// used themselves.
pub open spec fn incoming(s: Store, root: nat, v: nat, lo: nat) -> nat
    decreases root - v, root + 1 - lo,
{
    if lo > root || lo <= v {
        0
    } else {
        (if uses(s, root, lo) > 0 {
            weight(positions(s, lo), v)
        } else {
            0
        }) + incoming(s, root, v, lo + 1)
    }
}

/// The uses of both lists together are the uses of the one plus the uses
/// of the other.
pub proof fn lemma_weight_concat(a: Uses, b: Uses, v: nat)
    ensures
        weight(a + b, v) == weight(a, v) + weight(b, v),
    decreases b.len(),
{
    if b.len() == 0 {
        assert(a + b =~= a);
    } else {
        assert((a + b).drop_last() =~= a + b.drop_last());
        assert((a + b).last() == b.last());
        lemma_weight_concat(a, b.drop_last(), v);
    }
}

/// The uses by fewer nodes are fewer.
pub proof fn lemma_incoming_monotone(s: Store, root: nat, v: nat, lo: nat, hi: nat)
    requires
        v < lo <= hi,
    ensures
        incoming(s, root, v, hi) <= incoming(s, root, v, lo),
    decreases hi - lo,
{
    if lo < hi {
        lemma_incoming_monotone(s, root, v, lo + 1, hi);
    }
}

/// Adds `k` to the count of the node `v`, if the sum is a `usize`.
fn bump(counts: &mut Vec<usize>, v: usize, k: usize) -> (r: bool)
    requires
        v < old(counts)@.len(),
    ensures
        r == (old(counts)@[v as int] + k <= usize::MAX),
        r ==> final(counts)@ == old(counts)@.update(v as int, (old(counts)@[v as int] + k) as usize),
        !r ==> final(counts)@ == old(counts)@,
{
    match counts[v].checked_add(k) {
        Some(sum) => {
            counts[v] = sum;
            true
        },
        None => false,
    }
}

/// The magnitude of an exponent, if it is a `usize`.
fn exponent_uses(e: i64) -> (r: Option<usize>)
    ensures
        r matches Some(k) ==> k == abs(e as int),
        r is None ==> abs(e as int) > usize::MAX,
{
    let m: u64 = if e >= 0 {
        e as u64
    } else if e == i64::MIN {
        0x8000_0000_0000_0000
    } else {
        (0 - e) as u64
    };
    if m > usize::MAX as u64 {
        None
    } else {
        Some(m as usize)
    }
}

/// The counts `after` are the counts `before` plus the uses `u`.
pub open spec fn counted(before: Seq<usize>, after: Seq<usize>, u: Uses) -> bool {
    &&& after.len() == before.len()
    &&& forall|v: int| 0 <= v < before.len() ==> #[trigger] after[v] == before[v] + weight(u, v as nat)
}

/// Some count plus the uses `u` is no `usize`.
pub open spec fn overflows(before: Seq<usize>, u: Uses) -> bool {
    exists|v: int| 0 <= v < before.len() && #[trigger] before[v] + weight(u, v as nat) > usize::MAX
}

/// Every node that `u` uses is below `n`.
pub open spec fn uses_below(u: Uses, n: int) -> bool {
    forall|k: int| 0 <= k < u.len() ==> (#[trigger] u[k]).0.id < n
}

/// More uses overflow if fewer do.
pub proof fn lemma_overflows_more(before: Seq<usize>, a: Uses, b: Uses)
    requires
        overflows(before, a),
    ensures
        overflows(before, a + b),
{
    let v = choose|v: int| 0 <= v < before.len() && #[trigger] before[v] + weight(a, v as nat) > usize::MAX;
    lemma_weight_concat(a, b, v as nat);
    assert(before[v] + weight(a + b, v as nat) > usize::MAX);
}

/// Adds the uses of a monomial to the counts.
fn count_base(counts: &mut Vec<usize>, base: &Base) -> (r: bool)
    requires
        mono_below(base_view(base@), old(counts)@.len() as int),
    ensures
        final(counts)@.len() == old(counts)@.len(),
        r ==> counted(old(counts)@, final(counts)@, factor_uses(base_view(base@))),
        !r ==> overflows(old(counts)@, factor_uses(base_view(base@))),
{
    let ghost before = counts@;
    let ghost all = factor_uses(base_view(base@));
    let mut i: usize = 0;
    assert(all.take(0) =~= Seq::<(NodeRc, nat)>::empty());
    while i < base.len()
        invariant
            i <= base@.len(),
            before == old(counts)@,
            all == factor_uses(base_view(base@)),
            mono_below(base_view(base@), before.len() as int),
            counted(before, counts@, all.take(i as int)),
        decreases base@.len() - i,
    {
        let (v, e) = base[i];
        let ghost current = counts@;
        let ghost done = all.take(i as int);
        proof {
            assert(base_view(base@)[i as int].0.id < before.len());
            assert(all.take(i + 1).drop_last() =~= done);
            assert(all.take(i + 1).last() == (v, abs(e as int) as nat));
            assert(all =~= all.take(i + 1) + all.skip(i + 1));
        }
        let added = match exponent_uses(e) {
            Some(k) => bump(counts, v.id, k),
            None => false,
        };
        if !added {
            proof {
                assert(current[v.id as int] + weight(all.take(i + 1), v.id as nat) > usize::MAX);
                assert(overflows(before, all.take(i + 1)));
                lemma_overflows_more(before, all.take(i + 1), all.skip(i + 1));
            }
            return false;
        }
        i += 1;
    }
    proof {
        assert(all.take(i as int) =~= all);
    }
    true
}

/// Adds the uses of the terms of a polynomial to the counts.
fn count_poly(counts: &mut Vec<usize>, p: &Poly) -> (r: bool)
    requires
        p.wf(),
        poly_below(p@, old(counts)@.len() as int),
    ensures
        final(counts)@.len() == old(counts)@.len(),
        r ==> counted(old(counts)@, final(counts)@, terms_uses(p.terms())),
        !r ==> overflows(old(counts)@, terms_uses(p.terms())),
{
    let ghost before = counts@;
    let ghost terms = p.terms();
    let mut i: usize = 0;
    assert(terms.take(0) =~= Seq::<Term>::empty());
    while i < p.len()
        invariant
            i <= terms.len(),
            p.wf(),
            terms == p.terms(),
            before == old(counts)@,
            poly_below(p@, before.len() as int),
            counted(before, counts@, terms_uses(terms.take(i as int))),
        decreases terms.len() - i,
    {
        let ghost current = counts@;
        let ghost done = terms_uses(terms.take(i as int));
        let ghost more = factor_uses(terms[i as int].base);
        proof {
            assert(terms.take(i + 1).drop_last() =~= terms.take(i as int));
            assert(terms.take(i + 1).last() == terms[i as int]);
            lemma_coeff_at(terms, i as int);
            assert(p@.dom().contains(terms[i as int].base));
            assert forall|v: nat| #[trigger] weight(done + more, v) == weight(done, v) + weight(more, v) by {
                lemma_weight_concat(done, more, v);
            }
        }
        let (base, _) = p.term(i);
        if !count_base(counts, base) {
            proof {
                let v = choose|v: int|
                    0 <= v < current.len() && #[trigger] current[v] + weight(more, v as nat) > usize::MAX;
                assert(before[v] + weight(done + more, v as nat) > usize::MAX);
                assert(overflows(before, terms_uses(terms.take(i + 1))));
                lemma_terms_uses_split(terms, i + 1);
                lemma_overflows_more(before, terms_uses(terms.take(i + 1)), terms_uses(terms.skip(i + 1)));
            }
            return false;
        }
        i += 1;
    }
    proof {
        assert(terms.take(i as int) =~= terms);
    }
    true
}

/// The uses of a list of terms are those of its first terms and those of
/// the rest.
pub proof fn lemma_terms_uses_split(terms: Seq<Term>, k: int)
    requires
        0 <= k <= terms.len(),
    ensures
        terms_uses(terms) == terms_uses(terms.take(k)) + terms_uses(terms.skip(k)),
    decreases terms.len(),
{
    if k == terms.len() {
        assert(terms.take(k) =~= terms);
        assert(terms.skip(k) =~= Seq::<Term>::empty());
        assert(terms_uses(terms) =~= terms_uses(terms) + Seq::<(NodeRc, nat)>::empty());
    } else {
        let front = terms.drop_last();
        lemma_terms_uses_split(front, k);
        assert(front.take(k) =~= terms.take(k));
        assert(front.skip(k) =~= terms.skip(k).drop_last());
        assert(terms.skip(k).last() == terms.last());
        let last = factor_uses(terms.last().base);
        assert(terms_uses(terms) =~= terms_uses(terms.take(k)) + (terms_uses(front.skip(k)) + last));
    }
}

/// Adds the uses of the node `q` to the counts.
fn count_node(cache: &Cache, q: usize, counts: &mut Vec<usize>) -> (r: bool)
    requires
        cache.wf(),
        q < old(counts)@.len(),
        old(counts)@.len() <= cache@.len(),
    ensures
        final(counts)@.len() == old(counts)@.len(),
        r ==> counted(old(counts)@, final(counts)@, positions(cache@, q as nat)),
        !r ==> overflows(old(counts)@, positions(cache@, q as nat)),
        r ==> forall|v: int| q <= v < old(counts)@.len() ==> final(counts)@[v] == old(counts)@[v],
{
    let ghost before = counts@;
    let ghost u = positions(cache@, q as nat);
    proof {
        cache.lemma_wf();
        assert(node_below(cache@[q as int], q as int));
    }
    let r = match cache.get(NodeRc { id: q }) {
        Node::Func(_, g) => {
            proof {
                assert forall|v: nat| #[trigger] weight(u, v) == (if g.id == v { 1nat } else { 0nat }) by {
                    lemma_weight_single((*g, 1nat), v);
                }
            }
            bump(counts, g.id, 1)
        },
        Node::Poly(p) => {
            proof {
                p.lemma_stored();
                assert forall|m: Monomial| #[trigger] p@.dom().contains(m) implies mono_below(
                    m,
                    before.len() as int,
                ) by {
                    assert(mono_below(m, q as int));
                }
            }
            count_poly(counts, p)
        },
        _ => {
            assert(forall|v: nat| weight(u, v) == 0);
            true
        },
    };
    proof {
        cache.lemma_stored(q as int);
        lemma_positions_below(cache@, q as nat);
        if r {
            assert forall|v: int| q <= v < before.len() implies counts@[v] == before[v] by {
                lemma_weight_above(u, q as int, v as nat);
            }
        }
    }
    r
}

/// A node of a well-formed store uses nodes below itself only.
pub proof fn lemma_positions_below(s: Store, q: nat)
    requires
        store_wf(s),
        q < s.len(),
        node_stored(s[q as int]),
    ensures
        uses_below(positions(s, q), q as int),
{
    assert(node_below(s[q as int], q as int));
    match s[q as int] {
        NodeView::Poly(p) => {
            crate::poly::lemma_canon_below(p, q as int);
            lemma_terms_uses_below(canon(p), q as int);
        },
        _ => {},
    }
}

/// The uses of a single place.
pub proof fn lemma_weight_single(x: (NodeRc, nat), v: nat)
    ensures
        weight(seq![x], v) == (if x.0.id == v { x.1 } else { 0 }),
{
    let u = seq![x];
    assert(u.drop_last() =~= Seq::<(NodeRc, nat)>::empty());
    assert(weight(u.drop_last(), v) == 0);
    assert(u.last() == x);
}

/// The uses of terms with bases below `n` are below `n`.
pub proof fn lemma_terms_uses_below(terms: Seq<Term>, n: int)
    ensures
        (forall|i: int| 0 <= i < terms.len() ==> mono_below((#[trigger] terms[i]).base, n)) ==> uses_below(
            terms_uses(terms),
            n,
        ),
    decreases terms.len(),
{
    if terms.len() > 0 {
        lemma_terms_uses_below(terms.drop_last(), n);
        if forall|i: int| 0 <= i < terms.len() ==> mono_below((#[trigger] terms[i]).base, n) {
            assert forall|i: int| 0 <= i < terms.drop_last().len() implies mono_below(
                (#[trigger] terms.drop_last()[i]).base,
                n,
            ) by {
                assert(terms.drop_last()[i] == terms[i]);
            }
            assert(mono_below(terms.last().base, n));
            let a = terms_uses(terms.drop_last());
            let b = factor_uses(terms.last().base);
            assert forall|k: int| 0 <= k < (a + b).len() implies (#[trigger] (a + b)[k]).0.id < n by {
                if k >= a.len() {
                    assert((a + b)[k] == b[k - a.len()]);
                    assert(terms.last().base[k - a.len()].0.id < n);
                } else {
                    assert((a + b)[k] == a[k]);
                }
            }
        }
    }
}

/// Uses of nodes below `n` do not use the node `v` at or above `n`.
pub proof fn lemma_weight_above(u: Uses, n: int, v: nat)
    requires
        uses_below(u, n),
        v >= n,
    ensures
        weight(u, v) == 0,
    decreases u.len(),
{
    if u.len() > 0 {
        assert(u.last() == u[u.len() - 1]);
        assert forall|k: int| 0 <= k < u.drop_last().len() implies (#[trigger] u.drop_last()[k]).0.id < n by {
            assert(u.drop_last()[k] == u[k]);
        }
        lemma_weight_above(u.drop_last(), n, v);
    }
}

/// The later of two places.
pub open spec fn later(a: nat, b: nat) -> nat {
    if a > b {
        a
    } else {
        b
    }
}

/// The reference counts of the nodes of the expression `root`, from node
/// 0 to the root. Fails if a count is no `usize`.
pub fn count_uses(cache: &Cache, root: NodeRc) -> (r: Result<Vec<usize>, Error>)
    requires
        cache.wf(),
        root.id < cache@.len(),
    ensures
        r matches Ok(counts) ==> counts@.len() == root.id + 1 && forall|v: int|
            0 <= v <= root.id ==> #[trigger] counts@[v] == uses(cache@, root.id as nat, v as nat),
        r matches Err(e) ==> e == Error::Overflow && exists|v: nat|
            v <= root.id && #[trigger] uses(cache@, root.id as nat, v) > usize::MAX,
{
    let ghost s = cache@;
    let ghost top = root.id as nat;
    let _ = cache.len();
    let n = root.id + 1;
    let mut counts: Vec<usize> = Vec::new();
    while counts.len() < n
        invariant
            counts@.len() <= n,
            forall|v: int| 0 <= v < counts@.len() ==> counts@[v] == 0,
        decreases n - counts@.len(),
    {
        counts.push(0);
    }
    counts[root.id] = 1;
    let mut q: usize = n;
    while q > 0
        invariant
            q <= n,
            n == root.id + 1,
            top == root.id,
            s == cache@,
            cache.wf(),
            n <= s.len(),
            counts@.len() == n,
            forall|v: int|
                0 <= v < n ==> #[trigger] counts@[v] == (if v == top {
                    1nat
                } else {
                    0nat
                }) + incoming(s, top, v as nat, later((v + 1) as nat, q as nat)),
        decreases q,
    {
        q -= 1;
        let ghost before = counts@;
        assert(before[q as int] == uses(s, top, q as nat));
        if counts[q] > 0 {
            if !count_node(cache, q, &mut counts) {
                proof {
                    let u = positions(s, q as nat);
                    let v = choose|v: int| 0 <= v < before.len() && #[trigger] before[v] + weight(u, v as nat) > usize::MAX;
                    cache.lemma_stored(q as int);
                    cache.lemma_wf();
                    lemma_positions_below(s, q as nat);
                    if v >= q {
                        lemma_weight_above(u, q as int, v as nat);
                    }
                    lemma_incoming_monotone(s, top, v as nat, (v + 1) as nat, q as nat);
                    assert(uses(s, top, v as nat) > usize::MAX);
                }
                return Err(Error::Overflow);
            }
        }
        proof {
            assert forall|v: int| 0 <= v < n implies #[trigger] counts@[v] == (if v == top {
                1nat
            } else {
                0nat
            }) + incoming(s, top, v as nat, later((v + 1) as nat, q as nat)) by {
                if v < q {
                    assert(later((v + 1) as nat, (q + 1) as nat) == q + 1);
                }
            }
        }
    }
    Ok(counts)
}

/// The counts of the nodes below `k` that are used more than once, in the
/// order of the nodes.
pub open spec fn stored_upto(counts: Seq<usize>, k: nat) -> Seq<usize>
    decreases k,
{
    if k == 0 {
        Seq::empty()
    } else if counts[k - 1] > 1 {
        stored_upto(counts, (k - 1) as nat).push(counts[k - 1])
    } else {
        stored_upto(counts, (k - 1) as nat)
    }
}

/// Whether the instruction at the place `at`, after `stores` stores,
/// refers to values and temporaries that were made before it.
pub open spec fn operands_ok(x: InstrView, at: nat, stores: nat) -> bool {
    match x {
        InstrView::Int(_) => true,
        InstrView::Source(_) => true,
        InstrView::Sum(parts) => forall|k: int| 0 <= k < parts.len() ==> #[trigger] parts[k] < at,
        InstrView::Product(parts) => forall|k: int| 0 <= k < parts.len() ==> #[trigger] parts[k] < at,
        InstrView::Store(value, _) => value < at,
        InstrView::Load(slot) => slot < stores,
        InstrView::Div(a, b) => a < at && b < at,
        InstrView::Inv(a) => a < at,
        InstrView::Func(_, a) => a < at,
    }
}

/// Every instruction refers to values and temporaries that were made
/// before it.
pub open spec fn program_wf(iv: Seq<InstrView>) -> bool {
    forall|i: int| 0 <= i < iv.len() ==> operands_ok(#[trigger] iv[i], i as nat, store_uses(iv.take(i)).len())
}

/// Adding an instruction whose operands were made before keeps a program
/// well formed.
pub proof fn lemma_program_push(iv: Seq<InstrView>, x: InstrView)
    requires
        program_wf(iv),
        operands_ok(x, iv.len(), store_uses(iv).len()),
    ensures
        program_wf(iv.push(x)),
{
    let next = iv.push(x);
    assert forall|i: int| 0 <= i < next.len() implies operands_ok(
        #[trigger] next[i],
        i as nat,
        store_uses(next.take(i)).len(),
    ) by {
        if i < iv.len() {
            assert(next.take(i) =~= iv.take(i));
            assert(next[i] == iv[i]);
        } else {
            assert(next.take(i) =~= iv);
        }
    }
}

/// What one more instruction does to the stores and loads of a program.
pub proof fn lemma_push_counts(iv: Seq<InstrView>, x: InstrView)
    ensures
        store_uses(iv.push(x)) == (match x {
            InstrView::Store(_, uses) => store_uses(iv).push(uses),
            _ => store_uses(iv),
        }),
        forall|slot: usize| #[trigger]
            loads(iv.push(x), slot) == loads(iv, slot) + (if x == InstrView::Load(slot) {
                1nat
            } else {
                0nat
            }),
{
    assert(iv.push(x).drop_last() =~= iv);
    assert(iv.push(x).last() == x);
}

/// Later nodes have later stores.
pub proof fn lemma_stored_upto_len(counts: Seq<usize>, a: nat, b: nat)
    requires
        a <= b,
    ensures
        stored_upto(counts, a).len() <= stored_upto(counts, b).len(),
        a < b && counts[a as int] > 1 ==> stored_upto(counts, a).len() < stored_upto(counts, b).len(),
    decreases b - a,
{
    if a < b {
        lemma_stored_upto_len(counts, a, (b - 1) as nat);
        if a + 1 < b {
            lemma_stored_upto_len(counts, a + 1, b);
        }
    }
}

/// There are no more stores than nodes.
pub proof fn lemma_stored_upto_bound(counts: Seq<usize>, k: nat)
    ensures
        stored_upto(counts, k).len() <= k,
    decreases k,
{
    if k > 0 {
        lemma_stored_upto_bound(counts, (k - 1) as nat);
    }
}

/// `k` times the expression `t`.
pub open spec fn copies(t: Tree, k: nat) -> Seq<Tree> {
    Seq::new(k, |i: int| t)
}

/// The expression of a rational constant: the integer, or the numerator
/// divided by the denominator.
pub open spec fn literal_tree(c: Fraction) -> Tree {
    if c.den == 1 {
        Tree::Int(c.num)
    } else {
        Tree::Div(Box::new(Tree::Int(c.num)), Box::new(Tree::Int(c.den)))
    }
}

/// The expression of the node `h`: a variable is an input, a function
/// application applies the function to the expression of its argument,
/// and a polynomial is the sum of the expressions of its terms.
pub open spec fn node_tree(s: Store, h: nat) -> Tree
    decreases h, 5nat, 0nat,
{
    match s[h as int] {
        NodeView::Var(name) => Tree::Source(name),
        NodeView::Func(f, g) => if g.id < h {
            Tree::Func(f, Box::new(node_tree(s, g.id as nat)))
        } else {
            Tree::Int(0)
        },
        NodeView::Poly(p) => poly_tree(s, canon(p), h),
        NodeView::Tuple(_) => Tree::Int(0),
    }
}

/// The expression of a polynomial: 0 without terms, the term if there is
/// one, and else the sum of the terms.
pub open spec fn poly_tree(s: Store, terms: Seq<Term>, limit: nat) -> Tree
    decreases limit, 4nat, 0nat,
{
    let trees = terms_trees(s, terms, limit);
    if trees.len() == 1 {
        trees[0]
    } else if trees.len() == 0 {
        Tree::Int(0)
    } else {
        Tree::Sum(trees)
    }
}

/// The expressions of the terms.
pub open spec fn terms_trees(s: Store, terms: Seq<Term>, limit: nat) -> Seq<Tree>
    decreases limit, 3nat, terms.len(),
{
    if terms.len() == 0 {
        Seq::empty()
    } else {
        terms_trees(s, terms.drop_last(), limit).push(term_tree(s, terms.last(), limit))
    }
}

/// The factors of a term: the coefficient, unless it is 1 beside a base,
/// and the powers of the bases.
pub open spec fn term_parts(s: Store, t: Term, limit: nat) -> Seq<Tree>
    decreases limit, 2nat, 0nat,
{
    let head = if !(t.fac.num == 1 && t.fac.den == 1) || t.base.len() == 0 {
        seq![literal_tree(t.fac)]
    } else {
        Seq::empty()
    };
    head + base_trees(s, t.base, limit)
}

/// The expression of a term: its factor if there is one, and else the
/// product of its factors.
pub open spec fn term_tree(s: Store, t: Term, limit: nat) -> Tree
    decreases limit, 2nat, 1nat,
{
    let parts = term_parts(s, t, limit);
    if parts.len() == 1 {
        parts[0]
    } else {
        Tree::Product(parts)
    }
}

/// The expressions of the powers of the bases of a monomial.
pub open spec fn base_trees(s: Store, base: Monomial, limit: nat) -> Seq<Tree>
    decreases limit, 1nat, base.len(),
{
    if base.len() == 0 {
        Seq::empty()
    } else {
        base_trees(s, base.drop_last(), limit) + factor_trees(s, base.last().0, base.last().1, limit)
    }
}

/// The expressions of the base `v` to the power `e`: the base `e` times
/// for a positive power, and for a negative one the inverse of the base,
/// or of the product of the base `-e` times.
pub open spec fn factor_trees(s: Store, v: NodeRc, e: int, limit: nat) -> Seq<Tree>
    decreases limit, 0nat, 0nat,
{
    let t = if v.id < limit {
        node_tree(s, v.id as nat)
    } else {
        Tree::Int(0)
    };
    if e >= 0 {
        copies(t, e as nat)
    } else if e == -1 {
        seq![Tree::Inv(Box::new(t))]
    } else {
        seq![Tree::Inv(Box::new(Tree::Product(copies(t, (-e) as nat))))]
    }
}

/// The state of the lowering pass.
struct Emitter {
    instrs: Vec<Instr>,
    inputs: Vec<String>,
    /// for each node, the instruction that holds its value
    values: Vec<usize>,
    /// for each node, the number of its store
    slots: Vec<usize>,
    /// for each node, how many of its uses were lowered
    taken: Vec<usize>,
    stores: usize,
}

impl Emitter {
    spec fn iv(&self) -> Seq<InstrView> {
        instrs_view(self.instrs@)
    }

    /// The nodes below `cur` are lowered: the stores of the program are
    /// those of the nodes used more than once, each of them was loaded
    /// once for every use after its first, and the program is well formed.
    spec fn inv(&self, counts: Seq<usize>, cur: nat) -> bool {
        &&& self.values@.len() == counts.len()
        &&& self.slots@.len() == counts.len()
        &&& self.taken@.len() == counts.len()
        &&& cur <= counts.len()
        &&& program_wf(self.iv())
        &&& store_uses(self.iv()) == stored_upto(counts, cur)
        &&& self.stores == store_uses(self.iv()).len()
        &&& forall|v: int|
            0 <= v < cur && counts[v] > 1 ==> #[trigger] self.slots@[v] == stored_upto(counts, v as nat).len()
                && loads(self.iv(), self.slots@[v]) == (if self.taken@[v] == 0 {
                0
            } else {
                self.taken@[v] - 1
            })
        &&& forall|k: usize| k >= self.stores ==> #[trigger] loads(self.iv(), k) == 0
        &&& forall|v: int| 0 <= v < cur && counts[v] > 0 ==> #[trigger] self.values@[v] < self.instrs@.len()
    }

    /// The value of every node below `cur` stands for the expression of
    /// the node, and the store of a node holds its value.
    spec fn denotes(&self, s: Store, counts: Seq<usize>, cur: nat) -> bool {
        &&& forall|v: int|
            0 <= v < cur && counts[v] > 0 ==> value_tree(self.iv(), (#[trigger] self.values@[v]) as nat)
                == node_tree(s, v as nat)
        &&& forall|v: int|
            0 <= v < cur && counts[v] > 1 ==> store_index(self.iv(), (#[trigger] self.slots@[v]) as nat)
                == self.values@[v]
    }

    /// There is a place for every node.
    spec fn sized(&self, counts: Seq<usize>, cur: nat) -> bool {
        &&& self.values@.len() == counts.len()
        &&& self.slots@.len() == counts.len()
        &&& self.taken@.len() == counts.len()
        &&& cur <= counts.len()
    }

    #[verifier::opaque]
    spec fn held(&self, s: Store, counts: Seq<usize>, cur: nat) -> bool {
        self.inv(counts, cur) && self.denotes(s, counts, cur)
    }

    spec fn ok(&self, s: Store, counts: Seq<usize>, cur: nat) -> bool {
        self.sized(counts, cur) && self.held(s, counts, cur)
    }

    /// The input names play no part in the state of the program.
    proof fn lemma_inputs(before: Emitter, after: Emitter, s: Store, counts: Seq<usize>, cur: nat)
        requires
            before.ok(s, counts, cur),
            after.instrs == before.instrs,
            after.values == before.values,
            after.slots == before.slots,
            after.taken == before.taken,
            after.stores == before.stores,
        ensures
            after.ok(s, counts, cur),
    {
        reveal(Emitter::held);
        assert(after.iv() == before.iv());
    }

    /// A program that begins with itself.
    proof fn lemma_same(&self)
        ensures
            program_extends(self.iv(), self.iv()),
    {
        assert(self.iv().take(self.iv().len() as int) =~= self.iv());
    }

    /// Instructions that are added leave the values of the nodes as they
    /// are.
    proof fn lemma_grow(before: Emitter, after: Emitter, s: Store, counts: Seq<usize>, cur: nat)
        requires
            before.ok(s, counts, cur),
            after.inv(counts, cur),
            program_extends(before.iv(), after.iv()),
            after.values == before.values,
            after.slots == before.slots,
        ensures
            after.ok(s, counts, cur),
    {
        reveal(Emitter::held);
        assert forall|v: int| 0 <= v < cur && counts[v] > 0 implies value_tree(
            after.iv(),
            (#[trigger] after.values@[v]) as nat,
        ) == node_tree(s, v as nat) by {
            assert(before.values@[v] < before.instrs@.len());
            lemma_value_tree_extends(before.iv(), after.iv(), before.values@[v] as nat);
        }
        assert forall|v: int| 0 <= v < cur && counts[v] > 1 implies store_index(
            after.iv(),
            (#[trigger] after.slots@[v]) as nat,
        ) == after.values@[v] by {
            lemma_stored_upto_len(counts, v as nat, cur);
            lemma_store_index_extends(before.iv(), after.iv(), before.slots@[v] as nat);
        }
    }

    /// Adds an instruction that is no store and no load.
    fn emit(
        &mut self,
        instr: Instr,
        Ghost(s): Ghost<Store>,
        Ghost(counts): Ghost<Seq<usize>>,
        Ghost(cur): Ghost<nat>,
    ) -> (id: usize)
        requires
            old(self).ok(s, counts, cur),
            !(instr@ is Store),
            !(instr@ is Load),
            operands_ok(instr@, old(self).instrs@.len() as nat, 0),
        ensures
            final(self).ok(s, counts, cur),
            id == old(self).instrs@.len(),
            final(self).iv() == old(self).iv().push(instr@),
            program_extends(old(self).iv(), final(self).iv()),
            final(self).instrs@.len() == old(self).instrs@.len() + 1,
            final(self).values == old(self).values,
            final(self).slots == old(self).slots,
            final(self).taken == old(self).taken,
            final(self).inputs == old(self).inputs,
            final(self).stores == old(self).stores,
    {
        let id = self.instrs.len();
        let ghost before = self.iv();
        let ghost x = instr@;
        self.instrs.push(instr);
        proof {
            reveal(Emitter::held);
            assert(self.iv() =~= before.push(x));
            lemma_program_push(before, x);
            lemma_push_counts(before, x);
            lemma_push_extends(before, x);
            Emitter::lemma_grow(*old(self), *self, s, counts, cur);
        }
        id
    }

    /// The value of the node `v` for one more use: its first value, or a
    /// load of its temporary.
    fn take(&mut self, v: usize, counts: &Vec<usize>, Ghost(s): Ghost<Store>, Ghost(cur): Ghost<nat>) -> (id: usize)
        requires
            old(self).ok(s, counts@, cur),
            v < cur,
            old(self).taken@[v as int] < counts@[v as int],
        ensures
            final(self).ok(s, counts@, cur),
            id < final(self).instrs@.len(),
            value_tree(final(self).iv(), id as nat) == node_tree(s, v as nat),
            program_extends(old(self).iv(), final(self).iv()),
            final(self).taken@ == old(self).taken@.update(v as int, (old(self).taken@[v as int] + 1) as usize),
            final(self).values == old(self).values,
            final(self).slots == old(self).slots,
            final(self).inputs == old(self).inputs,
    {
        let ghost before = self.iv();
        let ghost c = counts@;
        proof {
            reveal(Emitter::held);
        }
        let id = if counts[v] > 1 && self.taken[v] > 0 {
            let slot = self.slots[v];
            let id = self.instrs.len();
            proof {
                lemma_stored_upto_len(c, v as nat, cur);
            }
            self.instrs.push(Instr::Load(slot));
            proof {
                let x = InstrView::Load(slot);
                assert(self.iv() =~= before.push(x));
                lemma_program_push(before, x);
                lemma_push_counts(before, x);
                lemma_push_extends(before, x);
                assert forall|w: int| 0 <= w < cur && c[w] > 1 && w != v implies self.slots@[w] != slot by {
                    if w < v {
                        lemma_stored_upto_len(c, w as nat, v as nat);
                    } else {
                        lemma_stored_upto_len(c, v as nat, w as nat);
                    }
                }
                // the load stands for what the store of the node holds
                assert(self.iv().take(id as int) =~= before);
                assert(old(self).values@[v as int] < id);
                lemma_value_tree_extends(before, self.iv(), old(self).values@[v as int] as nat);
            }
            id
        } else {
            assert(self.iv() =~= before);
            self.values[v]
        };
        proof {
            assert(program_extends(before, self.iv())) by {
                assert(self.iv().take(before.len() as int) =~= before);
            }
        }
        let ghost middle = *self;
        self.taken[v] = self.taken[v] + 1;
        proof {
            assert(self.iv() == middle.iv());
            assert(self.inv(c, cur));
            Emitter::lemma_grow(*old(self), *self, s, c, cur);
        }
        id
    }

    /// The values of the node `v` for `k` more uses.
    fn take_many(
        &mut self,
        v: usize,
        k: usize,
        counts: &Vec<usize>,
        Ghost(s): Ghost<Store>,
        Ghost(cur): Ghost<nat>,
    ) -> (ids: Vec<usize>)
        requires
            old(self).ok(s, counts@, cur),
            v < cur,
            old(self).taken@[v as int] + k <= counts@[v as int],
        ensures
            final(self).ok(s, counts@, cur),
            ids@.len() == k,
            forall|i: int| 0 <= i < k ==> #[trigger] ids@[i] < final(self).instrs@.len(),
            value_trees(final(self).iv(), ids@, final(self).instrs@.len() as nat) == copies(
                node_tree(s, v as nat),
                k as nat,
            ),
            program_extends(old(self).iv(), final(self).iv()),
            final(self).taken@ == old(self).taken@.update(v as int, (old(self).taken@[v as int] + k) as usize),
            final(self).values == old(self).values,
            final(self).slots == old(self).slots,
            final(self).inputs == old(self).inputs,
    {
        let ghost t = node_tree(s, v as nat);
        let mut ids: Vec<usize> = Vec::new();
        let mut i: usize = 0;
        proof {
            assert(self.taken@ =~= old(self).taken@.update(v as int, (old(self).taken@[v as int] + 0) as usize));
            self.lemma_same();
        }
        while i < k
            invariant
                i <= k,
                self.ok(s, counts@, cur),
                v < cur,
                old(self).taken@[v as int] + k <= counts@[v as int],
                v < old(self).taken@.len(),
                t == node_tree(s, v as nat),
                ids@.len() == i,
                forall|j: int| 0 <= j < i ==> #[trigger] ids@[j] < self.instrs@.len(),
                forall|j: int| 0 <= j < i ==> value_tree(self.iv(), (#[trigger] ids@[j]) as nat) == t,
                program_extends(old(self).iv(), self.iv()),
                self.taken@ == old(self).taken@.update(v as int, (old(self).taken@[v as int] + i) as usize),
                self.values == old(self).values,
                self.slots == old(self).slots,
                self.inputs == old(self).inputs,
            decreases k - i,
        {
            let ghost previous = ids@;
            let ghost before = self.iv();
            let id = self.take(v, counts, Ghost(s), Ghost(cur));
            ids.push(id);
            i += 1;
            proof {
                lemma_extends_transitive(old(self).iv(), before, self.iv());
                assert forall|j: int| 0 <= j < i implies #[trigger] ids@[j] < self.instrs@.len() && value_tree(
                    self.iv(),
                    ids@[j] as nat,
                ) == t by {
                    if j < i - 1 {
                        assert(ids@[j] == previous[j]);
                        lemma_value_tree_extends(before, self.iv(), previous[j] as nat);
                    }
                }
                assert(self.taken@ =~= old(self).taken@.update(v as int, (old(self).taken@[v as int] + i) as usize));
            }
        }
        proof {
            let n = self.instrs@.len() as nat;
            lemma_value_trees_index(self.iv(), ids@, n);
            assert(value_trees(self.iv(), ids@, n) =~= copies(t, k as nat));
        }
        ids
    }

    /// Ends the lowering of the node `cur` with the value `value`: a node
    /// that is used more than once is stored.
    fn finish(&mut self, cur: usize, value: usize, counts: &Vec<usize>, Ghost(s): Ghost<Store>)
        requires
            old(self).ok(s, counts@, cur as nat),
            cur < counts@.len(),
            counts@[cur as int] > 0,
            old(self).taken@[cur as int] == 0,
            value < old(self).instrs@.len(),
            value_tree(old(self).iv(), value as nat) == node_tree(s, cur as nat),
        ensures
            final(self).ok(s, counts@, (cur + 1) as nat),
            final(self).taken == old(self).taken,
            final(self).inputs == old(self).inputs,
            program_extends(old(self).iv(), final(self).iv()),
    {
        let _ = counts.len();
        if counts[cur] > 1 {
            self.store(cur, value, counts, Ghost(s));
        } else {
            self.keep(cur, value, counts, Ghost(s));
        }
    }

    /// Notes the value of the node `cur`, which is used once.
    fn keep(&mut self, cur: usize, value: usize, counts: &Vec<usize>, Ghost(s): Ghost<Store>)
        requires
            old(self).ok(s, counts@, cur as nat),
            cur < counts@.len(),
            counts@[cur as int] == 1,
            value < old(self).instrs@.len(),
            value_tree(old(self).iv(), value as nat) == node_tree(s, cur as nat),
        ensures
            final(self).ok(s, counts@, (cur + 1) as nat),
            final(self).taken == old(self).taken,
            final(self).inputs == old(self).inputs,
            program_extends(old(self).iv(), final(self).iv()),
    {
        let ghost c = counts@;
        proof {
            reveal(Emitter::held);
            self.lemma_same();
        }
        self.values[cur] = value;
        proof {
            let iv = self.iv();
            assert(iv == old(self).iv());
            assert(store_uses(iv) == stored_upto(c, (cur + 1) as nat));
            assert forall|v: int| 0 <= v < cur + 1 && c[v] > 1 implies #[trigger] self.slots@[v] == stored_upto(
                c,
                v as nat,
            ).len() && loads(iv, self.slots@[v]) == (if self.taken@[v] == 0 {
                0
            } else {
                self.taken@[v] - 1
            }) by {
                assert(self.slots@[v] == old(self).slots@[v]);
            }
            assert forall|v: int| 0 <= v < cur + 1 && c[v] > 0 implies #[trigger] self.values@[v]
                < self.instrs@.len() by {
                if v < cur {
                    assert(self.values@[v] == old(self).values@[v]);
                }
            }
            assert forall|v: int| 0 <= v < cur + 1 && c[v] > 0 implies value_tree(
                iv,
                (#[trigger] self.values@[v]) as nat,
            ) == node_tree(s, v as nat) by {
                if v < cur {
                    assert(self.values@[v] == old(self).values@[v]);
                }
            }
            assert forall|v: int| 0 <= v < cur + 1 && c[v] > 1 implies store_index(
                iv,
                (#[trigger] self.slots@[v]) as nat,
            ) == self.values@[v] by {
                assert(self.slots@[v] == old(self).slots@[v]);
                assert(self.values@[v] == old(self).values@[v]);
            }
        }
    }

    /// Stores the value of the node `cur`.
    fn store(&mut self, cur: usize, value: usize, counts: &Vec<usize>, Ghost(s): Ghost<Store>)
        requires
            old(self).ok(s, counts@, cur as nat),
            cur < counts@.len(),
            cur < usize::MAX,
            counts@[cur as int] > 1,
            old(self).taken@[cur as int] == 0,
            value < old(self).instrs@.len(),
            value_tree(old(self).iv(), value as nat) == node_tree(s, cur as nat),
        ensures
            final(self).ok(s, counts@, (cur + 1) as nat),
            final(self).taken == old(self).taken,
            final(self).inputs == old(self).inputs,
            program_extends(old(self).iv(), final(self).iv()),
    {
        let ghost before = self.iv();
        let ghost c = counts@;
        let ghost x = InstrView::Store(value, c[cur as int]);
        let id = self.instrs.len();
        let slot = self.stores;
        proof {
            reveal(Emitter::held);
            lemma_stored_upto_bound(c, cur as nat);
            lemma_program_push(before, x);
            lemma_push_counts(before, x);
            lemma_push_extends(before, x);
        }
        self.instrs.push(Instr::Store(value, counts[cur]));
        assert(self.iv() =~= before.push(x));
        self.values[cur] = id;
        self.slots[cur] = slot;
        self.stores = slot + 1;
        proof {
            let after = self.iv();
            assert(after == before.push(x));
            assert(store_uses(after) == stored_upto(c, (cur + 1) as nat));
            assert forall|v: int| 0 <= v < cur + 1 && c[v] > 1 implies #[trigger] self.slots@[v] == stored_upto(
                c,
                v as nat,
            ).len() && loads(after, self.slots@[v]) == (if self.taken@[v] == 0 {
                0
            } else {
                self.taken@[v] - 1
            }) by {
                if v < cur {
                    assert(self.slots@[v] == old(self).slots@[v]);
                    assert(loads(after, old(self).slots@[v]) == loads(before, old(self).slots@[v]));
                } else {
                    assert(loads(after, slot) == loads(before, slot));
                }
            }
            assert forall|k: usize| k >= self.stores implies #[trigger] loads(after, k) == 0 by {
                assert(loads(after, k) == loads(before, k));
            }
            assert forall|v: int| 0 <= v < cur + 1 && c[v] > 0 implies #[trigger] self.values@[v]
                < self.instrs@.len() by {
                if v < cur {
                    assert(self.values@[v] == old(self).values@[v]);
                }
            }
            // what the values stand for
            lemma_value_tree_extends(before, after, value as nat);
            assert(after.drop_last() =~= before);
            assert forall|v: int| 0 <= v < cur + 1 && c[v] > 0 implies value_tree(
                after,
                (#[trigger] self.values@[v]) as nat,
            ) == node_tree(s, v as nat) by {
                if v < cur {
                    assert(self.values@[v] == old(self).values@[v]);
                    assert(old(self).values@[v] < before.len());
                    lemma_value_tree_extends(before, after, old(self).values@[v] as nat);
                }
            }
            assert forall|v: int| 0 <= v < cur + 1 && c[v] > 1 implies store_index(
                after,
                (#[trigger] self.slots@[v]) as nat,
            ) == self.values@[v] by {
                if v < cur {
                    assert(self.slots@[v] == old(self).slots@[v]);
                    assert(self.values@[v] == old(self).values@[v]);
                    lemma_stored_upto_len(c, v as nat, cur as nat);
                    lemma_store_index_push(before, x, old(self).slots@[v] as nat);
                }
            }
        }
    }
}

/// The uses from the place `j` on begin with the use at `j`.
pub proof fn lemma_weight_front(u: Uses, j: int, v: nat)
    requires
        0 <= j < u.len(),
    ensures
        weight(u.skip(j), v) == (if u[j].0.id == v {
            u[j].1
        } else {
            0
        }) + weight(u.skip(j + 1), v),
{
    assert(u.skip(j) =~= seq![u[j]] + u.skip(j + 1));
    lemma_weight_concat(seq![u[j]], u.skip(j + 1), v);
    lemma_weight_single(u[j], v);
}

/// Every count has room for the uses `u` that are still to be lowered.
spec fn budget(taken: Seq<usize>, counts: Seq<usize>, u: Uses) -> bool {
    &&& taken.len() == counts.len()
    &&& forall|v: int| 0 <= v < counts.len() ==> #[trigger] taken[v] + weight(u, v as nat) <= counts[v]
}

/// The names of the variables below `k` that are used, in the order of
/// the nodes.
pub open spec fn input_names(s: Store, counts: Seq<usize>, k: nat) -> Seq<Seq<char>>
    decreases k,
{
    if k == 0 {
        Seq::empty()
    } else {
        let before = input_names(s, counts, (k - 1) as nat);
        match s[k - 1] {
            NodeView::Var(name) => if counts[k - 1] > 0 {
                before.push(name)
            } else {
                before
            },
            _ => before,
        }
    }
}

impl Emitter {
    /// The instructions of a rational constant: the integer, or the
    /// numerator divided by the denominator.
    fn literal(
        &mut self,
        fac: Rational,
        Ghost(s): Ghost<Store>,
        Ghost(counts): Ghost<Seq<usize>>,
        Ghost(cur): Ghost<nat>,
    ) -> (id: usize)
        requires
            old(self).ok(s, counts, cur),
        ensures
            final(self).ok(s, counts, cur),
            id < final(self).instrs@.len(),
            value_tree(final(self).iv(), id as nat) == literal_tree(fac@),
            program_extends(old(self).iv(), final(self).iv()),
            final(self).values == old(self).values,
            final(self).slots == old(self).slots,
            final(self).taken == old(self).taken,
            final(self).inputs == old(self).inputs,
    {
        let (num, den) = fac.frac();
        let a = self.emit(Instr::Int(num), Ghost(s), Ghost(counts), Ghost(cur));
        if den == 1 {
            a
        } else {
            let ghost first = self.iv();
            let b = self.emit(Instr::Int(den), Ghost(s), Ghost(counts), Ghost(cur));
            let ghost second = self.iv();
            let d = self.emit(Instr::Div(a, b), Ghost(s), Ghost(counts), Ghost(cur));
            proof {
                lemma_extends_transitive(old(self).iv(), first, second);
                lemma_extends_transitive(old(self).iv(), second, self.iv());
                lemma_extends_transitive(first, second, self.iv());
                lemma_value_tree_extends(first, self.iv(), a as nat);
                lemma_value_tree_extends(second, self.iv(), b as nat);
            }
            d
        }
    }

    /// The inverse of the product of the values `ids`, which stand for
    /// `t` each.
    fn inverse(
        &mut self,
        ids: Vec<usize>,
        Ghost(t): Ghost<Tree>,
        Ghost(s): Ghost<Store>,
        Ghost(counts): Ghost<Seq<usize>>,
        Ghost(cur): Ghost<nat>,
    ) -> (id: usize)
        requires
            old(self).ok(s, counts, cur),
            forall|i: int| 0 <= i < ids@.len() ==> #[trigger] ids@[i] < old(self).instrs@.len(),
            value_trees(old(self).iv(), ids@, old(self).instrs@.len() as nat) == copies(t, ids@.len()),
        ensures
            final(self).ok(s, counts, cur),
            id < final(self).instrs@.len(),
            value_tree(final(self).iv(), id as nat) == Tree::Inv(
                Box::new(
                    if ids@.len() == 1 {
                        t
                    } else {
                        Tree::Product(copies(t, ids@.len()))
                    },
                ),
            ),
            program_extends(old(self).iv(), final(self).iv()),
            final(self).values == old(self).values,
            final(self).slots == old(self).slots,
            final(self).taken == old(self).taken,
            final(self).inputs == old(self).inputs,
    {
        let ghost first = self.iv();
        let ghost all = ids@;
        let inner = if ids.len() == 1 {
            proof {
                lemma_value_trees_index(first, all, first.len());
                assert(copies(t, 1)[0] == t);
                self.lemma_same();
            }
            ids[0]
        } else {
            let id = self.emit(Instr::Product(ids), Ghost(s), Ghost(counts), Ghost(cur));
            proof {
                lemma_value_trees_later(first, self.iv(), all, first.len(), first.len());
            }
            id
        };
        let ghost second = self.iv();
        let inverse = self.emit(Instr::Inv(inner), Ghost(s), Ghost(counts), Ghost(cur));
        proof {
            lemma_extends_transitive(first, second, self.iv());
            lemma_value_tree_extends(second, self.iv(), inner as nat);
        }
        inverse
    }

    /// The values of the base `v` raised to the power `e`.
    fn factor(
        &mut self,
        v: usize,
        e: i64,
        counts: &Vec<usize>,
        Ghost(s): Ghost<Store>,
        Ghost(cur): Ghost<nat>,
    ) -> (ids: Vec<usize>)
        requires
            old(self).ok(s, counts@, cur),
            v < cur,
            old(self).taken@[v as int] + abs(e as int) <= counts@[v as int],
        ensures
            final(self).ok(s, counts@, cur),
            forall|i: int| 0 <= i < ids@.len() ==> #[trigger] ids@[i] < final(self).instrs@.len(),
            value_trees(final(self).iv(), ids@, final(self).instrs@.len() as nat) == factor_trees(
                s,
                NodeRc { id: v },
                e as int,
                cur,
            ),
            program_extends(old(self).iv(), final(self).iv()),
            final(self).taken@ == old(self).taken@.update(
                v as int,
                (old(self).taken@[v as int] + abs(e as int)) as usize,
            ),
            final(self).values == old(self).values,
            final(self).slots == old(self).slots,
            final(self).inputs == old(self).inputs,
    {
        let ghost t = node_tree(s, v as nat);
        let k = match exponent_uses(e) {
            Some(k) => k,
            None => 0,
        };
        let ids = self.take_many(v, k, counts, Ghost(s), Ghost(cur));
        if e >= 0 {
            ids
        } else {
            let ghost first = self.iv();
            let inverse = self.inverse(ids, Ghost(t), Ghost(s), Ghost(counts@), Ghost(cur));
            let mut out: Vec<usize> = Vec::new();
            out.push(inverse);
            proof {
                lemma_extends_transitive(old(self).iv(), first, self.iv());
                let n = self.instrs@.len() as nat;
                lemma_value_trees_index(self.iv(), out@, n);
                assert(value_trees(self.iv(), out@, n) =~= factor_trees(s, NodeRc { id: v }, e as int, cur));
            }
            out
        }
    }

    /// The instructions of one term: its factor, or the product of its
    /// factors.
    fn term(
        &mut self,
        base: &Base,
        fac: Rational,
        counts: &Vec<usize>,
        Ghost(s): Ghost<Store>,
        Ghost(cur): Ghost<nat>,
    ) -> (id: usize)
        requires
            old(self).ok(s, counts@, cur),
            mono_below(base_view(base@), cur as int),
            budget(old(self).taken@, counts@, factor_uses(base_view(base@))),
        ensures
            final(self).ok(s, counts@, cur),
            id < final(self).instrs@.len(),
            value_tree(final(self).iv(), id as nat) == term_tree(
                s,
                Term { base: base_view(base@), fac: fac@ },
                cur,
            ),
            program_extends(old(self).iv(), final(self).iv()),
            counted(old(self).taken@, final(self).taken@, factor_uses(base_view(base@))),
            final(self).values == old(self).values,
            final(self).slots == old(self).slots,
            final(self).inputs == old(self).inputs,
    {
        let ghost mono = base_view(base@);
        let ghost u = factor_uses(mono);
        let ghost c = counts@;
        let ghost t = Term { base: mono, fac: fac@ };
        let mut parts: Vec<usize> = Vec::new();
        let (num, den) = fac.frac();
        proof {
            self.lemma_same();
        }
        if !(num == 1 && den == 1) || base.len() == 0 {
            let id = self.literal(fac, Ghost(s), Ghost(c), Ghost(cur));
            parts.push(id);
        }
        let ghost head = if !(t.fac.num == 1 && t.fac.den == 1) || t.base.len() == 0 {
            seq![literal_tree(t.fac)]
        } else {
            Seq::empty()
        };
        let mut j: usize = 0;
        proof {
            assert(u.take(0) =~= Seq::<(NodeRc, nat)>::empty());
            assert(u.skip(0) =~= u);
            assert(mono.take(0) =~= Seq::<(NodeRc, int)>::empty());
            let n = self.instrs@.len() as nat;
            lemma_value_trees_index(self.iv(), parts@, n);
            assert(value_trees(self.iv(), parts@, n) =~= head + base_trees(s, mono.take(0), cur));
        }
        while j < base.len()
            invariant
                j <= base@.len(),
                mono == base_view(base@),
                u == factor_uses(mono),
                c == counts@,
                mono_below(mono, cur as int),
                self.ok(s, c, cur),
                counted(old(self).taken@, self.taken@, u.take(j as int)),
                budget(self.taken@, c, u.skip(j as int)),
                forall|i: int| 0 <= i < parts@.len() ==> #[trigger] parts@[i] < self.instrs@.len(),
                value_trees(self.iv(), parts@, self.instrs@.len() as nat) == head + base_trees(
                    s,
                    mono.take(j as int),
                    cur,
                ),
                program_extends(old(self).iv(), self.iv()),
                self.values == old(self).values,
                self.slots == old(self).slots,
                self.inputs == old(self).inputs,
            decreases base@.len() - j,
        {
            let (v, e) = base[j];
            let ghost taken = self.taken@;
            let ghost before = self.iv();
            let ghost old_parts = parts@;
            proof {
                assert(mono[j as int].0.id < cur);
                assert(u[j as int] == (v, abs(e as int) as nat));
                lemma_weight_front(u, j as int, v.id as nat);
                assert(taken[v.id as int] + weight(u.skip(j as int), v.id as nat) <= c[v.id as int]);
                assert(u.take(j + 1).drop_last() =~= u.take(j as int));
                assert(u.take(j + 1).last() == u[j as int]);
                assert(mono.take(j + 1).drop_last() =~= mono.take(j as int));
                assert(mono.take(j + 1).last() == (v, e as int));
            }
            let mut ids = self.factor(v.id, e, counts, Ghost(s), Ghost(cur));
            let ghost new_ids = ids@;
            parts.append(&mut ids);
            proof {
                assert forall|w: int| 0 <= w < c.len() implies #[trigger] self.taken@[w] + weight(
                    u.skip(j + 1),
                    w as nat,
                ) <= c[w] by {
                    lemma_weight_front(u, j as int, w as nat);
                    assert(taken[w] + weight(u.skip(j as int), w as nat) <= c[w]);
                }
                lemma_extends_transitive(old(self).iv(), before, self.iv());
                let n = self.instrs@.len() as nat;
                assert(parts@ =~= old_parts + new_ids);
                assert forall|i: int| 0 <= i < parts@.len() implies #[trigger] parts@[i] < n by {
                    if i < old_parts.len() {
                        assert(parts@[i] == old_parts[i]);
                    } else {
                        assert(parts@[i] == new_ids[i - old_parts.len()]);
                    }
                }
                lemma_value_trees_concat(self.iv(), old_parts, new_ids, n);
                lemma_value_trees_later(before, self.iv(), old_parts, before.len(), n);
                assert(NodeRc { id: v.id } == v);
                assert(value_trees(self.iv(), parts@, n) =~= head + base_trees(s, mono.take(j + 1), cur));
            }
            j += 1;
        }
        proof {
            assert(u.take(j as int) =~= u);
            assert(mono.take(j as int) =~= mono);
            lemma_value_trees_index(self.iv(), parts@, self.instrs@.len() as nat);
        }
        if parts.len() == 1 {
            parts[0]
        } else {
            let ghost before = self.iv();
            let ghost all = parts@;
            let id = self.emit(Instr::Product(parts), Ghost(s), Ghost(c), Ghost(cur));
            proof {
                lemma_extends_transitive(old(self).iv(), before, self.iv());
                lemma_value_trees_later(before, self.iv(), all, before.len(), before.len());
            }
            id
        }
    }
}

/// The uses of the terms from the place `i` on begin with the uses of the
/// term at `i`.
pub proof fn lemma_terms_uses_front(terms: Seq<Term>, i: int)
    requires
        0 <= i < terms.len(),
    ensures
        terms_uses(terms.skip(i)) == factor_uses(terms[i].base) + terms_uses(terms.skip(i + 1)),
        terms_uses(terms.take(i + 1)) == terms_uses(terms.take(i)) + factor_uses(terms[i].base),
{
    let rest = terms.skip(i);
    lemma_terms_uses_split(rest, 1);
    let one = rest.take(1);
    assert(one.drop_last() =~= Seq::<Term>::empty());
    assert(terms_uses(one.drop_last()) =~= Seq::<(NodeRc, nat)>::empty());
    assert(one.last() == terms[i]);
    assert(terms_uses(one) =~= factor_uses(terms[i].base));
    assert(rest.skip(1) =~= terms.skip(i + 1));
    assert(terms.take(i + 1).drop_last() =~= terms.take(i));
    assert(terms.take(i + 1).last() == terms[i]);
}

/// A count for every node up to the root.
fn zeros(n: usize) -> (r: Vec<usize>)
    ensures
        r@.len() == n,
        forall|v: int| 0 <= v < n ==> #[trigger] r@[v] == 0,
{
    let mut out: Vec<usize> = Vec::new();
    while out.len() < n
        invariant
            out@.len() <= n,
            forall|v: int| 0 <= v < out@.len() ==> #[trigger] out@[v] == 0,
        decreases n - out@.len(),
    {
        out.push(0);
    }
    out
}

impl Emitter {
    /// The instructions of a polynomial: 0, its term, or the sum of its
    /// terms.
    fn poly(&mut self, p: &Poly, counts: &Vec<usize>, Ghost(s): Ghost<Store>, Ghost(cur): Ghost<nat>) -> (id: usize)
        requires
            old(self).ok(s, counts@, cur),
            p.wf(),
            poly_below(p@, cur as int),
            budget(old(self).taken@, counts@, terms_uses(p.terms())),
        ensures
            final(self).ok(s, counts@, cur),
            id < final(self).instrs@.len(),
            value_tree(final(self).iv(), id as nat) == poly_tree(s, p.terms(), cur),
            program_extends(old(self).iv(), final(self).iv()),
            counted(old(self).taken@, final(self).taken@, terms_uses(p.terms())),
            final(self).values == old(self).values,
            final(self).slots == old(self).slots,
            final(self).inputs == old(self).inputs,
    {
        let ghost terms = p.terms();
        let ghost c = counts@;
        let mut ids: Vec<usize> = Vec::new();
        let mut i: usize = 0;
        proof {
            assert(terms.take(0) =~= Seq::<Term>::empty());
            assert(terms.skip(0) =~= terms);
            self.lemma_same();
        }
        while i < p.len()
            invariant
                i <= terms.len(),
                p.wf(),
                terms == p.terms(),
                c == counts@,
                poly_below(p@, cur as int),
                self.ok(s, c, cur),
                counted(old(self).taken@, self.taken@, terms_uses(terms.take(i as int))),
                budget(self.taken@, c, terms_uses(terms.skip(i as int))),
                forall|k: int| 0 <= k < ids@.len() ==> #[trigger] ids@[k] < self.instrs@.len(),
                value_trees(self.iv(), ids@, self.instrs@.len() as nat) == terms_trees(
                    s,
                    terms.take(i as int),
                    cur,
                ),
                program_extends(old(self).iv(), self.iv()),
                self.values == old(self).values,
                self.slots == old(self).slots,
                self.inputs == old(self).inputs,
            decreases terms.len() - i,
        {
            let ghost taken = self.taken@;
            let ghost these = factor_uses(terms[i as int].base);
            let ghost rest = terms_uses(terms.skip(i + 1));
            let ghost done = terms_uses(terms.take(i as int));
            let ghost before = self.iv();
            let ghost old_ids = ids@;
            proof {
                lemma_terms_uses_front(terms, i as int);
                lemma_coeff_at(terms, i as int);
                assert(p@.dom().contains(terms[i as int].base));
                assert forall|v: nat| #[trigger] weight(these + rest, v) == weight(these, v) + weight(rest, v) by {
                    lemma_weight_concat(these, rest, v);
                }
                assert forall|v: nat| #[trigger] weight(done + these, v) == weight(done, v) + weight(these, v) by {
                    lemma_weight_concat(done, these, v);
                }
                assert forall|v: int| 0 <= v < c.len() implies #[trigger] taken[v] + weight(these, v as nat)
                    <= c[v] by {
                    assert(taken[v] + weight(these + rest, v as nat) <= c[v]);
                }
            }
            let (base, fac) = p.term(i);
            let id = self.term(base, fac, counts, Ghost(s), Ghost(cur));
            ids.push(id);
            proof {
                let n = self.instrs@.len() as nat;
                assert forall|k: int| 0 <= k < ids@.len() implies #[trigger] ids@[k] < n by {
                    if k < old_ids.len() {
                        assert(ids@[k] == old_ids[k]);
                    }
                }
                assert forall|v: int| 0 <= v < c.len() implies #[trigger] self.taken@[v] + weight(rest, v as nat)
                    <= c[v] by {
                    assert(taken[v] + weight(these + rest, v as nat) <= c[v]);
                }
                assert forall|v: int| 0 <= v < old(self).taken@.len() implies #[trigger] self.taken@[v] == old(
                    self,
                ).taken@[v] + weight(done + these, v as nat) by {
                    assert(taken[v] == old(self).taken@[v] + weight(done, v as nat));
                }
                lemma_extends_transitive(old(self).iv(), before, self.iv());
                lemma_value_trees_later(before, self.iv(), old_ids, before.len(), n);
                assert(ids@.drop_last() =~= old_ids);
                assert(terms.take(i + 1).drop_last() =~= terms.take(i as int));
                assert(terms.take(i + 1).last() == terms[i as int]);
            }
            i += 1;
        }
        proof {
            assert(terms.take(i as int) =~= terms);
            lemma_value_trees_index(self.iv(), ids@, self.instrs@.len() as nat);
        }
        if ids.len() == 1 {
            ids[0]
        } else if ids.len() == 0 {
            let ghost before = self.iv();
            let id = self.emit(Instr::Int(0), Ghost(s), Ghost(c), Ghost(cur));
            proof {
                lemma_extends_transitive(old(self).iv(), before, self.iv());
            }
            id
        } else {
            let ghost before = self.iv();
            let ghost all = ids@;
            let id = self.emit(Instr::Sum(ids), Ghost(s), Ghost(c), Ghost(cur));
            proof {
                lemma_extends_transitive(old(self).iv(), before, self.iv());
                lemma_value_trees_later(before, self.iv(), all, before.len(), before.len());
            }
            id
        }
    }

    /// The instructions of the node `cur`, which is used at least once.
    /// Fails for a tuple.
    fn node(&mut self, cache: &Cache, cur: usize, counts: &Vec<usize>) -> (r: Result<(), Error>)
        requires
            old(self).ok(cache@, counts@, cur as nat),
            cache.wf(),
            cur < counts@.len(),
            counts@.len() <= cache@.len(),
            counts@[cur as int] > 0,
            old(self).taken@[cur as int] == 0,
            budget(old(self).taken@, counts@, positions(cache@, cur as nat)),
            strings_view(old(self).inputs@) == input_names(cache@, counts@, cur as nat),
        ensures
            r is Ok ==> final(self).ok(cache@, counts@, (cur + 1) as nat) && counted(
                old(self).taken@,
                final(self).taken@,
                positions(cache@, cur as nat),
            ) && strings_view(final(self).inputs@) == input_names(cache@, counts@, (cur + 1) as nat),
            r is Ok ==> !(cache@[cur as int] is Tuple),
            r matches Err(e) ==> e == Error::NotImplemented && cache@[cur as int] is Tuple,
    {
        let ghost s = cache@;
        let ghost c = counts@;
        let ghost u = positions(s, cur as nat);
        proof {
            cache.lemma_wf();
            assert(node_below(s[cur as int], cur as int));
        }
        let value = match cache.get(NodeRc { id: cur }) {
            Node::Var(name) => {
                let ghost before = strings_view(self.inputs@);
                let ghost middle = *self;
                self.inputs.push(String::from_str(name.as_str()));
                proof {
                    assert(strings_view(self.inputs@) =~= before.push(name@));
                    Emitter::lemma_inputs(middle, *self, s, c, cur as nat);
                }
                self.emit(Instr::Source(String::from_str(name.as_str())), Ghost(s), Ghost(c), Ghost(cur as nat))
            },
            Node::Func(f, g) => {
                proof {
                    lemma_weight_single((*g, 1nat), g.id as nat);
                    assert(self.taken@[g.id as int] + weight(u, g.id as nat) <= c[g.id as int]);
                }
                let ghost taken = self.taken@;
                let a = self.take(g.id, counts, Ghost(s), Ghost(cur as nat));
                let ghost middle = self.iv();
                proof {
                    assert forall|v: int| 0 <= v < taken.len() implies #[trigger] self.taken@[v] == taken[v]
                        + weight(u, v as nat) by {
                        lemma_weight_single((*g, 1nat), v as nat);
                    }
                }
                let id = self.emit(Instr::Func(*f, a), Ghost(s), Ghost(c), Ghost(cur as nat));
                proof {
                    lemma_value_tree_extends(middle, self.iv(), a as nat);
                }
                id
            },
            Node::Poly(p) => {
                proof {
                    p.lemma_stored();
                }
                self.poly(p, counts, Ghost(s), Ghost(cur as nat))
            },
            Node::Tuple(_) => {
                return Err(Error::NotImplemented);
            },
        };
        proof {
            cache.lemma_stored(cur as int);
            lemma_positions_below(s, cur as nat);
            lemma_weight_above(u, cur as int, cur as nat);
            if s[cur as int] is Var {
                assert forall|v: nat| #[trigger] weight(u, v) == 0 by {}
            }
        }
        self.finish(cur, value, counts, Ghost(s));
        Ok(())
    }

    /// A node that is not used is passed over.
    proof fn lemma_skip(&self, s: Store, counts: Seq<usize>, cur: nat)
        requires
            self.ok(s, counts, cur),
            cur < counts.len(),
            counts[cur as int] == 0,
        ensures
            self.ok(s, counts, cur + 1),
    {
        reveal(Emitter::held);
    }
}

/// The reference counts of the nodes up to `root`, as machine numbers.
pub open spec fn use_counts(s: Store, root: nat) -> Seq<usize> {
    Seq::new(root + 1, |v: int| uses(s, root, v as nat) as usize)
}

/// A reference count is no `usize`.
pub open spec fn count_overflows(s: Store, root: nat) -> bool {
    exists|v: nat| v <= root && #[trigger] uses(s, root, v) > usize::MAX
}

/// The expression holds a tuple.
pub open spec fn has_tuple(s: Store, root: nat) -> bool {
    exists|v: nat| v <= root && #[trigger] uses(s, root, v) > 0 && s[v as int] is Tuple
}

/// What lowering gives: a well-formed program whose result stands for the
/// expression, with one store for each node that is used more than once,
/// in the order of the nodes, each with the reference count of its node;
/// one load of each temporary for every use after the first; and the
/// names of the variables in the order of their nodes.
pub open spec fn lowered(s: Store, root: nat, iv: Seq<InstrView>, inputs: Seq<Seq<char>>, result: usize) -> bool {
    &&& program_wf(iv)
    &&& result < iv.len()
    &&& value_tree(iv, result as nat) == node_tree(s, root)
    &&& store_uses(iv) == stored_upto(use_counts(s, root), root + 1)
    &&& forall|k: usize| k < store_uses(iv).len() ==> #[trigger] loads(iv, k) == store_uses(iv)[k as int] - 1
    &&& forall|k: usize| k >= store_uses(iv).len() ==> #[trigger] loads(iv, k) == 0
    &&& inputs == input_names(s, use_counts(s, root), root + 1)
}

/// Every store belongs to a node that is used more than once.
pub proof fn lemma_slot_owner(counts: Seq<usize>, n: nat, k: nat) -> (v: nat)
    requires
        k < stored_upto(counts, n).len(),
    ensures
        v < n,
        counts[v as int] > 1,
        stored_upto(counts, v).len() == k,
        stored_upto(counts, n)[k as int] == counts[v as int],
    decreases n,
{
    if counts[n - 1] > 1 && stored_upto(counts, (n - 1) as nat).len() == k {
        (n - 1) as nat
    } else {
        lemma_slot_owner(counts, (n - 1) as nat, k)
    }
}

/// An expression in which no node is used more than once is lowered
/// without stores.
pub proof fn lemma_no_sharing(counts: Seq<usize>, n: nat)
    requires
        forall|v: int| 0 <= v < n ==> #[trigger] counts[v] <= 1,
    ensures
        stored_upto(counts, n) == Seq::<usize>::empty(),
    decreases n,
{
    if n > 0 {
        lemma_no_sharing(counts, (n - 1) as nat);
        assert(counts[n - 1] <= 1);
    }
}

/// The uses of the nodes below `cur` are lowered, and no others.
#[verifier::opaque]
spec fn progress(taken: Seq<usize>, c: Seq<usize>, s: Store, top: nat, cur: nat) -> bool {
    &&& taken.len() == c.len()
    &&& c.len() == top + 1
    &&& forall|v: int|
        0 <= v <= top ==> #[trigger] taken[v] + (if v == top {
            1nat
        } else {
            0nat
        }) + incoming(s, top, v as nat, later((v + 1) as nat, cur)) == c[v]
    &&& forall|v: int| cur <= v <= top ==> #[trigger] taken[v] == 0
}

/// Before the node `cur` is lowered, its uses of other nodes have room in
/// their counts, and it was not used itself.
proof fn lemma_progress_budget(taken: Seq<usize>, c: Seq<usize>, s: Store, top: nat, cur: nat)
    requires
        progress(taken, c, s, top, cur),
        cur <= top,
        c[cur as int] == uses(s, top, cur),
        c[cur as int] > 0,
        uses_below(positions(s, cur), cur as int),
    ensures
        budget(taken, c, positions(s, cur)),
        taken[cur as int] == 0,
{
    reveal(progress);
    let u = positions(s, cur);
    assert forall|v: int| 0 <= v < c.len() implies #[trigger] taken[v] + weight(u, v as nat) <= c[v] by {
        if v >= cur {
            lemma_weight_above(u, cur as int, v as nat);
        } else {
            assert(later((v + 1) as nat, cur) == cur);
        }
    }
}

/// After the node `cur` is lowered or passed over, the uses of the nodes
/// up to it are lowered.
proof fn lemma_progress_step(before: Seq<usize>, after: Seq<usize>, c: Seq<usize>, s: Store, top: nat, cur: nat)
    requires
        progress(before, c, s, top, cur),
        cur <= top,
        c[cur as int] == uses(s, top, cur),
        uses_below(positions(s, cur), cur as int),
        if c[cur as int] > 0 {
            counted(before, after, positions(s, cur))
        } else {
            after == before
        },
    ensures
        progress(after, c, s, top, cur + 1),
{
    reveal(progress);
    let u = positions(s, cur);
    assert forall|v: int| 0 <= v <= top implies #[trigger] after[v] + (if v == top {
        1nat
    } else {
        0nat
    }) + incoming(s, top, v as nat, later((v + 1) as nat, cur + 1)) == c[v] by {
        assert(before[v] + (if v == top {
            1nat
        } else {
            0nat
        }) + incoming(s, top, v as nat, later((v + 1) as nat, cur)) == c[v]);
        if v < cur {
            assert(later((v + 1) as nat, cur) == cur);
        } else {
            lemma_weight_above(u, cur as int, v as nat);
        }
    }
    assert forall|v: int| cur + 1 <= v <= top implies #[trigger] after[v] == 0 by {
        lemma_weight_above(u, cur as int, v as nat);
        assert(before[v] == 0);
    }
}

/// When every node is lowered, every node but the root was taken as often
/// as it is used, and the root is used once.
proof fn lemma_progress_end(taken: Seq<usize>, c: Seq<usize>, s: Store, top: nat)
    requires
        progress(taken, c, s, top, top + 1),
    ensures
        forall|v: int| 0 <= v < top ==> #[trigger] taken[v] == c[v],
{
    reveal(progress);
    assert forall|v: int| 0 <= v < top implies #[trigger] taken[v] == c[v] by {
        assert(taken[v] + (if v == top {
            1nat
        } else {
            0nat
        }) + incoming(s, top, v as nat, later((v + 1) as nat, top + 1)) == c[v]);
    }
}

/// A program for the expression `root`: see [`lowered`]. Fails with
/// `Overflow` if a reference count is no `usize`, and else with
/// `NotImplemented` if the expression holds a tuple.
pub fn lower(cache: &Cache, root: NodeRc) -> (r: Result<Program, Error>)
    requires
        cache.wf(),
        root.id < cache@.len(),
    ensures
        r matches Ok(p) ==> lowered(
            cache@,
            root.id as nat,
            instrs_view(p.instrs@),
            strings_view(p.inputs@),
            p.result,
        ) && !count_overflows(cache@, root.id as nat) && !has_tuple(cache@, root.id as nat),
        r matches Err(e) ==> (e == Error::Overflow && count_overflows(cache@, root.id as nat)) || (e
            == Error::NotImplemented && !count_overflows(cache@, root.id as nat) && has_tuple(
            cache@,
            root.id as nat,
        )),
{
    let ghost s = cache@;
    let ghost top = root.id as nat;
    let counts = match count_uses(cache, root) {
        Ok(counts) => counts,
        Err(e) => {
            return Err(e);
        },
    };
    let ghost c = counts@;
    proof {
        assert(c =~= use_counts(s, top));
        assert forall|v: nat| v <= top implies !(#[trigger] uses(s, top, v) > usize::MAX) by {
            assert(c[v as int] == uses(s, top, v));
        }
    }
    let _ = cache.len();
    let n = root.id + 1;
    let mut e = Emitter {
        instrs: Vec::new(),
        inputs: Vec::new(),
        values: zeros(n),
        slots: zeros(n),
        taken: zeros(n),
        stores: 0,
    };
    proof {
        reveal(Emitter::held);
        assert(e.iv() =~= Seq::<InstrView>::empty());
        assert(strings_view(e.inputs@) =~= Seq::<Seq<char>>::empty());
        assert(progress(e.taken@, c, s, top, 0)) by {
            reveal(progress);
            assert forall|v: int| 0 <= v <= top implies #[trigger] e.taken@[v] + (if v == top {
                1nat
            } else {
                0nat
            }) + incoming(s, top, v as nat, later((v + 1) as nat, 0)) == c[v] by {
                assert(c[v] == uses(s, top, v as nat));
            }
        }
    }
    let mut cur: usize = 0;
    while cur < n
        invariant
            cur <= n,
            n == root.id + 1,
            top == root.id,
            s == cache@,
            c == counts@,
            c == use_counts(s, top),
            forall|v: int| 0 <= v < n ==> #[trigger] c[v] == uses(s, top, v as nat),
            !count_overflows(s, top),
            cache.wf(),
            n <= s.len(),
            c.len() == n,
            e.ok(s, c, cur as nat),
            progress(e.taken@, c, s, top, cur as nat),
            forall|v: int| 0 <= v < cur && c[v] > 0 ==> !(#[trigger] s[v] is Tuple),
            strings_view(e.inputs@) == input_names(s, c, cur as nat),
        decreases n - cur,
    {
        let ghost taken = e.taken@;
        proof {
            cache.lemma_wf();
            cache.lemma_stored(cur as int);
            lemma_positions_below(s, cur as nat);
            assert(c[cur as int] == uses(s, top, cur as nat));
        }
        if counts[cur] > 0 {
            proof {
                lemma_progress_budget(taken, c, s, top, cur as nat);
            }
            match e.node(cache, cur, &counts) {
                Ok(_) => {},
                Err(err) => {
                    proof {
                        assert(uses(s, top, cur as nat) > 0 && s[cur as int] is Tuple);
                    }
                    return Err(err);
                },
            }
        } else {
            proof {
                e.lemma_skip(s, c, cur as nat);
            }
        }
        proof {
            lemma_progress_step(taken, e.taken@, c, s, top, cur as nat);
        }
        cur += 1;
    }
    proof {
        reveal(Emitter::held);
    }
    let result = e.values[root.id];
    proof {
        let iv = e.iv();
        lemma_progress_end(e.taken@, c, s, top);
        assert(uses(s, top, top) == 1);
        assert(c[top as int] == 1);
        assert forall|k: usize| k < store_uses(iv).len() implies #[trigger] loads(iv, k) == store_uses(iv)[k as int]
            - 1 by {
            let v = lemma_slot_owner(c, n as nat, k as nat);
            assert(e.slots@[v as int] == k);
            assert(e.taken@[v as int] == c[v as int]);
        }
        assert forall|v: nat| v <= top && #[trigger] uses(s, top, v) > 0 implies !(s[v as int] is Tuple) by {
            assert(c[v as int] == uses(s, top, v));
        }
    }
    Ok(Program { instrs: e.instrs, inputs: e.inputs, result })
}

} // verus!
