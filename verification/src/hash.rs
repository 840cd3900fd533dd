//! The structural hash of a node, by which the interning store finds the
//! nodes that can be equal to a new one.
//!
//! The hash is a function of the value of the node. Equal nodes have
//! equal hashes; nodes with equal hashes are compared before one is
//! taken for the other.

use vstd::prelude::*;
use crate::func::{Func, Transient};
use crate::monomial::{base_view, Base, Monomial};
use crate::node::{Node, NodeRc, NodeView};
use crate::poly::{canon, Poly, Term};

verus! {

/// One step of the hash: the state so far, and the next number.
pub open spec fn mix(h: u64, x: u64) -> u64 {
    ((h * 0x100_0000_01b3 + x) % 0x1_0000_0000_0000_0000) as u64
}

/// A signed number as an unsigned one.
pub open spec fn code(i: int) -> u64 {
    if 0 <= i <= u64::MAX {
        i as u64
    } else if -0x8000_0000_0000_0000 <= i < 0 {
        (i + 0x1_0000_0000_0000_0000) as u64
    } else {
        0
    }
}

/// The hash of a text.
pub open spec fn hash_chars(h: u64, s: Seq<char>) -> u64
    decreases s.len(),
{
    if s.len() == 0 {
        h
    } else {
        mix(hash_chars(h, s.drop_last()), s.last() as u64)
    }
}

/// The hash of a list of handles.
pub open spec fn hash_ids(h: u64, ids: Seq<NodeRc>) -> u64
    decreases ids.len(),
{
    if ids.len() == 0 {
        h
    } else {
        mix(hash_ids(h, ids.drop_last()), ids.last().id as u64)
    }
}

/// The hash of a monomial.
pub open spec fn hash_base(h: u64, base: Monomial) -> u64
    decreases base.len(),
{
    if base.len() == 0 {
        h
    } else {
        mix(mix(hash_base(h, base.drop_last()), base.last().0.id as u64), code(base.last().1))
    }
}

/// The hash of a list of terms.
pub open spec fn hash_terms(h: u64, terms: Seq<Term>) -> u64
    decreases terms.len(),
{
    if terms.len() == 0 {
        h
    } else {
        let t = terms.last();
        mix(mix(hash_base(hash_terms(h, terms.drop_last()), t.base), code(t.fac.num)), code(t.fac.den))
    }
}

/// The number of a function.
pub open spec fn func_code(f: Func) -> u64 {
    match f {
        Func::Transient(Transient::Sin) => 1,
        Func::Transient(Transient::Cos) => 2,
        Func::Transient(Transient::Exp) => 3,
        Func::Transient(Transient::Log) => 4,
    }
}

/// The structural hash of a node.
pub open spec fn node_hash(v: NodeView) -> u64 {
    match v {
        NodeView::Var(name) => hash_chars(1, name),
        NodeView::Func(f, g) => mix(mix(2, func_code(f)), g.id as u64),
        NodeView::Poly(p) => hash_terms(3, canon(p)),
        NodeView::Tuple(parts) => hash_ids(4, parts),
    }
}

/// One step of the hash.
pub fn mix_in(h: u64, x: u64) -> (r: u64)
    ensures
        r == mix(h, x),
{
    assert(h * 0x100_0000_01b3 + x <= 0xffff_ffff_ffff_ffff * 0x100_0000_01b3 + 0xffff_ffff_ffff_ffff)
        by (nonlinear_arith)
        requires
            h <= 0xffff_ffff_ffff_ffff,
            x <= 0xffff_ffff_ffff_ffff,
    ;
    let wide: u128 = (h as u128) * 0x100_0000_01b3u128 + (x as u128);
    (wide % 0x1_0000_0000_0000_0000u128) as u64
}

/// A signed number as an unsigned one.
pub fn code_of(i: i64) -> (r: u64)
    ensures
        r == code(i as int),
{
    if i >= 0 {
        i as u64
    } else {
        (i as i128 + 0x1_0000_0000_0000_0000i128) as u64
    }
}

/// The hash of a text.
pub fn hash_str(h: u64, s: &str) -> (r: u64)
    ensures
        r == hash_chars(h, s@),
{
    let n = s.unicode_len();
    let mut state = h;
    let mut i: usize = 0;
    assert(s@.take(0) =~= Seq::<char>::empty());
    while i < n
        invariant
            i <= n,
            n == s@.len(),
            state == hash_chars(h, s@.take(i as int)),
        decreases n - i,
    {
        let c = s.get_char(i);
        proof {
            assert(s@.take(i + 1).drop_last() =~= s@.take(i as int));
            assert(s@.take(i + 1).last() == c);
        }
        state = mix_in(state, c as u32 as u64);
        i += 1;
    }
    assert(s@.take(n as int) =~= s@);
    state
}

/// The hash of a list of handles.
pub fn hash_handles(h: u64, ids: &Vec<NodeRc>) -> (r: u64)
    ensures
        r == hash_ids(h, ids@),
{
    let mut state = h;
    let mut i: usize = 0;
    assert(ids@.take(0) =~= Seq::<NodeRc>::empty());
    while i < ids.len()
        invariant
            i <= ids@.len(),
            state == hash_ids(h, ids@.take(i as int)),
        decreases ids@.len() - i,
    {
        proof {
            assert(ids@.take(i + 1).drop_last() =~= ids@.take(i as int));
            assert(ids@.take(i + 1).last() == ids@[i as int]);
        }
        state = mix_in(state, ids[i].id as u64);
        i += 1;
    }
    assert(ids@.take(ids@.len() as int) =~= ids@);
    state
}

/// The hash of a stored monomial.
pub fn hash_stored_base(h: u64, base: &Base) -> (r: u64)
    ensures
        r == hash_base(h, base_view(base@)),
{
    let ghost mono = base_view(base@);
    let mut state = h;
    let mut i: usize = 0;
    assert(mono.take(0) =~= Seq::<(NodeRc, int)>::empty());
    while i < base.len()
        invariant
            i <= base@.len(),
            mono == base_view(base@),
            state == hash_base(h, mono.take(i as int)),
        decreases base@.len() - i,
    {
        let (v, e) = base[i];
        proof {
            assert(mono.take(i + 1).drop_last() =~= mono.take(i as int));
            assert(mono.take(i + 1).last() == (v, e as int));
        }
        state = mix_in(mix_in(state, v.id as u64), code_of(e));
        i += 1;
    }
    assert(mono.take(base@.len() as int) =~= mono);
    state
}

/// The hash of a polynomial.
pub fn hash_poly(h: u64, p: &Poly) -> (r: u64)
    requires
        p.wf(),
    ensures
        r == hash_terms(h, canon(p@)),
{
    let ghost terms = p.terms();
    proof {
        p.lemma_stored();
    }
    let mut state = h;
    let mut i: usize = 0;
    assert(terms.take(0) =~= Seq::<Term>::empty());
    while i < p.len()
        invariant
            i <= terms.len(),
            terms == p.terms(),
            state == hash_terms(h, terms.take(i as int)),
        decreases terms.len() - i,
    {
        proof {
            assert(terms.take(i + 1).drop_last() =~= terms.take(i as int));
            assert(terms.take(i + 1).last() == terms[i as int]);
        }
        let (base, fac) = p.term(i);
        let (num, den) = fac.frac();
        state = mix_in(mix_in(hash_stored_base(state, base), code_of(num)), code_of(den));
        i += 1;
    }
    assert(terms.take(terms.len() as int) =~= terms);
    state
}

/// The number of a function.
pub fn func_number(f: Func) -> (r: u64)
    ensures
        r == func_code(f),
{
    match f {
        Func::Transient(Transient::Sin) => 1,
        Func::Transient(Transient::Cos) => 2,
        Func::Transient(Transient::Exp) => 3,
        Func::Transient(Transient::Log) => 4,
    }
}

impl Node {
    /// The structural hash of the node.
    pub fn hash(&self) -> (r: u64)
        requires
            self.wf(),
        ensures
            r == node_hash(self@),
    {
        match self {
            Node::Var(name) => hash_str(1, name.as_str()),
            Node::Func(f, g) => mix_in(mix_in(2, func_number(*f)), g.id as u64),
            Node::Poly(p) => hash_poly(3, p),
            Node::Tuple(parts) => hash_handles(4, parts),
        }
    }
}

} // verus!
