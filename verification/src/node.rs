//! Expression nodes, handles to them, and the interning store.

use vstd::prelude::*;
use std::collections::HashMap;
use crate::func::Func;
use crate::hash::node_hash;
use crate::poly::{poly_below, poly_stored, poly_wf, Poly, PolyMap};

verus! {

/// A handle to an interned node: its position in the store that made it.
/// Handles of one store are equal exactly when their nodes are.
#[derive(Clone, Copy, Debug, PartialEq, Eq, Structural, Hash, PartialOrd, Ord)]
pub struct NodeRc {
    pub id: usize,
}

#[derive(Debug, Clone, Copy, PartialEq, Eq, Structural)]
pub enum Sign {
    Negative,
    Positive,
}

/// An operator on expressions.
#[derive(Debug, PartialEq, Eq, Hash, PartialOrd, Ord)]
pub enum Op {
    /// The derivative by the named variable.
    Diff(String),
}

impl Op {
    /// The operator as it is written: `d/d` and the variable.
    pub fn text(&self) -> (r: String)
        ensures
            r@ == match *self {
                Op::Diff(v) => "d/d"@ + v@,
            },
    {
        match self {
            Op::Diff(v) => String::from_str("d/d").concat(v.as_str()),
        }
    }
}

/// An expression. Its parts are handles into the store that holds it.
#[derive(Debug)]
pub enum Node {
    /// A free symbol.
    Var(String),
    /// A function applied to an argument, unevaluated.
    Func(Func, NodeRc),
    /// A polynomial in other nodes.
    Poly(Poly),
    /// A fixed number of expressions side by side.
    Tuple(Vec<NodeRc>),
}

/// The mathematical value of a node.
pub enum NodeView {
    Var(Seq<char>),
    Func(Func, NodeRc),
    Poly(PolyMap),
    Tuple(Seq<NodeRc>),
}

impl View for Node {
    type V = NodeView;

    open spec fn view(&self) -> NodeView {
        match *self {
            Node::Var(name) => NodeView::Var(name@),
            Node::Func(f, g) => NodeView::Func(f, g),
            Node::Poly(p) => NodeView::Poly(p@),
            Node::Tuple(parts) => NodeView::Tuple(parts@),
        }
    }
}

/// Every handle of the list is below `n`.
pub open spec fn handles_below(parts: Seq<NodeRc>, n: int) -> bool {
    forall|k: int| 0 <= k < parts.len() ==> (#[trigger] parts[k]).id < n
}

/// Every handle in the node is below `n`.
pub open spec fn node_below(v: NodeView, n: int) -> bool {
    match v {
        NodeView::Var(_) => true,
        NodeView::Func(_, g) => g.id < n,
        NodeView::Poly(p) => poly_below(p, n),
        NodeView::Tuple(parts) => handles_below(parts, n),
    }
}

/// A polynomial node holds a well-formed polynomial.
pub open spec fn node_ok(v: NodeView) -> bool {
    match v {
        NodeView::Poly(p) => poly_wf(p),
        _ => true,
    }
}

/// A polynomial node holds a polynomial that is stored in canonical form.
pub open spec fn node_stored(v: NodeView) -> bool {
    match v {
        NodeView::Poly(p) => poly_stored(p),
        _ => true,
    }
}

/// The contents of an interning store, by handle.
pub type Store = Seq<NodeView>;

/// The invariant of a store: every node refers only to nodes before it,
/// and no node occurs twice.
pub open spec fn store_wf(s: Store) -> bool {
    &&& forall|i: int| 0 <= i < s.len() ==> node_ok(#[trigger] s[i]) && node_below(s[i], i)
    &&& forall|i: int, j: int| 0 <= i < s.len() && 0 <= j < s.len() && #[trigger] s[i] == #[trigger] s[j] ==> i == j
}

/// Whether the store holds the node.
pub open spec fn store_has(s: Store, v: NodeView) -> bool {
    exists|i: int| 0 <= i < s.len() && #[trigger] s[i] == v
}

/// The handle of a node that the store holds.
pub open spec fn store_find(s: Store, v: NodeView) -> NodeRc {
    NodeRc { id: (choose|i: int| 0 <= i < s.len() && #[trigger] s[i] == v) as usize }
}

/// Interning: the store afterwards and the handle of the node. A node that
/// the store holds keeps its handle, and a new one goes to the end.
pub open spec fn intern_spec(s: Store, v: NodeView) -> (Store, NodeRc) {
    if store_has(s, v) {
        (s, store_find(s, v))
    } else {
        (s.push(v), NodeRc { id: s.len() as usize })
    }
}

/// `t` holds every node of `s` under the same handle.
pub open spec fn store_extends(s: Store, t: Store) -> bool {
    s.len() <= t.len() && forall|i: int| 0 <= i < s.len() ==> #[trigger] t[i] == s[i]
}

/// Interning keeps the invariant of the store and every handle given out
/// before, and returns a handle to the node.
pub proof fn lemma_intern(s: Store, v: NodeView)
    requires
        store_wf(s),
        node_ok(v),
        node_below(v, s.len() as int),
        s.len() <= usize::MAX,
    ensures
        store_wf(intern_spec(s, v).0),
        store_extends(s, intern_spec(s, v).0),
        intern_spec(s, v).1.id < intern_spec(s, v).0.len(),
        intern_spec(s, v).0[intern_spec(s, v).1.id as int] == v,
        intern_spec(s, v).0.len() <= s.len() + 1,
{
    let (t, h) = intern_spec(s, v);
    if !store_has(s, v) {
        assert forall|i: int| 0 <= i < t.len() implies node_ok(#[trigger] t[i]) && node_below(t[i], i) by {
            if i < s.len() {
                assert(t[i] == s[i]);
            }
        }
    }
}

/// Interning is idempotent: a node that was interned gets the same handle
/// again, in that store and in every store that extends it, and the store
/// stays as it is.
pub proof fn lemma_intern_idempotent(s: Store, v: NodeView, t: Store)
    requires
        store_wf(s),
        s.len() <= usize::MAX,
        store_wf(t),
        store_extends(intern_spec(s, v).0, t),
    ensures
        intern_spec(t, v) == (t, intern_spec(s, v).1),
{
    let (s1, h) = intern_spec(s, v);
    assert(s1[h.id as int] == v);
    assert(t[h.id as int] == v);
    let g = store_find(t, v);
    assert(t[g.id as int] == v);
}

/// In a well-formed store, handles are equal exactly when their nodes are.
pub proof fn lemma_handle_equality(s: Store, a: NodeRc, b: NodeRc)
    requires
        store_wf(s),
        a.id < s.len(),
        b.id < s.len(),
    ensures
        (a == b) == (s[a.id as int] == s[b.id as int]),
{
}

impl Node {
    /// The representation invariant of the node's parts.
    pub open spec fn wf(&self) -> bool {
        match *self {
            Node::Poly(p) => p.wf(),
            _ => true,
        }
    }

    /// Whether two nodes have the same value.
    pub fn equals(&self, other: &Node) -> (r: bool)
        requires
            self.wf(),
            other.wf(),
        ensures
            r == (self@ == other@),
    {
        match (self, other) {
            (Node::Var(a), Node::Var(b)) => {
                let same = *a == *b;
                assert(same == (a@ == b@));
                same
            },
            (Node::Func(f, g), Node::Func(h, k)) => {
                let same = *f == *h && g.id == k.id;
                assert(same == (*f == *h && *g == *k));
                same
            },
            (Node::Poly(p), Node::Poly(q)) => {
                let same = p.equals(q);
                assert(same == (p@ == q@));
                same
            },
            (Node::Tuple(a), Node::Tuple(b)) => {
                if a.len() != b.len() {
                    return false;
                }
                let mut i: usize = 0;
                while i < a.len()
                    invariant
                        i <= a.len(),
                        a.len() == b.len(),
                        self@ == NodeView::Tuple(a@),
                        other@ == NodeView::Tuple(b@),
                        forall|k: int| 0 <= k < i ==> a@[k] == b@[k],
                    decreases a.len() - i,
                {
                    if a[i].id != b[i].id {
                        assert(a@[i as int] != b@[i as int]);
                        return false;
                    }
                    i += 1;
                }
                assert(a@ =~= b@);
                true
            },
            _ => false,
        }
    }
}

/// The interning store: it holds every node once, and finds a node by its
/// structural hash. A node stays in the store for as long as the store
/// lives.
pub struct Cache {
    items: Vec<Node>,
    /// for each hash, the places of the nodes with that hash
    table: HashMap<u64, Vec<usize>>,
}

impl View for Cache {
    type V = Store;

    closed spec fn view(&self) -> Store {
        Seq::new(self.items@.len(), |i: int| self.items@[i]@)
    }
}

impl Cache {
    /// The invariant of the store.
    pub closed spec fn wf(&self) -> bool {
        &&& store_wf(self@)
        &&& forall|i: int| 0 <= i < self.items@.len() ==> (#[trigger] self.items@[i]).wf()
        &&& forall|i: int|
            0 <= i < self.items@.len() ==> self.table@.dom().contains(node_hash(#[trigger] self@[i]))
                && self.table@[node_hash(self@[i])]@.contains(i as usize)
        &&& forall|k: u64, j: int|
            self.table@.dom().contains(k) && 0 <= j < self.table@[k]@.len() ==> #[trigger] self.table@[k]@[j]
                < self.items@.len()
    }

    /// A well-formed cache holds a well-formed store.
    pub proof fn lemma_wf(&self)
        requires
            self.wf(),
        ensures
            store_wf(self@),
    {
    }

    /// The polynomials of a cache are stored in canonical form.
    pub proof fn lemma_stored(&self, i: int)
        requires
            self.wf(),
            0 <= i < self@.len(),
        ensures
            node_stored(self@[i]),
    {
        assert(self.items@[i].wf());
        match self.items@[i] {
            Node::Poly(p) => {
                p.lemma_stored();
            },
            _ => {},
        }
    }

    pub fn new() -> (r: Cache)
        ensures
            r.wf(),
            r@ == Seq::<NodeView>::empty(),
    {
        let r = Cache { items: Vec::new(), table: HashMap::new() };
        assert(r@ =~= Seq::<NodeView>::empty());
        r
    }

    /// The parts of a tuple node; `None` for another node.
    pub fn tuple_parts(&self, h: NodeRc) -> (r: Option<Vec<NodeRc>>)
        requires
            h.id < self@.len(),
        ensures
            r matches Some(v) ==> self@[h.id as int] == NodeView::Tuple(v@),
            r is None ==> !(self@[h.id as int] is Tuple),
    {
        match &self.items[h.id] {
            Node::Tuple(parts) => {
                let mut out: Vec<NodeRc> = Vec::new();
                let mut i: usize = 0;
                while i < parts.len()
                    invariant
                        i <= parts.len(),
                        out@ == parts@.take(i as int),
                    decreases parts.len() - i,
                {
                    out.push(parts[i]);
                    assert(parts@.take(i + 1) =~= parts@.take(i as int).push(parts@[i as int]));
                    i += 1;
                }
                assert(parts@.take(parts.len() as int) =~= parts@);
                Some(out)
            },
            _ => None,
        }
    }

    /// The number of nodes in the store.
    pub fn len(&self) -> (r: usize)
        ensures
            r == self@.len(),
    {
        self.items.len()
    }

    /// The node behind a handle.
    pub fn get(&self, h: NodeRc) -> (r: &Node)
        requires
            h.id < self@.len(),
        ensures
            r@ == self@[h.id as int],
            self.wf() ==> r.wf(),
    {
        &self.items[h.id]
    }

    /// The handle of the node: the one it has, if the store holds it, else
    /// a new one. The nodes with the hash of the node are compared with
    /// it.
    pub fn intern(&mut self, node: Node) -> (r: NodeRc)
        requires
            old(self).wf(),
            node.wf(),
            node_ok(node@),
            node_below(node@, old(self)@.len() as int),
        ensures
            final(self).wf(),
            (final(self)@, r) == intern_spec(old(self)@, node@),
    {
        broadcast use vstd::std_specs::hash::group_hash_axioms;

        let ghost s = self@;
        let ghost v = node@;
        let h = node.hash();
        let n = self.items.len();
        match self.table.get(&h) {
            Some(bucket) => {
                let mut j: usize = 0;
                while j < bucket.len()
                    invariant
                        j <= bucket@.len(),
                        self.wf(),
                        node.wf(),
                        self@ == s,
                        v == node@,
                        n == self.items@.len(),
                        self.table@.dom().contains(h),
                        bucket@ == self.table@[h]@,
                        forall|k: int| 0 <= k < j ==> s[#[trigger] bucket@[k] as int] != v,
                    decreases bucket@.len() - j,
                {
                    let at = bucket[j];
                    assert(self.table@[h]@[j as int] < self.items@.len());
                    if self.items[at].equals(&node) {
                        proof {
                            assert(s[at as int] == v);
                            let g = store_find(s, v);
                            assert(s[g.id as int] == v);
                        }
                        return NodeRc { id: at };
                    }
                    j += 1;
                }
            },
            None => {},
        }
        proof {
            assert forall|i: int| 0 <= i < s.len() implies #[trigger] s[i] != v by {
                if s[i] == v {
                    assert(self.table@.dom().contains(node_hash(self@[i])));
                    let bucket = self.table@[h]@;
                    assert(bucket.contains(i as usize));
                    let k = choose|k: int| 0 <= k < bucket.len() && bucket[k] == i as usize;
                    assert(s[bucket[k] as int] != v);
                }
            }
            lemma_intern(s, v);
        }
        self.items.push(node);
        let ghost old_table = self.table@;
        let mut bucket = match self.table.remove(&h) {
            Some(bucket) => bucket,
            None => Vec::new(),
        };
        let ghost old_bucket = bucket@;
        bucket.push(n);
        let ghost new_bucket = bucket@;
        self.table.insert(h, bucket);
        proof {
            assert(self@ =~= s.push(v));
            assert forall|k: int| 0 <= k < self.items@.len() implies (#[trigger] self.items@[k]).wf() by {
                if k < n {
                    assert(self.items@[k] == old(self).items@[k]);
                }
            }
            assert forall|i: int| 0 <= i < self.items@.len() implies self.table@.dom().contains(
                node_hash(#[trigger] self@[i]),
            ) && self.table@[node_hash(self@[i])]@.contains(i as usize) by {
                if i < n {
                    let k = node_hash(s[i]);
                    assert(self@[i] == s[i]);
                    assert(old_table.dom().contains(k) && old_table[k]@.contains(i as usize));
                    if k == h {
                        let at = choose|at: int| 0 <= at < old_bucket.len() && old_bucket[at] == i as usize;
                        assert(new_bucket[at] == i as usize);
                    }
                } else {
                    assert(new_bucket[new_bucket.len() - 1] == n);
                }
            }
            assert forall|k: u64, j: int|
                self.table@.dom().contains(k) && 0 <= j < self.table@[k]@.len() implies #[trigger] self.table@[k]@[j]
                    < self.items@.len() by {
                if k == h {
                    if j < old_bucket.len() {
                        assert(new_bucket[j] == old_bucket[j]);
                        if old_table.dom().contains(h) {
                            assert(old_table[h]@[j] < n);
                        }
                    }
                } else {
                    assert(old_table[k]@[j] < n);
                }
            }
        }
        NodeRc { id: n }
    }
}

} // verus!
