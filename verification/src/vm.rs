//! The operations of a numeric backend, as data.
//!
//! Lowering turns an expression into a list of instructions. Each
//! instruction makes one value, and refers to the values of instructions
//! before it by their place in the list. A backend runs the list from the
//! front.

use vstd::prelude::*;
use crate::func::Func;

verus! {

/// The direction of rounding.
#[derive(Debug, Clone, Copy, PartialEq, Eq, Structural)]
pub enum Round {
    Up,
    Down,
}

/// One operation of the backend.
#[derive(Debug)]
pub enum Instr {
    /// An exact integer constant.
    Int(i64),
    /// The named input.
    Source(String),
    /// The sum of the values.
    Sum(Vec<usize>),
    /// The product of the values.
    Product(Vec<usize>),
    /// Binds the value to a new temporary that will be used this many
    /// times. The instruction stands for the first of those uses.
    Store(usize, usize),
    /// The temporary that the store with this number made, counted from 0
    /// in the order of the stores.
    Load(usize),
    /// The first value divided by the second.
    Div(usize, usize),
    /// One divided by the value.
    Inv(usize),
    /// The function applied to the value.
    Func(Func, usize),
}

/// The mathematical value of an instruction.
pub enum InstrView {
    Int(int),
    Source(Seq<char>),
    Sum(Seq<usize>),
    Product(Seq<usize>),
    Store(usize, usize),
    Load(usize),
    Div(usize, usize),
    Inv(usize),
    Func(Func, usize),
}

impl View for Instr {
    type V = InstrView;

    open spec fn view(&self) -> InstrView {
        match *self {
            Instr::Int(i) => InstrView::Int(i as int),
            Instr::Source(name) => InstrView::Source(name@),
            Instr::Sum(parts) => InstrView::Sum(parts@),
            Instr::Product(parts) => InstrView::Product(parts@),
            Instr::Store(value, uses) => InstrView::Store(value, uses),
            Instr::Load(slot) => InstrView::Load(slot),
            Instr::Div(a, b) => InstrView::Div(a, b),
            Instr::Inv(a) => InstrView::Inv(a),
            Instr::Func(f, a) => InstrView::Func(f, a),
        }
    }
}

/// The values of a list of instructions.
pub open spec fn instrs_view(v: Seq<Instr>) -> Seq<InstrView> {
    Seq::new(v.len(), |i: int| v[i]@)
}

/// A lowered expression: the instructions in the order in which they run,
/// the names of the inputs in the order of their first use, and the place
/// of the instruction that makes the result.
#[derive(Debug)]
pub struct Program {
    pub instrs: Vec<Instr>,
    pub inputs: Vec<String>,
    pub result: usize,
}

/// The use counts of the stores of a program, in their order.
pub open spec fn store_uses(instrs: Seq<InstrView>) -> Seq<usize>
    decreases instrs.len(),
{
    if instrs.len() == 0 {
        Seq::empty()
    } else {
        match instrs.last() {
            InstrView::Store(_, uses) => store_uses(instrs.drop_last()).push(uses),
            _ => store_uses(instrs.drop_last()),
        }
    }
}

/// The number of loads of the temporary `slot`.
pub open spec fn loads(instrs: Seq<InstrView>, slot: usize) -> nat
    decreases instrs.len(),
{
    if instrs.len() == 0 {
        0
    } else {
        loads(instrs.drop_last(), slot) + (if instrs.last() == InstrView::Load(slot) {
            1nat
        } else {
            0nat
        })
    }
}

/// The expression that a value of a program stands for, with every
/// temporary replaced by what it holds.
pub enum Tree {
    Int(int),
    Source(Seq<char>),
    Sum(Seq<Tree>),
    Product(Seq<Tree>),
    Div(Box<Tree>, Box<Tree>),
    Inv(Box<Tree>),
    Func(Func, Box<Tree>),
}

/// The place of the store with the number `slot`; -1 if there is none.
pub open spec fn store_index(iv: Seq<InstrView>, slot: nat) -> int
    decreases iv.len(),
{
    if iv.len() == 0 {
        -1
    } else if iv.last() is Store && store_uses(iv.drop_last()).len() == slot {
        iv.len() - 1
    } else {
        store_index(iv.drop_last(), slot)
    }
}

/// The expression that the value of the instruction at `id` stands for.
/// A store stands for the value that it stores, and a load for the value
/// that the store of its temporary stored.
pub open spec fn value_tree(iv: Seq<InstrView>, id: nat) -> Tree
    decreases id, 1nat, 0nat,
{
    if id >= iv.len() {
        Tree::Int(0)
    } else {
        match iv[id as int] {
            InstrView::Int(i) => Tree::Int(i),
            InstrView::Source(name) => Tree::Source(name),
            InstrView::Sum(parts) => Tree::Sum(value_trees(iv, parts, id)),
            InstrView::Product(parts) => Tree::Product(value_trees(iv, parts, id)),
            InstrView::Store(value, _) => if value < id {
                value_tree(iv, value as nat)
            } else {
                Tree::Int(0)
            },
            InstrView::Load(slot) => {
                let at = store_index(iv.take(id as int), slot as nat);
                if 0 <= at < id {
                    value_tree(iv, at as nat)
                } else {
                    Tree::Int(0)
                }
            },
            InstrView::Div(a, b) => if a < id && b < id {
                Tree::Div(Box::new(value_tree(iv, a as nat)), Box::new(value_tree(iv, b as nat)))
            } else {
                Tree::Int(0)
            },
            InstrView::Inv(a) => if a < id {
                Tree::Inv(Box::new(value_tree(iv, a as nat)))
            } else {
                Tree::Int(0)
            },
            InstrView::Func(f, a) => if a < id {
                Tree::Func(f, Box::new(value_tree(iv, a as nat)))
            } else {
                Tree::Int(0)
            },
        }
    }
}

/// The expressions that the values `parts` stand for, all of them made
/// before the place `limit`.
pub open spec fn value_trees(iv: Seq<InstrView>, parts: Seq<usize>, limit: nat) -> Seq<Tree>
    decreases limit, 0nat, parts.len(),
{
    if parts.len() == 0 {
        Seq::empty()
    } else {
        value_trees(iv, parts.drop_last(), limit).push(
            if parts.last() < limit {
                value_tree(iv, parts.last() as nat)
            } else {
                Tree::Int(0)
            },
        )
    }
}

/// `longer` begins with the instructions of `iv`.
pub open spec fn program_extends(iv: Seq<InstrView>, longer: Seq<InstrView>) -> bool {
    iv.len() <= longer.len() && longer.take(iv.len() as int) == iv
}

/// A value of a program stands for the same expression in every program
/// that begins with its instructions.
pub proof fn lemma_value_tree_extends(iv: Seq<InstrView>, longer: Seq<InstrView>, id: nat)
    requires
        program_extends(iv, longer),
        id < iv.len(),
    ensures
        value_tree(longer, id) == value_tree(iv, id),
    decreases id, 1nat, 0nat,
{
    assert(longer[id as int] == longer.take(iv.len() as int)[id as int]);
    assert(longer.take(id as int) =~= iv.take(id as int)) by {
        assert(longer.take(iv.len() as int).take(id as int) =~= longer.take(id as int));
    }
    match iv[id as int] {
        InstrView::Sum(parts) => {
            lemma_value_trees_extends(iv, longer, parts, id, id);
        },
        InstrView::Product(parts) => {
            lemma_value_trees_extends(iv, longer, parts, id, id);
        },
        InstrView::Store(value, _) => {
            if value < id {
                lemma_value_tree_extends(iv, longer, value as nat);
            }
        },
        InstrView::Load(slot) => {
            let at = store_index(iv.take(id as int), slot as nat);
            if 0 <= at < id {
                lemma_value_tree_extends(iv, longer, at as nat);
            }
        },
        InstrView::Div(a, b) => {
            if a < id && b < id {
                lemma_value_tree_extends(iv, longer, a as nat);
                lemma_value_tree_extends(iv, longer, b as nat);
            }
        },
        InstrView::Inv(a) => {
            if a < id {
                lemma_value_tree_extends(iv, longer, a as nat);
            }
        },
        InstrView::Func(_, a) => {
            if a < id {
                lemma_value_tree_extends(iv, longer, a as nat);
            }
        },
        _ => {},
    }
}

/// Values of a program stand for the same expressions in every program
/// that begins with its instructions, whatever the place from which they
/// are seen.
pub proof fn lemma_value_trees_extends(
    iv: Seq<InstrView>,
    longer: Seq<InstrView>,
    parts: Seq<usize>,
    limit: nat,
    later: nat,
)
    requires
        program_extends(iv, longer),
        limit <= iv.len(),
        limit <= later,
        forall|k: int| 0 <= k < parts.len() ==> #[trigger] parts[k] < limit || later == limit,
    ensures
        value_trees(longer, parts, later) == value_trees(iv, parts, limit),
    decreases limit, 0nat, parts.len(),
{
    if parts.len() > 0 {
        let front = parts.drop_last();
        assert forall|k: int| 0 <= k < front.len() implies #[trigger] front[k] < limit || later == limit by {
            assert(front[k] == parts[k]);
        }
        lemma_value_trees_extends(iv, longer, front, limit, later);
        assert(parts.last() == parts[parts.len() - 1]);
        if parts.last() < limit {
            lemma_value_tree_extends(iv, longer, parts.last() as nat);
        }
    }
}

/// The store with the number `slot` stays where it is when instructions
/// are added.
pub proof fn lemma_store_index_push(iv: Seq<InstrView>, x: InstrView, slot: nat)
    requires
        slot < store_uses(iv).len(),
    ensures
        store_index(iv.push(x), slot) == store_index(iv, slot),
        0 <= store_index(iv, slot) < iv.len(),
        iv[store_index(iv, slot)] is Store,
    decreases iv.len(),
{
    assert(iv.push(x).drop_last() =~= iv);
    assert(iv.push(x).last() == x);
    lemma_store_index_found(iv, slot);
}

/// Every store can be found under its number.
pub proof fn lemma_store_index_found(iv: Seq<InstrView>, slot: nat)
    requires
        slot < store_uses(iv).len(),
    ensures
        0 <= store_index(iv, slot) < iv.len(),
        iv[store_index(iv, slot)] is Store,
        store_uses(iv.take(store_index(iv, slot))).len() == slot,
    decreases iv.len(),
{
    if iv.len() > 0 {
        if iv.last() is Store && store_uses(iv.drop_last()).len() == slot {
            assert(iv.take(iv.len() - 1) =~= iv.drop_last());
        } else {
            lemma_store_index_found(iv.drop_last(), slot);
            let at = store_index(iv.drop_last(), slot);
            assert(iv.take(at) =~= iv.drop_last().take(at));
        }
    }
}

/// A program with one more instruction begins with the program.
pub proof fn lemma_push_extends(iv: Seq<InstrView>, x: InstrView)
    ensures
        program_extends(iv, iv.push(x)),
{
    assert(iv.push(x).take(iv.len() as int) =~= iv);
}

/// Beginning with a program goes on through longer programs.
pub proof fn lemma_extends_transitive(a: Seq<InstrView>, b: Seq<InstrView>, c: Seq<InstrView>)
    requires
        program_extends(a, b),
        program_extends(b, c),
    ensures
        program_extends(a, c),
{
    assert(c.take(a.len() as int) =~= c.take(b.len() as int).take(a.len() as int));
}

/// A longer program has the stores of the shorter one, and more.
pub proof fn lemma_store_uses_extends(iv: Seq<InstrView>, longer: Seq<InstrView>)
    requires
        program_extends(iv, longer),
    ensures
        store_uses(iv).len() <= store_uses(longer).len(),
    decreases longer.len() - iv.len(),
{
    if longer.len() > iv.len() {
        assert(longer.drop_last().take(iv.len() as int) =~= longer.take(iv.len() as int));
        lemma_store_uses_extends(iv, longer.drop_last());
    } else {
        assert(longer.take(iv.len() as int) =~= longer);
    }
}

/// The stores of a program stay where they are in every program that
/// begins with its instructions.
pub proof fn lemma_store_index_extends(iv: Seq<InstrView>, longer: Seq<InstrView>, slot: nat)
    requires
        program_extends(iv, longer),
        slot < store_uses(iv).len(),
    ensures
        store_index(longer, slot) == store_index(iv, slot),
    decreases longer.len() - iv.len(),
{
    if longer.len() > iv.len() {
        assert(longer.drop_last().take(iv.len() as int) =~= longer.take(iv.len() as int));
        lemma_store_uses_extends(iv, longer.drop_last());
        lemma_store_index_extends(iv, longer.drop_last(), slot);
    } else {
        assert(longer.take(iv.len() as int) =~= longer);
    }
}

/// The expressions of values that were all made before `limit`, one by
/// one.
pub proof fn lemma_value_trees_index(iv: Seq<InstrView>, parts: Seq<usize>, limit: nat)
    requires
        forall|k: int| 0 <= k < parts.len() ==> #[trigger] parts[k] < limit,
    ensures
        value_trees(iv, parts, limit).len() == parts.len(),
        forall|k: int|
            0 <= k < parts.len() ==> #[trigger] value_trees(iv, parts, limit)[k] == value_tree(iv, parts[k] as nat),
    decreases parts.len(),
{
    if parts.len() > 0 {
        let front = parts.drop_last();
        assert forall|k: int| 0 <= k < front.len() implies #[trigger] front[k] < limit by {
            assert(front[k] == parts[k]);
        }
        lemma_value_trees_index(iv, front, limit);
        assert(parts.last() == parts[parts.len() - 1]);
        assert forall|k: int| 0 <= k < parts.len() implies #[trigger] value_trees(iv, parts, limit)[k]
            == value_tree(iv, parts[k] as nat) by {
            if k < front.len() {
                assert(front[k] == parts[k]);
            }
        }
    }
}

/// The expressions of two lists of values, one after the other.
pub proof fn lemma_value_trees_concat(iv: Seq<InstrView>, a: Seq<usize>, b: Seq<usize>, limit: nat)
    ensures
        value_trees(iv, a + b, limit) == value_trees(iv, a, limit) + value_trees(iv, b, limit),
    decreases b.len(),
{
    if b.len() == 0 {
        assert(a + b =~= a);
        assert(value_trees(iv, a, limit) + value_trees(iv, b, limit) =~= value_trees(iv, a, limit));
    } else {
        assert((a + b).drop_last() =~= a + b.drop_last());
        assert((a + b).last() == b.last());
        lemma_value_trees_concat(iv, a, b.drop_last(), limit);
        let last = if b.last() < limit {
            value_tree(iv, b.last() as nat)
        } else {
            Tree::Int(0)
        };
        assert(value_trees(iv, a + b, limit) =~= value_trees(iv, a, limit) + value_trees(
            iv,
            b.drop_last(),
            limit,
        ).push(last));
    }
}

/// The expressions of values that were made before `limit`, seen from a
/// later place in a longer program.
pub proof fn lemma_value_trees_later(
    iv: Seq<InstrView>,
    longer: Seq<InstrView>,
    parts: Seq<usize>,
    limit: nat,
    later: nat,
)
    requires
        program_extends(iv, longer),
        limit <= iv.len(),
        limit <= later,
        forall|k: int| 0 <= k < parts.len() ==> #[trigger] parts[k] < limit,
    ensures
        value_trees(longer, parts, later) == value_trees(iv, parts, limit),
{
    lemma_value_trees_index(iv, parts, limit);
    assert forall|k: int| 0 <= k < parts.len() implies #[trigger] parts[k] < later by {
        assert(parts[k] < limit);
    }
    lemma_value_trees_index(longer, parts, later);
    assert forall|k: int| 0 <= k < parts.len() implies value_trees(longer, parts, later)[k] == value_trees(
        iv,
        parts,
        limit,
    )[k] by {
        assert(parts[k] < limit);
        lemma_value_tree_extends(iv, longer, parts[k] as nat);
    }
    assert(value_trees(longer, parts, later) =~= value_trees(iv, parts, limit));
}

} // verus!
