//! The computation-graph arena and the scalar-node handles.
//!
//! A [`Tape`] owns every node of a computation; a [`Value`] is a copyable
//! handle naming one node by its arena index. An operator call appends a
//! brand-new node whose operands are pre-existing nodes, so operand indices
//! are always strictly smaller than the index of the node that consumes
//! them: the operand relation is acyclic by construction.

use vstd::prelude::*;

use crate::scalar::{
    add_bits, add_bits_exec, mul_bits, mul_bits_exec, sub_bits, sub_bits_exec, tanh_bits,
    tanh_bits_exec, F64_ZERO_BITS,
};

verus! {

/// The operation that produced a node; `Leaf` marks a user-created scalar.
#[derive(Clone, Copy, Debug, PartialEq, Eq, Structural)]
pub enum Op {
    Leaf,
    Add,
    Sub,
    Mul,
    Tanh,
}

/// One node record of the arena: the forward value and the accumulated
/// gradient (both IEEE-754 double bit patterns), the producing operation,
/// the operand indices, the aliasing flag (a binary operation whose two
/// operands were the very same node stores that operand once), a cosmetic
/// label and a cosmetic random identifier.
pub struct InternalValue {
    pub data: u64,
    pub grad: u64,
    pub op: Op,
    pub prev: Vec<usize>,
    pub alias: bool,
    pub label: String,
    pub uuid: u128,
}

/// The mathematical image of one node record.
pub ghost struct NodeV {
    pub data: u64,
    pub grad: u64,
    pub op: Op,
    pub prev: Seq<usize>,
    pub alias: bool,
    pub label: Seq<char>,
    pub uuid: u128,
}

impl View for InternalValue {
    type V = NodeV;

    open spec fn view(&self) -> NodeV {
        NodeV {
            data: self.data,
            grad: self.grad,
            op: self.op,
            prev: self.prev@,
            alias: self.alias,
            label: self.label@,
            uuid: self.uuid,
        }
    }
}

/// The arena holding every node of one computation graph.
pub struct Tape {
    pub nodes: Vec<InternalValue>,
}

/// The mathematical image of a node sequence.
pub open spec fn nodes_view(ns: Seq<InternalValue>) -> Seq<NodeV> {
    ns.map_values(|n: InternalValue| n@)
}

impl View for Tape {
    type V = Seq<NodeV>;

    open spec fn view(&self) -> Seq<NodeV> {
        nodes_view(self.nodes@)
    }
}

/// The operand list of node `i` fits its operation: a leaf has none, tanh
/// has one, a binary operation has two distinct operands, or one operand
/// with the aliasing flag set; and every operand index is strictly smaller
/// than `i`.
pub open spec fn node_wf(g: Seq<NodeV>, i: int) -> bool {
    &&& match g[i].op {
        Op::Leaf => g[i].prev.len() == 0 && !g[i].alias,
        Op::Tanh => g[i].prev.len() == 1 && !g[i].alias,
        Op::Add | Op::Sub | Op::Mul => if g[i].alias {
            g[i].prev.len() == 1
        } else {
            g[i].prev.len() == 2 && g[i].prev[0] != g[i].prev[1]
        },
    }
    &&& forall|k: int| 0 <= k < g[i].prev.len() ==> (#[trigger] g[i].prev[k]) < i
}

/// Every node of the graph is well formed; traversals terminate because
/// operand indices strictly decrease.
pub open spec fn graph_wf(g: Seq<NodeV>) -> bool {
    forall|i: int| 0 <= i < g.len() ==> #[trigger] node_wf(g, i)
}

/// The new graph keeps every old node and may append new ones.
pub open spec fn extends(old_g: Seq<NodeV>, new_g: Seq<NodeV>) -> bool {
    &&& new_g.len() >= old_g.len()
    &&& forall|j: int| 0 <= j < old_g.len() ==> new_g[j] == old_g[j]
}

/// The new graph is the old one with exactly one node appended.
pub open spec fn extended_by_one(old_g: Seq<NodeV>, new_g: Seq<NodeV>) -> bool {
    &&& new_g.len() == old_g.len() + 1
    &&& forall|j: int| 0 <= j < old_g.len() ==> new_g[j] == old_g[j]
}

/// Node `i` is a fresh leaf holding `data`.
pub open spec fn leaf_node_at(g: Seq<NodeV>, i: int, data: u64) -> bool {
    &&& g[i].data == data
    &&& g[i].grad == F64_ZERO_BITS
    &&& g[i].op is Leaf
    &&& g[i].prev.len() == 0
    &&& !g[i].alias
    &&& g[i].label.len() == 0
}

/// Node `i` is a fresh binary node `op` over operands `a` and `b` holding
/// `data`: the operand list stores `a` once when `a == b`, else `a` then `b`.
pub open spec fn binop_node_at(g: Seq<NodeV>, i: int, op: Op, a: usize, b: usize, data: u64) -> bool {
    &&& g[i].data == data
    &&& g[i].grad == F64_ZERO_BITS
    &&& g[i].op == op
    &&& g[i].alias == (a == b)
    &&& g[i].prev == if a == b { seq![a] } else { seq![a, b] }
    &&& g[i].label.len() == 0
}

/// Node `i` is a fresh tanh node over operand `a` holding `data`.
pub open spec fn tanh_node_at(g: Seq<NodeV>, i: int, a: usize, data: u64) -> bool {
    &&& g[i].data == data
    &&& g[i].grad == F64_ZERO_BITS
    &&& g[i].op is Tanh
    &&& g[i].prev == seq![a]
    &&& !g[i].alias
    &&& g[i].label.len() == 0
}

/// `n` with its gradient replaced by `x`.
pub open spec fn with_grad(n: NodeV, x: u64) -> NodeV {
    NodeV {
        data: n.data,
        grad: x,
        op: n.op,
        prev: n.prev,
        alias: n.alias,
        label: n.label,
        uuid: n.uuid,
    }
}

/// The graph with the gradient of node `i` replaced by `x`.
pub open spec fn set_grad(g: Seq<NodeV>, i: int, x: u64) -> Seq<NodeV> {
    g.update(i, with_grad(g[i], x))
}

/// The display symbol of an operation tag; empty for a leaf, which has none.
pub open spec fn op_sym(op: Op) -> Seq<char> {
    match op {
        Op::Leaf => Seq::empty(),
        Op::Add => "+"@,
        Op::Sub => "-"@,
        Op::Mul => "*"@,
        Op::Tanh => "tanh"@,
    }
}

/// The display symbol of an operation tag, `None` for a leaf.
pub fn op_string(op: Op) -> (r: Option<String>)
    ensures
        r is None <==> op is Leaf,
        r matches Some(s) ==> s@ == op_sym(op),
{
    match op {
        Op::Leaf => None,
        Op::Add => Some(String::from_str("+")),
        Op::Sub => Some(String::from_str("-")),
        Op::Mul => Some(String::from_str("*")),
        Op::Tanh => Some(String::from_str("tanh")),
    }
}

/// Relies on uuid::Uuid::new_v4 and Uuid::as_u128: a fresh random
/// version-4 UUID; only the fixed version and variant bits can be stated
/// of a random value.
#[verifier::external_body]
fn fresh_uuid() -> (r: u128)
    ensures
        (r >> 76) & 0xf == 4,
        (r >> 62) & 0x3 == 2,
{
    uuid::Uuid::new_v4().as_u128()
}

impl InternalValue {
    /// A fresh node record with the given fields and a new random identifier.
    pub fn new(data: u64, grad: u64, prev: Vec<usize>, alias: bool, label: String, op: Op) -> (n:
        InternalValue)
        ensures
            n@.data == data,
            n@.grad == grad,
            n@.op == op,
            n@.prev == prev@,
            n@.alias == alias,
            n@.label == label@,
    {
        InternalValue { data, grad, op, prev, alias, label, uuid: fresh_uuid() }
    }
}

impl Tape {
    /// The whole arena is well formed.
    pub open spec fn wf(&self) -> bool {
        graph_wf(self@)
    }

    /// An empty arena.
    pub fn new() -> (g: Tape)
        ensures
            g@.len() == 0,
            g.wf(),
    {
        Tape { nodes: Vec::new() }
    }
}

/// A copyable handle naming one node of a [`Tape`] by its arena index;
/// the index is the node's identity for traversal and deduplication.
#[derive(Clone, Copy, Debug, PartialEq, Eq, Structural)]
pub struct Value {
    pub id: usize,
}

/// A copy of the operand indices of a node.
pub(crate) fn copy_ids(v: &Vec<usize>) -> (r: Vec<usize>)
    ensures
        r@ == v@,
{
    let mut r: Vec<usize> = Vec::new();
    let mut i: usize = 0;
    while i < v.len()
        invariant
            i <= v.len(),
            r@ == v@.subrange(0, i as int),
        decreases v.len() - i,
    {
        r.push(v[i]);
        i = i + 1;
    }
    proof {
        assert(v@.subrange(0, v@.len() as int) =~= v@);
    }
    r
}

/// Replace the stored gradient of node `i` by `x`.
pub(crate) fn set_grad_exec(g: &mut Tape, i: usize, x: u64)
    requires
        i < old(g)@.len(),
    ensures
        final(g)@ == set_grad(old(g)@, i as int, x),
        old(g).wf() ==> final(g).wf(),
{
    proof {
        assert(g@.len() == g.nodes@.len());
    }
    let prev = copy_ids(&g.nodes[i].prev);
    let label = g.nodes[i].label.clone();
    let n = InternalValue {
        data: g.nodes[i].data,
        grad: x,
        op: g.nodes[i].op,
        prev,
        alias: g.nodes[i].alias,
        label,
        uuid: g.nodes[i].uuid,
    };
    g.nodes.set(i, n);
    proof {
        assert(g@ =~= set_grad(old(g)@, i as int, x));
        if old(g).wf() {
            lemma_set_grad_wf(old(g)@, i as int, x);
        }
    }
}

/// Replacing a gradient touches no operand list: well-formedness is kept.
pub proof fn lemma_set_grad_wf(g: Seq<NodeV>, i: int, x: u64)
    requires
        graph_wf(g),
        0 <= i < g.len(),
    ensures
        graph_wf(set_grad(g, i, x)),
{
    let g2 = set_grad(g, i, x);
    assert forall|j: int| 0 <= j < g2.len() implies node_wf(g2, j) by {
        assert(node_wf(g, j));
        assert(g2[j].op == g[j].op);
        assert(g2[j].prev == g[j].prev);
        assert(g2[j].alias == g[j].alias);
    }
}

impl Value {
    /// A new leaf node holding `data` (an IEEE-754 double bit pattern),
    /// with gradient zero and no operands.
    pub fn new(g: &mut Tape, data: u64) -> (v: Value)
        requires
            old(g).wf(),
        ensures
            final(g).wf(),
            extended_by_one(old(g)@, final(g)@),
            v.id == old(g)@.len(),
            leaf_node_at(final(g)@, v.id as int, data),
    {
        let n = InternalValue::new(data, F64_ZERO_BITS, Vec::new(), false, String::new(), Op::Leaf);
        let id = g.nodes.len();
        proof {
            assert(g@.len() == g.nodes@.len());
        }
        g.nodes.push(n);
        proof {
            assert(g@ =~= old(g)@.push(n@));
            assert forall|i: int| 0 <= i < g@.len() implies node_wf(g@, i) by {
                if i < old(g)@.len() {
                    assert(node_wf(old(g)@, i));
                    assert(g@[i] == old(g)@[i]);
                }
            }
        }
        Value { id }
    }

    /// Shared tail of the binary operators: append one node for `op` over
    /// the operands `self` and `rhs`, storing the operand once when the two
    /// handles name the same node.
    fn new_binop(self, g: &mut Tape, rhs: Value, op: Op, data: u64) -> (v: Value)
        requires
            old(g).wf(),
            self.id < old(g)@.len(),
            rhs.id < old(g)@.len(),
            op is Add || op is Sub || op is Mul,
        ensures
            final(g).wf(),
            extended_by_one(old(g)@, final(g)@),
            v.id == old(g)@.len(),
            binop_node_at(final(g)@, v.id as int, op, self.id, rhs.id, data),
    {
        let alias = self.id == rhs.id;
        let mut prev: Vec<usize> = Vec::new();
        prev.push(self.id);
        if !alias {
            prev.push(rhs.id);
        }
        let n = InternalValue::new(data, F64_ZERO_BITS, prev, alias, String::new(), op);
        let id = g.nodes.len();
        proof {
            assert(g@.len() == g.nodes@.len());
        }
        g.nodes.push(n);
        proof {
            assert(g@ =~= old(g)@.push(n@));
            if alias {
                assert(n@.prev =~= seq![self.id]);
            } else {
                assert(n@.prev =~= seq![self.id, rhs.id]);
            }
            assert forall|i: int| 0 <= i < g@.len() implies node_wf(g@, i) by {
                if i < old(g)@.len() {
                    assert(node_wf(old(g)@, i));
                    assert(g@[i] == old(g)@[i]);
                }
            }
        }
        Value { id }
    }

    /// A new node for the sum of `self` and `rhs`, evaluated eagerly.
    pub fn add(self, g: &mut Tape, rhs: Value) -> (v: Value)
        requires
            old(g).wf(),
            self.id < old(g)@.len(),
            rhs.id < old(g)@.len(),
        ensures
            final(g).wf(),
            extended_by_one(old(g)@, final(g)@),
            v.id == old(g)@.len(),
            binop_node_at(
                final(g)@,
                v.id as int,
                Op::Add,
                self.id,
                rhs.id,
                add_bits(old(g)@[self.id as int].data, old(g)@[rhs.id as int].data),
            ),
    {
        proof {
            assert(g@.len() == g.nodes@.len());
        }
        let data = add_bits_exec(g.nodes[self.id].data, g.nodes[rhs.id].data);
        self.new_binop(g, rhs, Op::Add, data)
    }

    /// A new node for the difference of `self` and `rhs`, evaluated eagerly.
    pub fn sub(self, g: &mut Tape, rhs: Value) -> (v: Value)
        requires
            old(g).wf(),
            self.id < old(g)@.len(),
            rhs.id < old(g)@.len(),
        ensures
            final(g).wf(),
            extended_by_one(old(g)@, final(g)@),
            v.id == old(g)@.len(),
            binop_node_at(
                final(g)@,
                v.id as int,
                Op::Sub,
                self.id,
                rhs.id,
                sub_bits(old(g)@[self.id as int].data, old(g)@[rhs.id as int].data),
            ),
    {
        proof {
            assert(g@.len() == g.nodes@.len());
        }
        let data = sub_bits_exec(g.nodes[self.id].data, g.nodes[rhs.id].data);
        self.new_binop(g, rhs, Op::Sub, data)
    }

    /// A new node for the product of `self` and `rhs`, evaluated eagerly.
    pub fn mul(self, g: &mut Tape, rhs: Value) -> (v: Value)
        requires
            old(g).wf(),
            self.id < old(g)@.len(),
            rhs.id < old(g)@.len(),
        ensures
            final(g).wf(),
            extended_by_one(old(g)@, final(g)@),
            v.id == old(g)@.len(),
            binop_node_at(
                final(g)@,
                v.id as int,
                Op::Mul,
                self.id,
                rhs.id,
                mul_bits(old(g)@[self.id as int].data, old(g)@[rhs.id as int].data),
            ),
    {
        proof {
            assert(g@.len() == g.nodes@.len());
        }
        let data = mul_bits_exec(g.nodes[self.id].data, g.nodes[rhs.id].data);
        self.new_binop(g, rhs, Op::Mul, data)
    }

    /// A new node for the hyperbolic tangent of `self`, evaluated eagerly.
    pub fn tanh(&self, g: &mut Tape) -> (v: Value)
        requires
            old(g).wf(),
            self.id < old(g)@.len(),
        ensures
            final(g).wf(),
            extended_by_one(old(g)@, final(g)@),
            v.id == old(g)@.len(),
            tanh_node_at(final(g)@, v.id as int, self.id, tanh_bits(old(g)@[self.id as int].data)),
    {
        proof {
            assert(g@.len() == g.nodes@.len());
        }
        let data = tanh_bits_exec(g.nodes[self.id].data);
        let mut prev: Vec<usize> = Vec::new();
        prev.push(self.id);
        let n = InternalValue::new(data, F64_ZERO_BITS, prev, false, String::new(), Op::Tanh);
        let id = g.nodes.len();
        proof {
            assert(g@.len() == g.nodes@.len());
        }
        g.nodes.push(n);
        proof {
            assert(g@ =~= old(g)@.push(n@));
            assert(n@.prev =~= seq![self.id]);
            assert forall|i: int| 0 <= i < g@.len() implies node_wf(g@, i) by {
                if i < old(g)@.len() {
                    assert(node_wf(old(g)@, i));
                    assert(g@[i] == old(g)@[i]);
                }
            }
        }
        Value { id }
    }

    /// Set this node's cosmetic label and hand the same handle back.
    pub fn with_label(self, g: &mut Tape, label: &str) -> (v: Value)
        requires
            self.id < old(g)@.len(),
        ensures
            v == self,
            final(g)@.len() == old(g)@.len(),
            forall|j: int| 0 <= j < old(g)@.len() && j != self.id ==> final(g)@[j] == old(g)@[j],
            final(g)@[self.id as int].label == label@,
            final(g)@[self.id as int].data == old(g)@[self.id as int].data,
            final(g)@[self.id as int].grad == old(g)@[self.id as int].grad,
            final(g)@[self.id as int].op == old(g)@[self.id as int].op,
            final(g)@[self.id as int].prev == old(g)@[self.id as int].prev,
            final(g)@[self.id as int].alias == old(g)@[self.id as int].alias,
            final(g)@[self.id as int].uuid == old(g)@[self.id as int].uuid,
            old(g).wf() ==> final(g).wf(),
    {
        proof {
            assert(g@.len() == g.nodes@.len());
        }
        let i = self.id;
        let prev = copy_ids(&g.nodes[i].prev);
        let n = InternalValue {
            data: g.nodes[i].data,
            grad: g.nodes[i].grad,
            op: g.nodes[i].op,
            prev,
            alias: g.nodes[i].alias,
            label: String::from_str(label),
            uuid: g.nodes[i].uuid,
        };
        g.nodes.set(i, n);
        proof {
            assert(g@ =~= old(g)@.update(i as int, n@));
            if old(g).wf() {
                assert forall|j: int| 0 <= j < g@.len() implies node_wf(g@, j) by {
                    assert(node_wf(old(g)@, j));
                    assert(g@[j].op == old(g)@[j].op);
                    assert(g@[j].prev == old(g)@[j].prev);
                    assert(g@[j].alias == old(g)@[j].alias);
                }
            }
        }
        self
    }

    /// Reset this node's accumulated gradient to zero.
    pub fn zero_grad(&self, g: &mut Tape)
        requires
            self.id < old(g)@.len(),
        ensures
            final(g)@ == set_grad(old(g)@, self.id as int, F64_ZERO_BITS),
            old(g).wf() ==> final(g).wf(),
    {
        set_grad_exec(g, self.id, F64_ZERO_BITS);
    }

    /// The forward value of this node, as an IEEE-754 double bit pattern.
    pub fn data(&self, g: &Tape) -> (r: u64)
        requires
            self.id < g@.len(),
        ensures
            r == g@[self.id as int].data,
    {
        proof {
            assert(g@.len() == g.nodes@.len());
        }
        g.nodes[self.id].data
    }

    /// The accumulated gradient of this node, as an IEEE-754 double bit pattern.
    pub fn grad(&self, g: &Tape) -> (r: u64)
        requires
            self.id < g@.len(),
        ensures
            r == g@[self.id as int].grad,
    {
        proof {
            assert(g@.len() == g.nodes@.len());
        }
        g.nodes[self.id].grad
    }

    /// The cosmetic identifier of this node.
    pub fn uuid(&self, g: &Tape) -> (r: u128)
        requires
            self.id < g@.len(),
        ensures
            r == g@[self.id as int].uuid,
    {
        proof {
            assert(g@.len() == g.nodes@.len());
        }
        g.nodes[self.id].uuid
    }

    /// The display symbol of the operation that produced this node,
    /// `None` for a leaf.
    pub fn op(&self, g: &Tape) -> (r: Option<String>)
        requires
            self.id < g@.len(),
        ensures
            r is None <==> g@[self.id as int].op is Leaf,
            r matches Some(s) ==> s@ == op_sym(g@[self.id as int].op),
    {
        proof {
            assert(g@.len() == g.nodes@.len());
        }
        op_string(g.nodes[self.id].op)
    }

    /// The cosmetic label of this node; empty when none was set.
    pub fn label(&self, g: &Tape) -> (r: String)
        requires
            self.id < g@.len(),
        ensures
            r@ == g@[self.id as int].label,
    {
        proof {
            assert(g@.len() == g.nodes@.len());
        }
        g.nodes[self.id].label.clone()
    }
}

} // verus!
