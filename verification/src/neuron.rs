//! One neuron of the composition layer: a weighted sum of its inputs plus
//! a bias, optionally squashed through tanh, all built as graph nodes so
//! the whole thing can be differentiated.

use vstd::prelude::*;

use crate::scalar::{add_bits, mul_bits, tanh_bits, F64_ZERO_BITS};
use crate::value::{extends, leaf_node_at, set_grad, Tape, NodeV, Value};

verus! {

/// A neuron: one weight handle per input, a bias handle, and whether the
/// output is squashed through tanh.
pub struct Neuron {
    pub weights: Vec<Value>,
    pub bias: Value,
    pub activation: bool,
}

/// All handles of the neuron point into the first `glen` nodes of a graph.
pub open spec fn neuron_ids_ok(n: Neuron, glen: nat) -> bool {
    &&& n.bias.id < glen
    &&& forall|k: int| 0 <= k < n.weights@.len() ==> (#[trigger] n.weights@[k]).id < glen
}

/// The forward values (bit patterns) of the nodes named by `vs`.
pub open spec fn datas(g: Seq<NodeV>, vs: Seq<Value>) -> Seq<u64> {
    vs.map_values(|v: Value| g[v.id as int].data)
}

/// The running weighted sum over the first `k` pairs, starting from 0.0:
/// each step adds one product `w * x` into the accumulator.
pub open spec fn wsum_bits(wd: Seq<u64>, xd: Seq<u64>, k: int) -> u64
    decreases k,
{
    if k <= 0 {
        F64_ZERO_BITS
    } else {
        add_bits(wsum_bits(wd, xd, k - 1), mul_bits(wd[k - 1], xd[k - 1]))
    }
}

/// The neuron's output value: the weighted sum of the inputs plus the
/// bias, squashed through tanh when the activation flag is set.
pub open spec fn neuron_eval(wd: Seq<u64>, xd: Seq<u64>, bd: u64, act: bool) -> u64 {
    let z = add_bits(wsum_bits(wd, xd, wd.len() as int), bd);
    if act {
        tanh_bits(z)
    } else {
        z
    }
}

/// Node values named from the old graph survive an extension.
pub proof fn lemma_datas_stable(g0: Seq<NodeV>, g1: Seq<NodeV>, vs: Seq<Value>)
    requires
        extends(g0, g1),
        forall|k: int| 0 <= k < vs.len() ==> (#[trigger] vs[k]).id < g0.len(),
    ensures
        datas(g1, vs) == datas(g0, vs),
{
    assert(datas(g1, vs) =~= datas(g0, vs));
}

impl Neuron {
    /// A neuron over `weight_bits.len()` inputs whose weights and bias are
    /// fresh leaves holding the given values. Weight initialization is the
    /// caller's affair: random draws, when wanted, are made outside and
    /// handed in as ordinary scalars.
    pub fn new(g: &mut Tape, weight_bits: &Vec<u64>, bias_bits: u64, activation: bool) -> (n:
        Neuron)
        requires
            old(g).wf(),
        ensures
            final(g).wf(),
            extends(old(g)@, final(g)@),
            neuron_ids_ok(n, final(g)@.len()),
            n.activation == activation,
            n.weights@.len() == weight_bits@.len(),
            forall|k: int|
                0 <= k < n.weights@.len() ==> leaf_node_at(
                    final(g)@,
                    (#[trigger] n.weights@[k]).id as int,
                    weight_bits@[k],
                ),
            leaf_node_at(final(g)@, n.bias.id as int, bias_bits),
    {
        let mut weights: Vec<Value> = Vec::new();
        let mut i: usize = 0;
        while i < weight_bits.len()
            invariant
                g.wf(),
                extends(old(g)@, g@),
                i <= weight_bits@.len(),
                weights@.len() == i,
                forall|k: int| 0 <= k < i ==> (#[trigger] weights@[k]).id < g@.len(),
                forall|k: int|
                    0 <= k < i ==> leaf_node_at(
                        g@,
                        (#[trigger] weights@[k]).id as int,
                        weight_bits@[k],
                    ),
            decreases weight_bits@.len() - i,
        {
            let ghost gpre = g@;
            let w = Value::new(g, weight_bits[i]);
            weights.push(w);
            proof {
                assert forall|k: int| 0 <= k < i + 1 implies leaf_node_at(
                    g@,
                    (#[trigger] weights@[k]).id as int,
                    weight_bits@[k],
                ) by {
                    if k < i {
                        assert(leaf_node_at(gpre, weights@[k].id as int, weight_bits@[k]));
                        assert(g@[weights@[k].id as int] == gpre[weights@[k].id as int]);
                    }
                }
            }
            i = i + 1;
        }
        let ghost gpre = g@;
        let bias = Value::new(g, bias_bits);
        proof {
            assert forall|k: int| 0 <= k < weights@.len() implies leaf_node_at(
                g@,
                (#[trigger] weights@[k]).id as int,
                weight_bits@[k],
            ) by {
                assert(leaf_node_at(gpre, weights@[k].id as int, weight_bits@[k]));
                assert(g@[weights@[k].id as int] == gpre[weights@[k].id as int]);
            }
        }
        Neuron { weights, bias, activation }
    }

    /// Every parameter handle of this neuron: the weights, then the bias.
    pub fn parameters(&self) -> (r: Vec<Value>)
        ensures
            r@ == self.weights@ + seq![self.bias],
    {
        let mut r: Vec<Value> = Vec::new();
        let mut i: usize = 0;
        while i < self.weights.len()
            invariant
                i <= self.weights@.len(),
                r@ == self.weights@.subrange(0, i as int),
            decreases self.weights@.len() - i,
        {
            r.push(self.weights[i]);
            i = i + 1;
        }
        r.push(self.bias);
        proof {
            assert(r@ =~= self.weights@ + seq![self.bias]);
        }
        r
    }

    /// Build this neuron's output node over the inputs `x`: products
    /// `w[k] * x[k]` summed left to right from a fresh zero leaf, plus the
    /// bias, then tanh when the activation flag is set. Only new nodes are
    /// added; every node already present is left untouched.
    pub fn forward(&self, g: &mut Tape, x: &Vec<Value>) -> (out: Value)
        requires
            old(g).wf(),
            neuron_ids_ok(*self, old(g)@.len()),
            x@.len() == self.weights@.len(),
            forall|k: int| 0 <= k < x@.len() ==> (#[trigger] x@[k]).id < old(g)@.len(),
        ensures
            final(g).wf(),
            extends(old(g)@, final(g)@),
            out.id < final(g)@.len(),
            final(g)@[out.id as int].data == neuron_eval(
                datas(old(g)@, self.weights@),
                datas(old(g)@, x@),
                old(g)@[self.bias.id as int].data,
                self.activation,
            ),
            final(g)@[out.id as int].grad == F64_ZERO_BITS,
            final(g)@[out.id as int].op == if self.activation {
                crate::value::Op::Tanh
            } else {
                crate::value::Op::Add
            },
    {
        let ghost g0 = g@;
        let ghost wd = datas(g0, self.weights@);
        let ghost xd = datas(g0, x@);
        let mut s = Value::new(g, F64_ZERO_BITS);
        let mut i: usize = 0;
        while i < self.weights.len()
            invariant
                g.wf(),
                extends(g0, g@),
                i <= self.weights@.len(),
                neuron_ids_ok(*self, g0.len()),
                x@.len() == self.weights@.len(),
                forall|k: int| 0 <= k < x@.len() ==> (#[trigger] x@[k]).id < g0.len(),
                wd == datas(g0, self.weights@),
                xd == datas(g0, x@),
                s.id < g@.len(),
                g@[s.id as int].data == wsum_bits(wd, xd, i as int),
            decreases self.weights@.len() - i,
        {
            let ghost gpre = g@;
            let p = self.weights[i].mul(g, x[i]);
            proof {
                assert(g@[p.id as int].data == crate::scalar::mul_bits(
                    gpre[self.weights@[i as int].id as int].data,
                    gpre[x@[i as int].id as int].data,
                ));
                assert(gpre[self.weights@[i as int].id as int] == g0[self.weights@[
                    i as int].id as int]);
                assert(gpre[x@[i as int].id as int] == g0[x@[i as int].id as int]);
                assert(g@[p.id as int].data == mul_bits(wd[i as int], xd[i as int]));
            }
            let ghost gmid = g@;
            let s2 = s.add(g, p);
            proof {
                assert(gmid[s.id as int] == gpre[s.id as int]);
                assert(g@[s2.id as int].data == add_bits(
                    wsum_bits(wd, xd, i as int),
                    mul_bits(wd[i as int], xd[i as int]),
                ));
            }
            s = s2;
            i = i + 1;
        }
        let ghost gpre = g@;
        let z = s.add(g, self.bias);
        proof {
            assert(gpre[self.bias.id as int] == g0[self.bias.id as int]);
            assert(g@[z.id as int].data == add_bits(
                wsum_bits(wd, xd, self.weights@.len() as int),
                g0[self.bias.id as int].data,
            ));
        }
        if self.activation {
            let ghost gpre2 = g@;
            let a = z.tanh(g);
            proof {
                assert(g@[a.id as int].data == tanh_bits(gpre2[z.id as int].data));
            }
            a
        } else {
            z
        }
    }

    /// `j` names a parameter node of this neuron.
    pub open spec fn is_param(&self, j: int) -> bool {
        ||| j == self.bias.id
        ||| exists|k: int| 0 <= k < self.weights@.len() && (#[trigger] self.weights@[k]).id == j
    }

    /// Reset the gradient accumulator of every parameter of this neuron;
    /// nothing else changes.
    pub fn zero_grad(&self, g: &mut Tape)
        requires
            old(g).wf(),
            neuron_ids_ok(*self, old(g)@.len()),
        ensures
            final(g).wf(),
            final(g)@.len() == old(g)@.len(),
            forall|j: int|
                0 <= j < old(g)@.len() ==> (#[trigger] final(g)@[j]) == if self.is_param(j) {
                    crate::value::with_grad(old(g)@[j], F64_ZERO_BITS)
                } else {
                    old(g)@[j]
                },
    {
        let mut i: usize = 0;
        while i < self.weights.len()
            invariant
                g.wf(),
                neuron_ids_ok(*self, old(g)@.len()),
                g@.len() == old(g)@.len(),
                i <= self.weights@.len(),
                forall|j: int|
                    0 <= j < old(g)@.len() ==> (#[trigger] g@[j]) == if exists|k: int|
                        0 <= k < i && (#[trigger] self.weights@[k]).id == j {
                        crate::value::with_grad(old(g)@[j], F64_ZERO_BITS)
                    } else {
                        old(g)@[j]
                    },
            decreases self.weights@.len() - i,
        {
            let ghost gpre = g@;
            let w = self.weights[i];
            w.zero_grad(g);
            proof {
                assert(g@ == set_grad(gpre, w.id as int, F64_ZERO_BITS));
                assert forall|j: int| 0 <= j < old(g)@.len() implies (#[trigger] g@[j]) == if exists|
                    k: int,
                |
                    0 <= k < i + 1 && (#[trigger] self.weights@[k]).id == j {
                    crate::value::with_grad(old(g)@[j], F64_ZERO_BITS)
                } else {
                    old(g)@[j]
                } by {
                    if j == w.id {
                        assert(0 <= (i as int) < i + 1 && self.weights@[i as int].id == j);
                    }
                }
            }
            i = i + 1;
        }
        let ghost gpre = g@;
        self.bias.zero_grad(g);
        proof {
            assert(g@ == set_grad(gpre, self.bias.id as int, F64_ZERO_BITS));
            assert forall|j: int| 0 <= j < old(g)@.len() implies (#[trigger] g@[j]) == if
                self.is_param(j) {
                crate::value::with_grad(old(g)@[j], F64_ZERO_BITS)
            } else {
                old(g)@[j]
            } by {
                if j == self.bias.id {
                } else if self.is_param(j) {
                    let k = choose|k: int|
                        0 <= k < self.weights@.len() && (#[trigger] self.weights@[k]).id == j;
                    assert(0 <= k < self.weights@.len() && self.weights@[k].id == j);
                }
            }
        }
    }
}

} // verus!
