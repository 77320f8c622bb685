//! One dense layer of the composition layer: a row of neurons sharing the
//! same inputs.

use vstd::prelude::*;

use crate::neuron::{datas, neuron_eval, neuron_ids_ok, Neuron};
use crate::value::{extends, leaf_node_at, with_grad, Tape, NodeV, Value};

verus! {

/// A dense layer: every neuron reads the same input vector.
pub struct Layer {
    pub neurons: Vec<Neuron>,
}

/// All handles of every neuron point into the first `glen` nodes.
pub open spec fn layer_ids_ok(l: Layer, glen: nat) -> bool {
    forall|k: int| 0 <= k < l.neurons@.len() ==> neuron_ids_ok(#[trigger] l.neurons@[k], glen)
}

/// Every neuron of the layer takes `nin` inputs.
pub open spec fn layer_arity(l: Layer, nin: nat) -> bool {
    forall|k: int| 0 <= k < l.neurons@.len() ==> (#[trigger] l.neurons@[k]).weights@.len() == nin
}

/// The parameter handles of a row of neurons: each neuron's weights then
/// its bias, neuron after neuron.
pub open spec fn layer_params(ns: Seq<Neuron>) -> Seq<Value>
    decreases ns.len(),
{
    if ns.len() == 0 {
        Seq::empty()
    } else {
        (ns[0].weights@ + seq![ns[0].bias]) + layer_params(ns.drop_first())
    }
}

/// The output values of a row of neurons on inputs with values `xd`.
pub open spec fn layer_eval(g: Seq<NodeV>, ns: Seq<Neuron>, xd: Seq<u64>) -> Seq<u64> {
    Seq::new(
        ns.len(),
        |k: int|
            neuron_eval(
                datas(g, ns[k].weights@),
                xd,
                g[ns[k].bias.id as int].data,
                ns[k].activation,
            ),
    )
}

/// A row's output values depend only on nodes already present: they
/// survive an extension of the graph.
pub proof fn lemma_layer_eval_stable(g0: Seq<NodeV>, g1: Seq<NodeV>, ns: Seq<Neuron>, xd: Seq<u64>)
    requires
        extends(g0, g1),
        forall|k: int| 0 <= k < ns.len() ==> neuron_ids_ok(#[trigger] ns[k], g0.len()),
    ensures
        layer_eval(g1, ns, xd) == layer_eval(g0, ns, xd),
{
    assert forall|k: int| 0 <= k < ns.len() implies layer_eval(g1, ns, xd)[k] == layer_eval(
        g0,
        ns,
        xd,
    )[k] by {
        crate::neuron::lemma_datas_stable(g0, g1, ns[k].weights@);
        assert(g1[ns[k].bias.id as int] == g0[ns[k].bias.id as int]);
    }
    assert(layer_eval(g1, ns, xd) =~= layer_eval(g0, ns, xd));
}

/// `j` names a parameter node of some neuron of the row.
pub open spec fn layer_is_param(ns: Seq<Neuron>, j: int) -> bool {
    exists|k: int| 0 <= k < ns.len() && (#[trigger] ns[k]).is_param(j)
}

impl Layer {
    /// A layer of `nout` neurons over `nin` inputs; `init[k]` holds the
    /// `nin` weight values and then the bias value of neuron `k`, all
    /// created as fresh leaves.
    pub fn new(g: &mut Tape, nin: usize, nout: usize, activation: bool, init: &Vec<Vec<u64>>) -> (
        l: Layer)
        requires
            old(g).wf(),
            nin < usize::MAX,
            init@.len() == nout,
            forall|k: int| 0 <= k < nout ==> (#[trigger] init@[k])@.len() == nin + 1,
        ensures
            final(g).wf(),
            extends(old(g)@, final(g)@),
            l.neurons@.len() == nout,
            layer_ids_ok(l, final(g)@.len()),
            layer_arity(l, nin as nat),
            forall|k: int| 0 <= k < nout ==> (#[trigger] l.neurons@[k]).activation == activation,
            forall|k: int, j: int|
                0 <= k < nout && 0 <= j < nin ==> leaf_node_at(
                    final(g)@,
                    (#[trigger] l.neurons@[k].weights@[j]).id as int,
                    init@[k]@[j],
                ),
            forall|k: int|
                0 <= k < nout ==> leaf_node_at(
                    final(g)@,
                    (#[trigger] l.neurons@[k]).bias.id as int,
                    init@[k]@[nin as int],
                ),
    {
        let mut neurons: Vec<Neuron> = Vec::new();
        let mut k: usize = 0;
        while k < nout
            invariant
                g.wf(),
                extends(old(g)@, g@),
                nin < usize::MAX,
                init@.len() == nout,
                forall|kk: int| 0 <= kk < nout ==> (#[trigger] init@[kk])@.len() == nin + 1,
                k <= nout,
                neurons@.len() == k,
                forall|kk: int|
                    0 <= kk < k ==> neuron_ids_ok(#[trigger] neurons@[kk], g@.len()),
                forall|kk: int|
                    0 <= kk < k ==> (#[trigger] neurons@[kk]).weights@.len() == nin,
                forall|kk: int| 0 <= kk < k ==> (#[trigger] neurons@[kk]).activation == activation,
                forall|kk: int, j: int|
                    0 <= kk < k && 0 <= j < nin ==> leaf_node_at(
                        g@,
                        (#[trigger] neurons@[kk].weights@[j]).id as int,
                        init@[kk]@[j],
                    ),
                forall|kk: int|
                    0 <= kk < k ==> leaf_node_at(
                        g@,
                        (#[trigger] neurons@[kk]).bias.id as int,
                        init@[kk]@[nin as int],
                    ),
            decreases nout - k,
        {
            let row = &init[k];
            let mut wbits: Vec<u64> = Vec::new();
            let mut j: usize = 0;
            while j < nin
                invariant
                    j <= nin,
                    nin + 1 == row@.len(),
                    wbits@.len() == j,
                    forall|jj: int| 0 <= jj < j ==> wbits@[jj] == row@[jj],
                decreases nin - j,
            {
                wbits.push(row[j]);
                j = j + 1;
            }
            let ghost gpre = g@;
            let n = Neuron::new(g, &wbits, row[nin], activation);
            neurons.push(n);
            proof {
                assert forall|kk: int, jj: int|
                    0 <= kk < k + 1 && 0 <= jj < nin implies leaf_node_at(
                    g@,
                    (#[trigger] neurons@[kk].weights@[jj]).id as int,
                    init@[kk]@[jj],
                ) by {
                    if kk < k {
                        assert(leaf_node_at(gpre, neurons@[kk].weights@[jj].id as int, init@[kk]@[jj]));
                        assert(g@[neurons@[kk].weights@[jj].id as int] == gpre[neurons@[kk].weights@[jj].id as int]);
                    } else {
                        assert(leaf_node_at(g@, n.weights@[jj].id as int, wbits@[jj]));
                    }
                }
                assert forall|kk: int| 0 <= kk < k + 1 implies leaf_node_at(
                    g@,
                    (#[trigger] neurons@[kk]).bias.id as int,
                    init@[kk]@[nin as int],
                ) by {
                    if kk < k {
                        assert(leaf_node_at(gpre, neurons@[kk].bias.id as int, init@[kk]@[nin as int]));
                        assert(g@[neurons@[kk].bias.id as int] == gpre[neurons@[kk].bias.id as int]);
                    }
                }
                assert forall|kk: int| 0 <= kk < k + 1 implies neuron_ids_ok(
                    #[trigger] neurons@[kk],
                    g@.len(),
                ) by {
                    if kk < k {
                        assert(neuron_ids_ok(neurons@[kk], gpre.len()));
                    }
                }
            }
            k = k + 1;
        }
        Layer { neurons }
    }

    /// Every parameter handle of the layer, neuron after neuron.
    pub fn parameters(&self) -> (r: Vec<Value>)
        ensures
            r@ == layer_params(self.neurons@),
    {
        let mut r: Vec<Value> = Vec::new();
        let mut i: usize = 0;
        proof {
            assert(self.neurons@.skip(0) =~= self.neurons@);
        }
        while i < self.neurons.len()
            invariant
                i <= self.neurons@.len(),
                layer_params(self.neurons@) == r@ + layer_params(self.neurons@.skip(i as int)),
            decreases self.neurons@.len() - i,
        {
            let mut p = self.neurons[i].parameters();
            proof {
                let sk = self.neurons@.skip(i as int);
                assert(sk.len() > 0);
                assert(sk[0] == self.neurons@[i as int]);
                assert(sk.drop_first() =~= self.neurons@.skip(i as int + 1));
                assert(layer_params(sk) == p@ + layer_params(self.neurons@.skip(i as int + 1)));
                assert(r@ + layer_params(sk) =~= (r@ + p@) + layer_params(
                    self.neurons@.skip(i as int + 1),
                ));
            }
            r.append(&mut p);
            i = i + 1;
        }
        proof {
            assert(self.neurons@.skip(self.neurons@.len() as int) =~= Seq::<Neuron>::empty());
            assert(r@ + layer_params(Seq::empty()) =~= r@);
        }
        r
    }

    /// Build every neuron's output node over the shared inputs `x`; only
    /// new nodes are added.
    pub fn forward(&self, g: &mut Tape, x: &Vec<Value>) -> (r: Vec<Value>)
        requires
            old(g).wf(),
            layer_ids_ok(*self, old(g)@.len()),
            layer_arity(*self, x@.len()),
            forall|k: int| 0 <= k < x@.len() ==> (#[trigger] x@[k]).id < old(g)@.len(),
        ensures
            final(g).wf(),
            extends(old(g)@, final(g)@),
            r@.len() == self.neurons@.len(),
            forall|k: int| 0 <= k < r@.len() ==> (#[trigger] r@[k]).id < final(g)@.len(),
            datas(final(g)@, r@) == layer_eval(old(g)@, self.neurons@, datas(old(g)@, x@)),
    {
        let ghost g0 = g@;
        let ghost xd = datas(g0, x@);
        let mut r: Vec<Value> = Vec::new();
        let mut i: usize = 0;
        while i < self.neurons.len()
            invariant
                g.wf(),
                extends(g0, g@),
                layer_ids_ok(*self, g0.len()),
                layer_arity(*self, x@.len()),
                forall|k: int| 0 <= k < x@.len() ==> (#[trigger] x@[k]).id < g0.len(),
                xd == datas(g0, x@),
                i <= self.neurons@.len(),
                r@.len() == i,
                forall|k: int| 0 <= k < i ==> (#[trigger] r@[k]).id < g@.len(),
                forall|k: int|
                    0 <= k < i ==> g@[(#[trigger] r@[k]).id as int].data == layer_eval(
                        g0,
                        self.neurons@,
                        xd,
                    )[k],
            decreases self.neurons@.len() - i,
        {
            let ghost gpre = g@;
            let n = &self.neurons[i];
            proof {
                assert(neuron_ids_ok(self.neurons@[i as int], g0.len()));
                assert(neuron_ids_ok(self.neurons@[i as int], gpre.len()));
            }
            let out = n.forward(g, x);
            proof {
                crate::neuron::lemma_datas_stable(g0, gpre, self.neurons@[i as int].weights@);
                crate::neuron::lemma_datas_stable(g0, gpre, x@);
                assert(gpre[self.neurons@[i as int].bias.id as int] == g0[self.neurons@[
                    i as int].bias.id as int]);
                assert(g@[out.id as int].data == layer_eval(g0, self.neurons@, xd)[i as int]);
                assert forall|k: int| 0 <= k < i implies g@[(#[trigger] r@[k]).id as int].data
                    == layer_eval(g0, self.neurons@, xd)[k] by {
                    assert(g@[r@[k].id as int] == gpre[r@[k].id as int]);
                }
            }
            r.push(out);
            i = i + 1;
        }
        proof {
            assert(datas(g@, r@) =~= layer_eval(g0, self.neurons@, xd));
        }
        r
    }

    /// Reset the gradient accumulator of every parameter of the layer;
    /// nothing else changes.
    pub fn zero_grad(&self, g: &mut Tape)
        requires
            old(g).wf(),
            layer_ids_ok(*self, old(g)@.len()),
        ensures
            final(g).wf(),
            final(g)@.len() == old(g)@.len(),
            forall|j: int|
                0 <= j < old(g)@.len() ==> (#[trigger] final(g)@[j]) == if layer_is_param(
                    self.neurons@,
                    j,
                ) {
                    with_grad(old(g)@[j], crate::scalar::F64_ZERO_BITS)
                } else {
                    old(g)@[j]
                },
    {
        let mut i: usize = 0;
        while i < self.neurons.len()
            invariant
                g.wf(),
                layer_ids_ok(*self, old(g)@.len()),
                g@.len() == old(g)@.len(),
                i <= self.neurons@.len(),
                forall|j: int|
                    0 <= j < old(g)@.len() ==> (#[trigger] g@[j]) == if exists|k: int|
                        0 <= k < i && (#[trigger] self.neurons@[k]).is_param(j) {
                        with_grad(old(g)@[j], crate::scalar::F64_ZERO_BITS)
                    } else {
                        old(g)@[j]
                    },
            decreases self.neurons@.len() - i,
        {
            let ghost gpre = g@;
            let n = &self.neurons[i];
            proof {
                assert(neuron_ids_ok(self.neurons@[i as int], old(g)@.len()));
            }
            n.zero_grad(g);
            proof {
                assert forall|j: int| 0 <= j < old(g)@.len() implies (#[trigger] g@[j]) == if exists|
                    k: int,
                |
                    0 <= k < i + 1 && (#[trigger] self.neurons@[k]).is_param(j) {
                    with_grad(old(g)@[j], crate::scalar::F64_ZERO_BITS)
                } else {
                    old(g)@[j]
                } by {
                    if self.neurons@[i as int].is_param(j) {
                        assert(0 <= (i as int) < i + 1 && self.neurons@[i as int].is_param(j));
                    } else if exists|k: int|
                        0 <= k < i && (#[trigger] self.neurons@[k]).is_param(j) {
                        let k = choose|k: int|
                            0 <= k < i && (#[trigger] self.neurons@[k]).is_param(j);
                        assert(0 <= k < i + 1 && self.neurons@[k].is_param(j));
                    }
                }
            }
            i = i + 1;
        }
    }

    /// The number of neurons in the layer.
    pub fn len(&self) -> (n: usize)
        ensures
            n == self.neurons@.len(),
    {
        self.neurons.len()
    }
}

} // verus!
