//! A multi-layer perceptron: a chain of dense layers, each feeding the
//! next, plus a summary of its shape.

use vstd::prelude::*;

use crate::layer::{
    layer_arity, layer_eval, layer_ids_ok, layer_is_param, lemma_layer_eval_stable, Layer,
};
use crate::neuron::{datas, neuron_ids_ok};
use crate::value::{extends, leaf_node_at, with_grad, Tape, NodeV, Value};

verus! {

/// A chain of dense layers.
pub struct Mlp {
    pub layers: Vec<Layer>,
}

/// The shape summary of a network.
pub struct MlpStat {
    pub num_layers: usize,
    pub num_neurons: usize,
    pub num_weights: usize,
    pub num_biases: usize,
    pub num_parameters: usize,
}

/// All handles of every layer point into the first `glen` nodes.
pub open spec fn mlp_ids_ok(ls: Seq<Layer>, glen: nat) -> bool {
    forall|i: int| 0 <= i < ls.len() ==> layer_ids_ok(#[trigger] ls[i], glen)
}

/// Each layer's input arity matches what the previous layer produces,
/// starting from `n0` network inputs.
pub open spec fn mlp_dims_ok(ls: Seq<Layer>, n0: nat) -> bool
    decreases ls.len(),
{
    if ls.len() == 0 {
        true
    } else {
        layer_arity(ls[0], n0) && mlp_dims_ok(ls.drop_first(), ls[0].neurons@.len())
    }
}

/// The network's output values on inputs with values `xd`: each layer's
/// outputs feed the next layer.
pub open spec fn mlp_eval(g: Seq<NodeV>, ls: Seq<Layer>, xd: Seq<u64>) -> Seq<u64>
    decreases ls.len(),
{
    if ls.len() == 0 {
        xd
    } else {
        mlp_eval(g, ls.drop_first(), layer_eval(g, ls[0].neurons@, xd))
    }
}

/// `j` names a parameter node of some layer.
pub open spec fn mlp_is_param(ls: Seq<Layer>, j: int) -> bool {
    exists|i: int| 0 <= i < ls.len() && layer_is_param((#[trigger] ls[i]).neurons@, j)
}

/// The number of neurons across the layers.
pub open spec fn count_neurons(ls: Seq<Layer>) -> int
    decreases ls.len(),
{
    if ls.len() == 0 {
        0
    } else {
        ls[0].neurons@.len() + count_neurons(ls.drop_first())
    }
}

/// The number of weights across a row of neurons.
pub open spec fn count_weights_row(ns: Seq<crate::neuron::Neuron>) -> int
    decreases ns.len(),
{
    if ns.len() == 0 {
        0
    } else {
        ns[0].weights@.len() + count_weights_row(ns.drop_first())
    }
}

/// The number of weights across the layers.
pub open spec fn count_weights(ls: Seq<Layer>) -> int
    decreases ls.len(),
{
    if ls.len() == 0 {
        0
    } else {
        count_weights_row(ls[0].neurons@) + count_weights(ls.drop_first())
    }
}

/// Neuron counts never go negative.
pub proof fn lemma_count_neurons_nonneg(ls: Seq<Layer>)
    ensures
        count_neurons(ls) >= 0,
    decreases ls.len(),
{
    if ls.len() > 0 {
        lemma_count_neurons_nonneg(ls.drop_first());
    }
}

/// Weight counts never go negative.
pub proof fn lemma_count_weights_row_nonneg(ns: Seq<crate::neuron::Neuron>)
    ensures
        count_weights_row(ns) >= 0,
    decreases ns.len(),
{
    if ns.len() > 0 {
        lemma_count_weights_row_nonneg(ns.drop_first());
    }
}

/// Weight counts never go negative.
pub proof fn lemma_count_weights_nonneg(ls: Seq<Layer>)
    ensures
        count_weights(ls) >= 0,
    decreases ls.len(),
{
    if ls.len() > 0 {
        lemma_count_weights_row_nonneg(ls[0].neurons@);
        lemma_count_weights_nonneg(ls.drop_first());
    }
}

/// The input arity of layer `i` in a chain that starts from `nin` inputs.
pub open spec fn in_dim(nin: usize, nouts: Seq<usize>, i: int) -> usize {
    if i == 0 {
        nin
    } else {
        nouts[i - 1]
    }
}

impl Mlp {
    /// A network with `nouts[i]` neurons in layer `i`, reading `nin`
    /// network inputs; `init[i][k]` holds the weight values and then the
    /// bias value of neuron `k` of layer `i`. Every layer but the last is
    /// activated; the last follows `activation_last_layer`.
    pub fn new(
        g: &mut Tape,
        nin: usize,
        nouts: Vec<usize>,
        activation_last_layer: bool,
        init: &Vec<Vec<Vec<u64>>>,
    ) -> (m: Mlp)
        requires
            old(g).wf(),
            nouts@.len() > 0,
            nin < usize::MAX,
            forall|i: int| 0 <= i < nouts@.len() ==> (#[trigger] nouts@[i]) < usize::MAX,
            init@.len() == nouts@.len(),
            forall|i: int| 0 <= i < nouts@.len() ==> (#[trigger] init@[i])@.len() == nouts@[i],
            forall|i: int, k: int|
                0 <= i < nouts@.len() && 0 <= k < nouts@[i] ==> (#[trigger] init@[i]@[k])@.len()
                    == in_dim(nin, nouts@, i) + 1,
        ensures
            final(g).wf(),
            extends(old(g)@, final(g)@),
            m.layers@.len() == nouts@.len(),
            mlp_ids_ok(m.layers@, final(g)@.len()),
            mlp_dims_ok(m.layers@, nin as nat),
            forall|i: int|
                0 <= i < nouts@.len() ==> (#[trigger] m.layers@[i]).neurons@.len() == nouts@[i],
            forall|i: int, k: int|
                0 <= i < nouts@.len() && 0 <= k < nouts@[i] ==> (#[trigger] m.layers@[i].neurons@[k]).activation
                    == (activation_last_layer || i != nouts@.len() - 1),
            forall|i: int, k: int, j: int|
                0 <= i < nouts@.len() && 0 <= k < nouts@[i] && 0 <= j < in_dim(nin, nouts@, i)
                    ==> leaf_node_at(
                    final(g)@,
                    (#[trigger] m.layers@[i].neurons@[k].weights@[j]).id as int,
                    init@[i]@[k]@[j],
                ),
            forall|i: int, k: int|
                0 <= i < nouts@.len() && 0 <= k < nouts@[i] ==> leaf_node_at(
                    final(g)@,
                    (#[trigger] m.layers@[i].neurons@[k]).bias.id as int,
                    init@[i]@[k]@[in_dim(nin, nouts@, i) as int],
                ),
    {
        let mut layers: Vec<Layer> = Vec::new();
        let mut i: usize = 0;
        while i < nouts.len()
            invariant
                g.wf(),
                extends(old(g)@, g@),
                nin < usize::MAX,
                forall|ii: int| 0 <= ii < nouts@.len() ==> (#[trigger] nouts@[ii]) < usize::MAX,
                init@.len() == nouts@.len(),
                forall|ii: int| 0 <= ii < nouts@.len() ==> (#[trigger] init@[ii])@.len() == nouts@[ii],
                forall|ii: int, k: int|
                    0 <= ii < nouts@.len() && 0 <= k < nouts@[ii] ==> (#[trigger] init@[ii]@[k])@.len()
                        == in_dim(nin, nouts@, ii) + 1,
                i <= nouts@.len(),
                layers@.len() == i,
                forall|ii: int| 0 <= ii < i ==> layer_ids_ok(#[trigger] layers@[ii], g@.len()),
                forall|ii: int|
                    0 <= ii < i ==> (#[trigger] layers@[ii]).neurons@.len() == nouts@[ii],
                forall|ii: int|
                    0 <= ii < i ==> layer_arity(#[trigger] layers@[ii], in_dim(nin, nouts@, ii) as nat),
                forall|ii: int, k: int|
                    0 <= ii < i && 0 <= k < nouts@[ii] ==> (#[trigger] layers@[ii].neurons@[k]).activation
                        == (activation_last_layer || ii != nouts@.len() - 1),
                forall|ii: int, k: int, j: int|
                    0 <= ii < i && 0 <= k < nouts@[ii] && 0 <= j < in_dim(nin, nouts@, ii)
                        ==> leaf_node_at(
                        g@,
                        (#[trigger] layers@[ii].neurons@[k].weights@[j]).id as int,
                        init@[ii]@[k]@[j],
                    ),
                forall|ii: int, k: int|
                    0 <= ii < i && 0 <= k < nouts@[ii] ==> leaf_node_at(
                        g@,
                        (#[trigger] layers@[ii].neurons@[k]).bias.id as int,
                        init@[ii]@[k]@[in_dim(nin, nouts@, ii) as int],
                    ),
            decreases nouts@.len() - i,
        {
            let d_in = if i == 0 {
                nin
            } else {
                nouts[i - 1]
            };
            let act = activation_last_layer || i != nouts.len() - 1;
            let ghost gpre = g@;
            let l = Layer::new(g, d_in, nouts[i], act, &init[i]);
            layers.push(l);
            proof {
                assert(d_in == in_dim(nin, nouts@, i as int));
                assert forall|ii: int, k: int, j: int|
                    0 <= ii < i + 1 && 0 <= k < nouts@[ii] && 0 <= j < in_dim(nin, nouts@, ii)
                        implies leaf_node_at(
                    g@,
                    (#[trigger] layers@[ii].neurons@[k].weights@[j]).id as int,
                    init@[ii]@[k]@[j],
                ) by {
                    if ii < i {
                        assert(leaf_node_at(
                            gpre,
                            layers@[ii].neurons@[k].weights@[j].id as int,
                            init@[ii]@[k]@[j],
                        ));
                        assert(layer_ids_ok(layers@[ii], gpre.len()));
                        assert(neuron_ids_ok(layers@[ii].neurons@[k], gpre.len()));
                        assert(g@[layers@[ii].neurons@[k].weights@[j].id as int] == gpre[layers@[ii].neurons@[k].weights@[j].id as int]);
                    }
                }
                assert forall|ii: int, k: int|
                    0 <= ii < i + 1 && 0 <= k < nouts@[ii] implies leaf_node_at(
                    g@,
                    (#[trigger] layers@[ii].neurons@[k]).bias.id as int,
                    init@[ii]@[k]@[in_dim(nin, nouts@, ii) as int],
                ) by {
                    if ii < i {
                        assert(leaf_node_at(
                            gpre,
                            layers@[ii].neurons@[k].bias.id as int,
                            init@[ii]@[k]@[in_dim(nin, nouts@, ii) as int],
                        ));
                        assert(layer_ids_ok(layers@[ii], gpre.len()));
                        assert(neuron_ids_ok(layers@[ii].neurons@[k], gpre.len()));
                        assert(g@[layers@[ii].neurons@[k].bias.id as int] == gpre[layers@[ii].neurons@[k].bias.id as int]);
                    }
                }
                assert forall|ii: int| 0 <= ii < i + 1 implies layer_ids_ok(
                    #[trigger] layers@[ii],
                    g@.len(),
                ) by {
                    if ii < i {
                        assert(layer_ids_ok(layers@[ii], gpre.len()));
                        assert forall|k: int|
                            0 <= k < layers@[ii].neurons@.len() implies neuron_ids_ok(
                            #[trigger] layers@[ii].neurons@[k],
                            g@.len(),
                        ) by {
                            assert(neuron_ids_ok(layers@[ii].neurons@[k], gpre.len()));
                        }
                    }
                }
            }
            i = i + 1;
        }
        let m = Mlp { layers };
        proof {
            lemma_mlp_dims(m.layers@, nin, nouts@);
        }
        m
    }

    /// Run the network: each layer's output nodes feed the next layer;
    /// only new nodes are added.
    pub fn forward(&self, g: &mut Tape, x: Vec<Value>) -> (r: Vec<Value>)
        requires
            old(g).wf(),
            mlp_ids_ok(self.layers@, old(g)@.len()),
            mlp_dims_ok(self.layers@, x@.len()),
            forall|k: int| 0 <= k < x@.len() ==> (#[trigger] x@[k]).id < old(g)@.len(),
        ensures
            final(g).wf(),
            extends(old(g)@, final(g)@),
            forall|k: int| 0 <= k < r@.len() ==> (#[trigger] r@[k]).id < final(g)@.len(),
            datas(final(g)@, r@) == mlp_eval(old(g)@, self.layers@, datas(old(g)@, x@)),
    {
        let ghost g0 = g@;
        let ghost xd0 = datas(g0, x@);
        let mut cur = x;
        let mut i: usize = 0;
        proof {
            assert(self.layers@.skip(0) =~= self.layers@);
        }
        while i < self.layers.len()
            invariant
                g.wf(),
                extends(g0, g@),
                mlp_ids_ok(self.layers@, g0.len()),
                i <= self.layers@.len(),
                mlp_dims_ok(self.layers@.skip(i as int), cur@.len()),
                forall|k: int| 0 <= k < cur@.len() ==> (#[trigger] cur@[k]).id < g@.len(),
                mlp_eval(g0, self.layers@.skip(i as int), datas(g@, cur@)) == mlp_eval(
                    g0,
                    self.layers@,
                    xd0,
                ),
            decreases self.layers@.len() - i,
        {
            let ghost gpre = g@;
            let ghost sk = self.layers@.skip(i as int);
            proof {
                assert(sk.len() > 0);
                assert(sk[0] == self.layers@[i as int]);
                assert(layer_ids_ok(self.layers@[i as int], g0.len()));
                assert forall|k: int|
                    0 <= k < self.layers@[i as int].neurons@.len() implies neuron_ids_ok(
                    #[trigger] self.layers@[i as int].neurons@[k],
                    gpre.len(),
                ) by {
                    assert(neuron_ids_ok(self.layers@[i as int].neurons@[k], g0.len()));
                }
            }
            let next = self.layers[i].forward(g, &cur);
            proof {
                lemma_layer_eval_stable(
                    g0,
                    gpre,
                    self.layers@[i as int].neurons@,
                    datas(gpre, cur@),
                );
                assert(sk.drop_first() =~= self.layers@.skip(i as int + 1));
                assert(datas(g@, next@) == layer_eval(
                    g0,
                    self.layers@[i as int].neurons@,
                    datas(gpre, cur@),
                ));
            }
            cur = next;
            i = i + 1;
        }
        proof {
            assert(self.layers@.skip(self.layers@.len() as int) =~= Seq::<Layer>::empty());
        }
        cur
    }

    /// Reset the gradient accumulator of every parameter of the network;
    /// nothing else changes.
    pub fn zero_grad(&self, g: &mut Tape)
        requires
            old(g).wf(),
            mlp_ids_ok(self.layers@, old(g)@.len()),
        ensures
            final(g).wf(),
            final(g)@.len() == old(g)@.len(),
            forall|j: int|
                0 <= j < old(g)@.len() ==> (#[trigger] final(g)@[j]) == if mlp_is_param(
                    self.layers@,
                    j,
                ) {
                    with_grad(old(g)@[j], crate::scalar::F64_ZERO_BITS)
                } else {
                    old(g)@[j]
                },
    {
        let mut i: usize = 0;
        while i < self.layers.len()
            invariant
                g.wf(),
                mlp_ids_ok(self.layers@, old(g)@.len()),
                g@.len() == old(g)@.len(),
                i <= self.layers@.len(),
                forall|j: int|
                    0 <= j < old(g)@.len() ==> (#[trigger] g@[j]) == if exists|ii: int|
                        0 <= ii < i && layer_is_param((#[trigger] self.layers@[ii]).neurons@, j) {
                        with_grad(old(g)@[j], crate::scalar::F64_ZERO_BITS)
                    } else {
                        old(g)@[j]
                    },
            decreases self.layers@.len() - i,
        {
            let ghost gpre = g@;
            proof {
                assert(layer_ids_ok(self.layers@[i as int], old(g)@.len()));
            }
            self.layers[i].zero_grad(g);
            proof {
                assert forall|j: int| 0 <= j < old(g)@.len() implies (#[trigger] g@[j]) == if exists|
                    ii: int,
                |
                    0 <= ii < i + 1 && layer_is_param((#[trigger] self.layers@[ii]).neurons@, j) {
                    with_grad(old(g)@[j], crate::scalar::F64_ZERO_BITS)
                } else {
                    old(g)@[j]
                } by {
                    if layer_is_param(self.layers@[i as int].neurons@, j) {
                        assert(0 <= (i as int) < i + 1 && layer_is_param(
                            self.layers@[i as int].neurons@,
                            j,
                        ));
                    } else if exists|ii: int|
                        0 <= ii < i && layer_is_param((#[trigger] self.layers@[ii]).neurons@, j) {
                        let ii = choose|ii: int|
                            0 <= ii < i && layer_is_param((#[trigger] self.layers@[ii]).neurons@, j);
                        assert(0 <= ii < i + 1 && layer_is_param(self.layers@[ii].neurons@, j));
                    }
                }
            }
            i = i + 1;
        }
    }

    /// Count the network's layers, neurons, weights and biases.
    pub fn stat(&self) -> (r: MlpStat)
        requires
            count_neurons(self.layers@) + count_weights(self.layers@) <= usize::MAX,
        ensures
            r.num_layers == self.layers@.len(),
            r.num_neurons == count_neurons(self.layers@),
            r.num_weights == count_weights(self.layers@),
            r.num_biases == count_neurons(self.layers@),
            r.num_parameters == count_weights(self.layers@) + count_neurons(self.layers@),
    {
        let num_layers = self.layers.len();
        let mut num_neurons: usize = 0;
        let mut num_weights: usize = 0;
        let mut i: usize = 0;
        proof {
            assert(self.layers@.skip(0) =~= self.layers@);
        }
        while i < self.layers.len()
            invariant
                i <= self.layers@.len(),
                count_neurons(self.layers@) == num_neurons + count_neurons(
                    self.layers@.skip(i as int),
                ),
                count_weights(self.layers@) == num_weights + count_weights(
                    self.layers@.skip(i as int),
                ),
                count_neurons(self.layers@) + count_weights(self.layers@) <= usize::MAX,
            decreases self.layers@.len() - i,
        {
            let ghost sk = self.layers@.skip(i as int);
            proof {
                assert(sk.len() > 0);
                assert(sk[0] == self.layers@[i as int]);
                assert(sk.drop_first() =~= self.layers@.skip(i as int + 1));
                lemma_count_neurons_nonneg(self.layers@.skip(i as int + 1));
                lemma_count_weights_nonneg(self.layers@.skip(i as int + 1));
                lemma_count_weights_row_nonneg(self.layers@[i as int].neurons@);
                lemma_count_neurons_nonneg(self.layers@);
                lemma_count_weights_nonneg(self.layers@);
            }
            num_neurons = num_neurons + self.layers[i].len();
            let ns = &self.layers[i].neurons;
            let mut w: usize = 0;
            let mut k: usize = 0;
            proof {
                assert(ns@.skip(0) =~= ns@);
            }
            while k < ns.len()
                invariant
                    k <= ns@.len(),
                    count_weights_row(ns@) == w + count_weights_row(ns@.skip(k as int)),
                    w + count_weights_row(ns@.skip(k as int)) + num_weights + count_weights(
                        self.layers@.skip(i as int + 1),
                    ) <= usize::MAX,
                    num_weights + count_weights(self.layers@.skip(i as int)) == count_weights(
                        self.layers@,
                    ),
                    count_weights_row(ns@) + count_weights(self.layers@.skip(i as int + 1))
                        == count_weights(self.layers@.skip(i as int)),
                decreases ns@.len() - k,
            {
                let ghost skn = ns@.skip(k as int);
                proof {
                    assert(skn.len() > 0);
                    assert(skn[0] == ns@[k as int]);
                    assert(skn.drop_first() =~= ns@.skip(k as int + 1));
                    lemma_count_weights_row_nonneg(ns@.skip(k as int + 1));
                    lemma_count_weights_nonneg(self.layers@.skip(i as int + 1));
                }
                w = w + ns[k].weights.len();
                k = k + 1;
            }
            proof {
                assert(ns@.skip(ns@.len() as int) =~= Seq::<crate::neuron::Neuron>::empty());
            }
            num_weights = num_weights + w;
            i = i + 1;
        }
        proof {
            assert(self.layers@.skip(self.layers@.len() as int) =~= Seq::<Layer>::empty());
        }
        MlpStat {
            num_layers,
            num_neurons,
            num_weights,
            num_biases: num_neurons,
            num_parameters: num_weights + num_neurons,
        }
    }
}

/// The summed squared error over `k` pairs, accumulated left to right
/// from 0.0: each step adds `(target - prediction)^2`.
pub open spec fn sse_bits(pd: Seq<u64>, td: Seq<u64>, k: int) -> u64
    decreases k,
{
    if k <= 0 {
        crate::scalar::F64_ZERO_BITS
    } else {
        let d = crate::scalar::sub_bits(td[k - 1], pd[k - 1]);
        crate::scalar::add_bits(sse_bits(pd, td, k - 1), crate::scalar::mul_bits(d, d))
    }
}

/// Build the training-loss node: the sum over all pairs of the squared
/// difference `(target - prediction)^2`, each square an aliased product
/// of the difference with itself, summed from a fresh zero leaf. Only
/// new nodes are added.
pub fn sse_loss(g: &mut Tape, preds: &Vec<Value>, targets: &Vec<Value>) -> (out: Value)
    requires
        old(g).wf(),
        preds@.len() == targets@.len(),
        forall|k: int| 0 <= k < preds@.len() ==> (#[trigger] preds@[k]).id < old(g)@.len(),
        forall|k: int| 0 <= k < targets@.len() ==> (#[trigger] targets@[k]).id < old(g)@.len(),
    ensures
        final(g).wf(),
        extends(old(g)@, final(g)@),
        out.id < final(g)@.len(),
        final(g)@[out.id as int].data == sse_bits(
            crate::neuron::datas(old(g)@, preds@),
            crate::neuron::datas(old(g)@, targets@),
            preds@.len() as int,
        ),
{
    let ghost g0 = g@;
    let ghost pd = crate::neuron::datas(g0, preds@);
    let ghost td = crate::neuron::datas(g0, targets@);
    let mut s = Value::new(g, crate::scalar::F64_ZERO_BITS);
    let mut i: usize = 0;
    while i < preds.len()
        invariant
            g.wf(),
            extends(g0, g@),
            i <= preds@.len(),
            preds@.len() == targets@.len(),
            forall|k: int| 0 <= k < preds@.len() ==> (#[trigger] preds@[k]).id < g0.len(),
            forall|k: int| 0 <= k < targets@.len() ==> (#[trigger] targets@[k]).id < g0.len(),
            pd == crate::neuron::datas(g0, preds@),
            td == crate::neuron::datas(g0, targets@),
            s.id < g@.len(),
            g@[s.id as int].data == sse_bits(pd, td, i as int),
        decreases preds@.len() - i,
    {
        let ghost gpre = g@;
        let d = targets[i].sub(g, preds[i]);
        proof {
            assert(gpre[targets@[i as int].id as int] == g0[targets@[i as int].id as int]);
            assert(gpre[preds@[i as int].id as int] == g0[preds@[i as int].id as int]);
            assert(g@[d.id as int].data == crate::scalar::sub_bits(td[i as int], pd[i as int]));
        }
        let sq = d.mul(g, d);
        let ghost gmid = g@;
        let s2 = s.add(g, sq);
        proof {
            assert(gmid[s.id as int].data == sse_bits(pd, td, i as int));
            let dd = crate::scalar::sub_bits(td[i as int], pd[i as int]);
            assert(g@[s2.id as int].data == crate::scalar::add_bits(
                sse_bits(pd, td, i as int),
                crate::scalar::mul_bits(dd, dd),
            ));
        }
        s = s2;
        i = i + 1;
    }
    s
}

/// A chain built layer by layer with matching widths has matching arities.
proof fn lemma_mlp_dims(ls: Seq<Layer>, nin: usize, nouts: Seq<usize>)
    requires
        ls.len() == nouts.len(),
        forall|i: int| 0 <= i < ls.len() ==> (#[trigger] ls[i]).neurons@.len() == nouts[i],
        forall|i: int|
            0 <= i < ls.len() ==> layer_arity(#[trigger] ls[i], in_dim(nin, nouts, i) as nat),
    ensures
        mlp_dims_ok(ls, nin as nat),
{
    lemma_mlp_dims_from(ls, nin, nouts, 0);
    assert(ls.skip(0) =~= ls);
    assert(in_dim(nin, nouts, 0) == nin);
}

/// The suffix form of [`lemma_mlp_dims`], walking the chain from `i`.
proof fn lemma_mlp_dims_from(ls: Seq<Layer>, nin: usize, nouts: Seq<usize>, i: int)
    requires
        0 <= i <= ls.len(),
        ls.len() == nouts.len(),
        forall|ii: int| 0 <= ii < ls.len() ==> (#[trigger] ls[ii]).neurons@.len() == nouts[ii],
        forall|ii: int|
            0 <= ii < ls.len() ==> layer_arity(#[trigger] ls[ii], in_dim(nin, nouts, ii) as nat),
    ensures
        mlp_dims_ok(ls.skip(i), in_dim(nin, nouts, i) as nat),
    decreases ls.len() - i,
{
    if i == ls.len() {
        assert(ls.skip(i) =~= Seq::<Layer>::empty());
    } else {
        lemma_mlp_dims_from(ls, nin, nouts, i + 1);
        assert(ls.skip(i).len() > 0);
        assert(ls.skip(i)[0] == ls[i]);
        assert(ls.skip(i).drop_first() =~= ls.skip(i + 1));
        assert(in_dim(nin, nouts, i + 1) == nouts[i]);
    }
}

} // verus!
