//! The network layer: neurons, layers and a multi-layer perceptron
//! composed from graph nodes, the engine's primary consumer.

use vstd::prelude::*;
use crate::arith::{add_bits, sub_bits, mul_bits, pos_bits, mul_val, sub_val, random_word, ZERO_BITS, ONE_BITS, TWO_BITS};
use crate::graph::{Graph, Node, Value, graph_ok, reaches, lemma_reaches_trans, lemma_reaches_extend};

verus! {

/// The rectified-linear function on a binary64 bit pattern.
pub open spec fn relu_bits(a: u64) -> u64 {
    if pos_bits(a) {
        a
    } else {
        ZERO_BITS
    }
}

/// The forward values of a sequence of node handles.
pub open spec fn datas(nodes: Seq<Node>, vs: Seq<Value>) -> Seq<u64> {
    vs.map(|i: int, v: Value| nodes[v.id as int].data)
}

/// The weighted sum `acc + w[k]*x[k] + w[k+1]*x[k+1] + ...`, associated
/// to the left, in binary64 arithmetic.
pub open spec fn fold_wx(wd: Seq<u64>, xd: Seq<u64>, acc: u64, k: int) -> u64
    decreases wd.len() - k,
{
    if k < 0 || k >= wd.len() {
        acc
    } else {
        fold_wx(wd, xd, add_bits(acc, mul_bits(wd[k], xd[k])), k + 1)
    }
}

/// One neuron: a fixed ordered sequence of weight leaves, one bias leaf,
/// and whether the rectified-linear activation is applied.
pub struct Neuron {
    pub weights: Vec<Value>,
    pub bias: Value,
    pub activation: bool,
}

/// An ordered sequence of neurons sharing the same input width.
pub struct Layer {
    pub neurons: Vec<Neuron>,
}

/// An ordered sequence of layers; every layer but the last applies the
/// rectified-linear activation, the last is linear.
pub struct MLP {
    pub layers: Vec<Layer>,
}

/// All of the neuron's parameter handles point into the graph.
pub open spec fn neuron_wf(nr: Neuron, glen: int) -> bool {
    nr.bias.id < glen && forall|k: int| 0 <= k < nr.weights@.len() ==> nr.weights@[k].id < glen
}

pub open spec fn layer_wf(lr: Layer, glen: int) -> bool {
    forall|k: int| 0 <= k < lr.neurons@.len() ==> neuron_wf(#[trigger] lr.neurons@[k], glen)
}

pub open spec fn mlp_wf(m: MLP, glen: int) -> bool {
    forall|k: int| 0 <= k < m.layers@.len() ==> layer_wf(#[trigger] m.layers@[k], glen)
}

/// Every neuron of the layer takes `w` inputs.
pub open spec fn layer_in_width_ok(lr: Layer, w: int) -> bool {
    forall|k: int| 0 <= k < lr.neurons@.len() ==> (#[trigger] lr.neurons@[k]).weights@.len() == w
}

/// Each layer's input width matches what the layer before it produces,
/// starting from `w0` network inputs.
pub open spec fn mlp_chain_ok(layers: Seq<Layer>, w0: int) -> bool
    decreases layers.len(),
{
    if layers.len() == 0 {
        true
    } else {
        layer_in_width_ok(layers[0], w0) && mlp_chain_ok(
            layers.drop_first(),
            layers[0].neurons@.len() as int,
        )
    }
}

/// The width a chain of layers hands to whatever follows it.
pub open spec fn chain_out(layers: Seq<Layer>, w0: int) -> int {
    if layers.len() == 0 {
        w0
    } else {
        layers.last().neurons@.len() as int
    }
}

/// The neuron's output value: the weighted sum of the inputs plus the
/// bias, passed through the rectified-linear function when the neuron
/// activates. Only the weight and bias values are read from `nodes`.
pub open spec fn neuron_eval(nodes: Seq<Node>, nr: Neuron, xd: Seq<u64>) -> u64 {
    let s = fold_wx(datas(nodes, nr.weights@), xd, nodes[nr.bias.id as int].data, 0);
    if nr.activation {
        relu_bits(s)
    } else {
        s
    }
}

/// One output value per neuron, every neuron over the same inputs.
pub open spec fn layer_eval(nodes: Seq<Node>, lr: Layer, xd: Seq<u64>) -> Seq<u64> {
    Seq::new(lr.neurons@.len(), |i: int| neuron_eval(nodes, lr.neurons@[i], xd))
}

/// The network's output values: each layer's outputs piped into the next.
pub open spec fn mlp_eval(nodes: Seq<Node>, layers: Seq<Layer>, xd: Seq<u64>) -> Seq<u64>
    decreases layers.len(),
{
    if layers.len() == 0 {
        xd
    } else {
        mlp_eval(nodes, layers.drop_first(), layer_eval(nodes, layers[0], xd))
    }
}

/// The neuron's parameters, weights first, bias last.
pub open spec fn neuron_params(nr: Neuron) -> Seq<Value> {
    nr.weights@.push(nr.bias)
}

pub open spec fn layer_params_from(ns: Seq<Neuron>) -> Seq<Value>
    decreases ns.len(),
{
    if ns.len() == 0 {
        Seq::empty()
    } else {
        neuron_params(ns[0]) + layer_params_from(ns.drop_first())
    }
}

/// Every weight and bias of the network, in a stable order: layer by
/// layer, neuron by neuron, weights before the bias.
pub open spec fn mlp_params_from(ls: Seq<Layer>) -> Seq<Value>
    decreases ls.len(),
{
    if ls.len() == 0 {
        Seq::empty()
    } else {
        layer_params_from(ls[0].neurons@) + mlp_params_from(ls.drop_first())
    }
}

/// The weight a drawn 64-bit word becomes: the word's low bits fill a
/// mantissa under a unit exponent, giving a value u in [1, 2), shifted
/// to (u - 1) * 2 - 1, which lies in [-1, 1).
pub open spec fn weight_of_word(r: u64) -> u64 {
    sub_bits(mul_bits(sub_bits(ONE_BITS | (r >> 12), ONE_BITS), TWO_BITS), ONE_BITS)
}

/// The bit pattern is some drawn word's weight transform.
pub open spec fn is_weight_bits(d: u64) -> bool {
    exists|r: u64| d == weight_of_word(r)
}

/// A pseudo-random weight: some drawn word's transform.
fn random_weight_bits() -> (res: u64)
    ensures
        is_weight_bits(res),
{
    let r = random_word();
    let u = ONE_BITS | (r >> 12);
    let frac = sub_val(u, ONE_BITS);
    let res = sub_val(mul_val(frac, TWO_BITS), ONE_BITS);
    proof {
        assert(res == weight_of_word(r));
        assert(is_weight_bits(res));
    }
    res
}

/// Splitting a parameter list at a freshly appended neuron.
proof fn lemma_layer_params_push(ns: Seq<Neuron>, nr: Neuron)
    ensures
        layer_params_from(ns.push(nr)) == layer_params_from(ns) + neuron_params(nr),
    decreases ns.len(),
{
    reveal_with_fuel(layer_params_from, 3);
    if ns.len() == 0 {
        assert(ns.push(nr)[0] == nr);
        assert(ns.push(nr).drop_first() =~= Seq::<Neuron>::empty());
        assert(layer_params_from(ns.push(nr)) =~= layer_params_from(ns) + neuron_params(nr));
    } else {
        lemma_layer_params_push(ns.drop_first(), nr);
        assert(ns.push(nr)[0] == ns[0]);
        assert(ns.push(nr).drop_first() =~= ns.drop_first().push(nr));
        assert(layer_params_from(ns.push(nr)) == neuron_params(ns[0]) + (layer_params_from(
            ns.drop_first(),
        ) + neuron_params(nr)));
        assert(neuron_params(ns[0]) + (layer_params_from(ns.drop_first()) + neuron_params(nr))
            =~= (neuron_params(ns[0]) + layer_params_from(ns.drop_first())) + neuron_params(nr));
    }
}

/// Splitting a parameter list at a freshly appended layer.
proof fn lemma_mlp_params_push(ls: Seq<Layer>, lr: Layer)
    ensures
        mlp_params_from(ls.push(lr)) == mlp_params_from(ls) + layer_params_from(lr.neurons@),
    decreases ls.len(),
{
    reveal_with_fuel(mlp_params_from, 3);
    if ls.len() == 0 {
        assert(ls.push(lr)[0] == lr);
        assert(ls.push(lr).drop_first() =~= Seq::<Layer>::empty());
        assert(mlp_params_from(ls.push(lr)) =~= mlp_params_from(ls) + layer_params_from(
            lr.neurons@,
        ));
    } else {
        lemma_mlp_params_push(ls.drop_first(), lr);
        assert(ls.push(lr)[0] == ls[0]);
        assert(ls.push(lr).drop_first() =~= ls.drop_first().push(lr));
        assert(mlp_params_from(ls.push(lr)) == layer_params_from(ls[0].neurons@) + (
        mlp_params_from(ls.drop_first()) + layer_params_from(lr.neurons@)));
        assert(layer_params_from(ls[0].neurons@) + (mlp_params_from(ls.drop_first())
            + layer_params_from(lr.neurons@)) =~= (layer_params_from(ls[0].neurons@)
            + mlp_params_from(ls.drop_first())) + layer_params_from(lr.neurons@));
    }
}

/// Every layer has at least one neuron.
pub open spec fn all_nonempty(ls: Seq<Layer>) -> bool {
    forall|l: int| 0 <= l < ls.len() ==> (#[trigger] ls[l]).neurons@.len() > 0
}

/// The node at `src` reaches every parameter node of the neuron.
pub open spec fn reaches_neuron_params(nodes: Seq<Node>, src: int, nr: Neuron) -> bool {
    reaches(nodes, src, nr.bias.id as int) && forall|t: int|
        0 <= t < nr.weights@.len() ==> reaches(nodes, src, (#[trigger] nr.weights@[t]).id as int)
}

/// Reaching a neuron's parameters survives growing the graph.
proof fn lemma_params_reach_extend(ns1: Seq<Node>, ns2: Seq<Node>, src: int, nr: Neuron)
    requires
        reaches_neuron_params(ns1, src, nr),
        ns1.len() <= ns2.len(),
        forall|k: int| 0 <= k < ns1.len() ==> ns2[k].op == ns1[k].op,
        src < ns1.len(),
    ensures
        reaches_neuron_params(ns2, src, nr),
{
    lemma_reaches_extend(ns1, ns2, src, nr.bias.id as int);
    assert forall|t: int| 0 <= t < nr.weights@.len() implies reaches(
        ns2,
        src,
        (#[trigger] nr.weights@[t]).id as int,
    ) by {
        lemma_reaches_extend(ns1, ns2, src, nr.weights@[t].id as int);
    }
}

/// Reaching a neuron's parameters composes along a reachability edge.
proof fn lemma_params_reach_trans(nodes: Seq<Node>, a: int, b: int, nr: Neuron)
    requires
        reaches(nodes, a, b),
        reaches_neuron_params(nodes, b, nr),
    ensures
        reaches_neuron_params(nodes, a, nr),
{
    lemma_reaches_trans(nodes, a, b, nr.bias.id as int);
    assert forall|t: int| 0 <= t < nr.weights@.len() implies reaches(
        nodes,
        a,
        (#[trigger] nr.weights@[t]).id as int,
    ) by {
        lemma_reaches_trans(nodes, a, b, nr.weights@[t].id as int);
    }
}

/// Values read through handles that point below `glen` are stable under
/// growing the graph and changing nothing below `glen`.
proof fn lemma_neuron_eval_stable(ns1: Seq<Node>, ns2: Seq<Node>, nr: Neuron, xd: Seq<u64>)
    requires
        neuron_wf(nr, ns1.len() as int),
        ns1.len() <= ns2.len(),
        forall|k: int| 0 <= k < ns1.len() ==> ns2[k].data == ns1[k].data,
    ensures
        neuron_eval(ns2, nr, xd) == neuron_eval(ns1, nr, xd),
{
    assert(datas(ns2, nr.weights@) =~= datas(ns1, nr.weights@));
}

impl Neuron {
    /// A fresh neuron: `nin` weight leaves, each holding a pseudo-random
    /// value, and one bias leaf holding 0.0, all appended to the graph.
    pub fn new(g: &mut Graph, nin: usize, activation: bool) -> (nr: Neuron)
        requires
            graph_ok(old(g)@),
        ensures
            graph_ok(final(g)@),
            final(g)@.len() == old(g)@.len() + nin + 1,
            forall|t: int| 0 <= t < old(g)@.len() ==> final(g)@[t] == old(g)@[t],
            forall|t: int|
                old(g)@.len() <= t < final(g)@.len() ==> final(g)@[t].op is None
                    && final(g)@[t].grad == ZERO_BITS,
            nr.weights@.len() == nin,
            nr.activation == activation,
            forall|t: int| 0 <= t < nin ==> nr.weights@[t].id == old(g)@.len() + t,
            nr.bias.id == old(g)@.len() + nin,
            final(g)@[nr.bias.id as int].data == ZERO_BITS,
            forall|t: int|
                0 <= t < nin ==> is_weight_bits(
                    final(g)@[(#[trigger] nr.weights@[t]).id as int].data,
                ),
            neuron_wf(nr, final(g)@.len() as int),
    {
        let mut weights: Vec<Value> = Vec::new();
        let mut k: usize = 0;
        while k < nin
            invariant
                graph_ok(g@),
                k <= nin,
                g@.len() == old(g)@.len() + k,
                weights@.len() == k,
                forall|t: int| 0 <= t < old(g)@.len() ==> g@[t] == old(g)@[t],
                forall|t: int|
                    old(g)@.len() <= t < g@.len() ==> g@[t].op is None && g@[t].grad == ZERO_BITS,
                forall|t: int| 0 <= t < k ==> weights@[t].id == old(g)@.len() + t,
                forall|t: int|
                    0 <= t < k ==> is_weight_bits(g@[(#[trigger] weights@[t]).id as int].data),
            decreases nin - k,
        {
            let wbits = random_weight_bits();
            let w = Value::new(g, wbits);
            weights.push(w);
            k = k + 1;
        }
        let ghost pre = g@;
        let bias = Value::new(g, ZERO_BITS);
        let nr = Neuron { weights, bias, activation };
        proof {
            assert forall|t: int| 0 <= t < nin implies is_weight_bits(
                g@[(#[trigger] nr.weights@[t]).id as int].data,
            ) by {
                assert(is_weight_bits(pre[nr.weights@[t].id as int].data));
                assert(g@[nr.weights@[t].id as int].data == pre[nr.weights@[t].id as int].data);
            }
        }
        nr
    }

    /// The neuron's forward pass: sum of weight-times-input over all
    /// inputs, plus the bias, then the activation if the neuron has one.
    /// Appends the derived nodes and returns the output node.
    pub fn forward(&self, g: &mut Graph, xs: &Vec<Value>) -> (r: Value)
        requires
            graph_ok(old(g)@),
            neuron_wf(*self, old(g)@.len() as int),
            forall|k: int| 0 <= k < xs@.len() ==> (#[trigger] xs@[k]).id < old(g)@.len(),
            xs@.len() == self.weights@.len(),
        ensures
            graph_ok(final(g)@),
            old(g)@.len() <= final(g)@.len(),
            forall|t: int| 0 <= t < old(g)@.len() ==> final(g)@[t] == old(g)@[t],
            forall|t: int|
                old(g)@.len() <= t < final(g)@.len() ==> final(g)@[t].grad == ZERO_BITS,
            r.id < final(g)@.len(),
            final(g)@[r.id as int].data == neuron_eval(old(g)@, *self, datas(old(g)@, xs@)),
            reaches(final(g)@, r.id as int, self.bias.id as int),
            forall|t: int|
                0 <= t < self.weights@.len() ==> reaches(
                    final(g)@,
                    r.id as int,
                    (#[trigger] self.weights@[t]).id as int,
                ),
            forall|t: int|
                0 <= t < xs@.len() ==> reaches(
                    final(g)@,
                    r.id as int,
                    (#[trigger] xs@[t]).id as int,
                ),
    {
        let ghost wd = datas(old(g)@, self.weights@);
        let ghost xd = datas(old(g)@, xs@);
        let mut act = self.bias;
        let mut k: usize = 0;
        while k < self.weights.len()
            invariant
                graph_ok(g@),
                k <= self.weights@.len(),
                xs@.len() == self.weights@.len(),
                neuron_wf(*self, old(g)@.len() as int),
                forall|t: int| 0 <= t < xs@.len() ==> (#[trigger] xs@[t]).id < old(g)@.len(),
                old(g)@.len() <= g@.len(),
                forall|t: int| 0 <= t < old(g)@.len() ==> g@[t] == old(g)@[t],
                forall|t: int| old(g)@.len() <= t < g@.len() ==> g@[t].grad == ZERO_BITS,
                act.id < g@.len(),
                wd == datas(old(g)@, self.weights@),
                xd == datas(old(g)@, xs@),
                fold_wx(wd, xd, old(g)@[self.bias.id as int].data, 0) == fold_wx(
                    wd,
                    xd,
                    g@[act.id as int].data,
                    k as int,
                ),
                reaches(g@, act.id as int, self.bias.id as int),
                forall|t: int|
                    0 <= t < k ==> reaches(
                        g@,
                        act.id as int,
                        (#[trigger] self.weights@[t]).id as int,
                    ),
                forall|t: int|
                    0 <= t < k ==> reaches(g@, act.id as int, (#[trigger] xs@[t]).id as int),
            decreases self.weights@.len() - k,
        {
            let ghost pre = g@;
            let w = self.weights[k];
            let x = xs[k];
            let m = w.mul(g, x);
            let next = act.add(g, m);
            proof {
                assert(g@[m.id as int].data == mul_bits(wd[k as int], xd[k as int]));
                // the new sum node reaches the new product node, and
                // through it this step's weight and input; everything the
                // accumulator reached, the sum reaches too
                assert(reaches(g@, act.id as int, act.id as int));
                assert(reaches(g@, next.id as int, act.id as int));
                assert(reaches(g@, w.id as int, w.id as int));
                assert(reaches(g@, x.id as int, x.id as int));
                assert(reaches(g@, m.id as int, w.id as int));
                assert(reaches(g@, m.id as int, m.id as int));
                assert(reaches(g@, m.id as int, x.id as int));
                assert(reaches(g@, next.id as int, m.id as int));
                lemma_reaches_trans(g@, next.id as int, m.id as int, w.id as int);
                lemma_reaches_trans(g@, next.id as int, m.id as int, x.id as int);
                lemma_reaches_extend(pre, g@, act.id as int, self.bias.id as int);
                lemma_reaches_trans(g@, next.id as int, act.id as int, self.bias.id as int);
                assert forall|t: int| 0 <= t < k implies reaches(
                    g@,
                    next.id as int,
                    (#[trigger] self.weights@[t]).id as int,
                ) by {
                    lemma_reaches_extend(pre, g@, act.id as int, self.weights@[t].id as int);
                    lemma_reaches_trans(
                        g@,
                        next.id as int,
                        act.id as int,
                        self.weights@[t].id as int,
                    );
                }
                assert forall|t: int| 0 <= t < k implies reaches(
                    g@,
                    next.id as int,
                    (#[trigger] xs@[t]).id as int,
                ) by {
                    lemma_reaches_extend(pre, g@, act.id as int, xs@[t].id as int);
                    lemma_reaches_trans(g@, next.id as int, act.id as int, xs@[t].id as int);
                }
            }
            act = next;
            k = k + 1;
        }
        if self.activation {
            let ghost pre = g@;
            let r = act.relu(g);
            proof {
                assert(reaches(g@, act.id as int, act.id as int));
                assert(reaches(g@, r.id as int, act.id as int));
                lemma_reaches_extend(pre, g@, act.id as int, self.bias.id as int);
                lemma_reaches_trans(g@, r.id as int, act.id as int, self.bias.id as int);
                assert forall|t: int| 0 <= t < self.weights@.len() implies reaches(
                    g@,
                    r.id as int,
                    (#[trigger] self.weights@[t]).id as int,
                ) by {
                    lemma_reaches_extend(pre, g@, act.id as int, self.weights@[t].id as int);
                    lemma_reaches_trans(
                        g@,
                        r.id as int,
                        act.id as int,
                        self.weights@[t].id as int,
                    );
                }
                assert forall|t: int| 0 <= t < xs@.len() implies reaches(
                    g@,
                    r.id as int,
                    (#[trigger] xs@[t]).id as int,
                ) by {
                    lemma_reaches_extend(pre, g@, act.id as int, xs@[t].id as int);
                    lemma_reaches_trans(g@, r.id as int, act.id as int, xs@[t].id as int);
                }
            }
            r
        } else {
            act
        }
    }
}

impl Layer {
    /// A fresh layer of `nout` neurons, each with `nin` inputs.
    pub fn new(g: &mut Graph, nin: usize, nout: usize, activation: bool) -> (lr: Layer)
        requires
            graph_ok(old(g)@),
        ensures
            graph_ok(final(g)@),
            old(g)@.len() <= final(g)@.len(),
            forall|t: int| 0 <= t < old(g)@.len() ==> final(g)@[t] == old(g)@[t],
            forall|t: int|
                old(g)@.len() <= t < final(g)@.len() ==> final(g)@[t].op is None
                    && final(g)@[t].grad == ZERO_BITS,
            lr.neurons@.len() == nout,
            layer_wf(lr, final(g)@.len() as int),
            layer_in_width_ok(lr, nin as int),
            forall|k: int|
                0 <= k < nout ==> (#[trigger] lr.neurons@[k]).activation == activation,
            forall|t: int|
                0 <= t < layer_params_from(lr.neurons@).len() ==> old(g)@.len() <= (
                #[trigger] layer_params_from(lr.neurons@)[t]).id < final(g)@.len(),
            forall|t1: int, t2: int|
                0 <= t1 < t2 < layer_params_from(lr.neurons@).len() ==> layer_params_from(
                    lr.neurons@,
                )[t1].id < layer_params_from(lr.neurons@)[t2].id,
    {
        let mut neurons: Vec<Neuron> = Vec::new();
        let mut k: usize = 0;
        while k < nout
            invariant
                graph_ok(g@),
                k <= nout,
                neurons@.len() == k,
                old(g)@.len() <= g@.len(),
                forall|t: int| 0 <= t < old(g)@.len() ==> g@[t] == old(g)@[t],
                forall|t: int|
                    old(g)@.len() <= t < g@.len() ==> g@[t].op is None && g@[t].grad == ZERO_BITS,
                forall|t: int| 0 <= t < k ==> neuron_wf(#[trigger] neurons@[t], g@.len() as int),
                forall|t: int| 0 <= t < k ==> (#[trigger] neurons@[t]).weights@.len() == nin,
                forall|t: int| 0 <= t < k ==> (#[trigger] neurons@[t]).activation == activation,
                forall|t: int|
                    0 <= t < layer_params_from(neurons@).len() ==> old(g)@.len() <= (
                    #[trigger] layer_params_from(neurons@)[t]).id < g@.len(),
                forall|t1: int, t2: int|
                    0 <= t1 < t2 < layer_params_from(neurons@).len() ==> layer_params_from(
                        neurons@,
                    )[t1].id < layer_params_from(neurons@)[t2].id,
            decreases nout - k,
        {
            let ghost pre_ns = neurons@;
            let ghost pre_len = g@.len();
            let nr = Neuron::new(g, nin, activation);
            neurons.push(nr);
            proof {
                lemma_layer_params_push(pre_ns, nr);
                let plen = layer_params_from(pre_ns).len();
                // the fresh neuron's parameters take the next nin + 1
                // indices, in order
                assert forall|u: int| 0 <= u < neuron_params(nr).len() implies (
                #[trigger] neuron_params(nr)[u]).id == pre_len + u by {
                    if u < nin {
                        assert(neuron_params(nr)[u] == nr.weights@[u]);
                    } else {
                        assert(neuron_params(nr)[u] == nr.bias);
                    }
                }
                assert forall|t: int| 0 <= t < layer_params_from(neurons@).len() implies old(
                    g,
                )@.len() <= (#[trigger] layer_params_from(neurons@)[t]).id < g@.len() by {
                    if t < plen {
                        assert(layer_params_from(neurons@)[t] == layer_params_from(pre_ns)[t]);
                    } else {
                        assert(layer_params_from(neurons@)[t] == neuron_params(nr)[t - plen]);
                    }
                }
                assert forall|t1: int, t2: int|
                    0 <= t1 < t2 < layer_params_from(neurons@).len() implies layer_params_from(
                    neurons@,
                )[t1].id < layer_params_from(neurons@)[t2].id by {
                    if t1 < plen {
                        assert(layer_params_from(neurons@)[t1] == layer_params_from(pre_ns)[t1]);
                        assert(layer_params_from(neurons@)[t1].id < pre_len);
                    } else {
                        assert(layer_params_from(neurons@)[t1] == neuron_params(nr)[t1 - plen]);
                    }
                    if t2 < plen {
                        assert(layer_params_from(neurons@)[t2] == layer_params_from(pre_ns)[t2]);
                    } else {
                        assert(layer_params_from(neurons@)[t2] == neuron_params(nr)[t2 - plen]);
                        assert(pre_len <= layer_params_from(neurons@)[t2].id);
                    }
                }
            }
            k = k + 1;
        }
        Layer { neurons }
    }

    /// The layer's forward pass: every neuron over the same inputs, one
    /// output node per neuron.
    pub fn forward(&self, g: &mut Graph, xs: &Vec<Value>) -> (rs: Vec<Value>)
        requires
            graph_ok(old(g)@),
            layer_wf(*self, old(g)@.len() as int),
            forall|k: int| 0 <= k < xs@.len() ==> (#[trigger] xs@[k]).id < old(g)@.len(),
            layer_in_width_ok(*self, xs@.len() as int),
        ensures
            graph_ok(final(g)@),
            old(g)@.len() <= final(g)@.len(),
            forall|t: int| 0 <= t < old(g)@.len() ==> final(g)@[t] == old(g)@[t],
            forall|t: int|
                old(g)@.len() <= t < final(g)@.len() ==> final(g)@[t].grad == ZERO_BITS,
            rs@.len() == self.neurons@.len(),
            forall|i: int| 0 <= i < rs@.len() ==> (#[trigger] rs@[i]).id < final(g)@.len(),
            forall|i: int|
                0 <= i < rs@.len() ==> final(g)@[(#[trigger] rs@[i]).id as int].data
                    == layer_eval(old(g)@, *self, datas(old(g)@, xs@))[i],
            forall|i: int, t: int|
                0 <= i < rs@.len() && 0 <= t < self.neurons@[i].weights@.len() ==> reaches(
                    final(g)@,
                    (#[trigger] rs@[i]).id as int,
                    (#[trigger] self.neurons@[i].weights@[t]).id as int,
                ),
            forall|i: int|
                0 <= i < rs@.len() ==> reaches(
                    final(g)@,
                    (#[trigger] rs@[i]).id as int,
                    self.neurons@[i].bias.id as int,
                ),
            forall|i: int, t: int|
                0 <= i < rs@.len() && 0 <= t < xs@.len() ==> reaches(
                    final(g)@,
                    (#[trigger] rs@[i]).id as int,
                    (#[trigger] xs@[t]).id as int,
                ),
    {
        let ghost xd = datas(old(g)@, xs@);
        let mut rs: Vec<Value> = Vec::new();
        let mut k: usize = 0;
        while k < self.neurons.len()
            invariant
                graph_ok(g@),
                k <= self.neurons@.len(),
                rs@.len() == k,
                layer_wf(*self, old(g)@.len() as int),
                layer_in_width_ok(*self, xs@.len() as int),
                forall|t: int| 0 <= t < xs@.len() ==> (#[trigger] xs@[t]).id < old(g)@.len(),
                old(g)@.len() <= g@.len(),
                forall|t: int| 0 <= t < old(g)@.len() ==> g@[t] == old(g)@[t],
                forall|t: int| old(g)@.len() <= t < g@.len() ==> g@[t].grad == ZERO_BITS,
                xd == datas(old(g)@, xs@),
                forall|i: int| 0 <= i < k ==> (#[trigger] rs@[i]).id < g@.len(),
                forall|i: int|
                    0 <= i < k ==> g@[(#[trigger] rs@[i]).id as int].data == neuron_eval(
                        old(g)@,
                        self.neurons@[i],
                        xd,
                    ),
                forall|i: int, t: int|
                    0 <= i < k && 0 <= t < self.neurons@[i].weights@.len() ==> reaches(
                        g@,
                        (#[trigger] rs@[i]).id as int,
                        (#[trigger] self.neurons@[i].weights@[t]).id as int,
                    ),
                forall|i: int|
                    0 <= i < k ==> reaches(
                        g@,
                        (#[trigger] rs@[i]).id as int,
                        self.neurons@[i].bias.id as int,
                    ),
                forall|i: int, t: int|
                    0 <= i < k && 0 <= t < xs@.len() ==> reaches(
                        g@,
                        (#[trigger] rs@[i]).id as int,
                        (#[trigger] xs@[t]).id as int,
                    ),
            decreases self.neurons@.len() - k,
        {
            let ghost pre = g@;
            let r = self.neurons[k].forward(g, xs);
            proof {
                assert(datas(pre, xs@) =~= xd);
                lemma_neuron_eval_stable(old(g)@, pre, self.neurons@[k as int], xd);
                // earlier outputs keep their provenance as the graph grows
                assert forall|i: int, t: int|
                    0 <= i < k && 0 <= t < self.neurons@[i].weights@.len() implies reaches(
                    g@,
                    (#[trigger] rs@[i]).id as int,
                    (#[trigger] self.neurons@[i].weights@[t]).id as int,
                ) by {
                    assert(neuron_wf(self.neurons@[i], old(g)@.len() as int));
                    lemma_reaches_extend(
                        pre,
                        g@,
                        rs@[i].id as int,
                        self.neurons@[i].weights@[t].id as int,
                    );
                }
                assert forall|i: int| 0 <= i < k implies reaches(
                    g@,
                    (#[trigger] rs@[i]).id as int,
                    self.neurons@[i].bias.id as int,
                ) by {
                    lemma_reaches_extend(pre, g@, rs@[i].id as int, self.neurons@[i].bias.id as int);
                }
                assert forall|i: int, t: int| 0 <= i < k && 0 <= t < xs@.len() implies reaches(
                    g@,
                    (#[trigger] rs@[i]).id as int,
                    (#[trigger] xs@[t]).id as int,
                ) by {
                    lemma_reaches_extend(pre, g@, rs@[i].id as int, xs@[t].id as int);
                }
            }
            rs.push(r);
            k = k + 1;
        }
        proof {
            assert forall|i: int| 0 <= i < rs@.len() implies g@[(#[trigger] rs@[i]).id as int].data
                == layer_eval(old(g)@, *self, xd)[i] by {
                assert(g@[rs@[i].id as int].data == neuron_eval(old(g)@, self.neurons@[i], xd));
            }
        }
        rs
    }
}

/// The node index `k` is the index of one of the given handles.
pub open spec fn is_id_of(ps: Seq<Value>, k: int) -> bool {
    exists|t: int| 0 <= t < ps.len() && ps[t].id == k
}

/// The node index `k` belongs to one of the network's parameters.
pub open spec fn is_param_id(ls: Seq<Layer>, k: int) -> bool {
    is_id_of(mlp_params_from(ls), k)
}

/// Reset the gradient of every node named by `ps` to zero; values,
/// operations and every other node are untouched.
fn zero_params(g: &mut Graph, ps: &Vec<Value>)
    requires
        graph_ok(old(g)@),
        forall|t: int| 0 <= t < ps@.len() ==> (#[trigger] ps@[t]).id < old(g)@.len(),
    ensures
        graph_ok(final(g)@),
        final(g)@.len() == old(g)@.len(),
        forall|k: int|
            0 <= k < old(g)@.len() && is_id_of(ps@, k) ==> final(g)@[k].grad == ZERO_BITS,
        forall|k: int| 0 <= k < old(g)@.len() && !is_id_of(ps@, k) ==> final(g)@[k] == old(g)@[k],
        forall|k: int|
            0 <= k < old(g)@.len() ==> final(g)@[k].data == old(g)@[k].data && final(g)@[k].op
                == old(g)@[k].op,
{
    let mut j: usize = 0;
    while j < ps.len()
        invariant
            graph_ok(g@),
            j <= ps@.len(),
            g@.len() == old(g)@.len(),
            forall|t: int| 0 <= t < ps@.len() ==> (#[trigger] ps@[t]).id < old(g)@.len(),
            forall|k: int|
                0 <= k < old(g)@.len() ==> g@[k].data == old(g)@[k].data && g@[k].op == old(
                    g,
                )@[k].op,
            forall|k: int|
                0 <= k < old(g)@.len() && (exists|t: int|
                    0 <= t < j && (#[trigger] ps@[t]).id == k) ==> g@[k].grad == ZERO_BITS,
            forall|k: int|
                0 <= k < old(g)@.len() && !(exists|t: int|
                    0 <= t < j && (#[trigger] ps@[t]).id == k) ==> g@[k] == old(g)@[k],
        decreases ps@.len() - j,
    {
        let p = ps[j];
        p.zero_grad(g);
        proof {
            assert forall|k: int|
                0 <= k < old(g)@.len() && (exists|t: int|
                    0 <= t < j + 1 && (#[trigger] ps@[t]).id == k) implies g@[k].grad
                == ZERO_BITS by {
                let t = choose|t: int| 0 <= t < j + 1 && (#[trigger] ps@[t]).id == k;
                if ps@[t].id != p.id {
                    assert(0 <= t < j && ps@[t].id == k);
                }
            }
        }
        j = j + 1;
    }
}

proof fn lemma_layer_wf_grow(lr: Layer, a: int, b: int)
    requires
        layer_wf(lr, a),
        a <= b,
    ensures
        layer_wf(lr, b),
{
    assert forall|k: int| 0 <= k < lr.neurons@.len() implies neuron_wf(
        #[trigger] lr.neurons@[k],
        b,
    ) by {
        assert(neuron_wf(lr.neurons@[k], a));
    }
}

/// Appending a layer whose input width matches what the chain produces
/// keeps the chain well-shaped.
proof fn lemma_chain_push(layers: Seq<Layer>, w0: int, lr: Layer)
    requires
        mlp_chain_ok(layers, w0),
        layer_in_width_ok(lr, chain_out(layers, w0)),
    ensures
        mlp_chain_ok(layers.push(lr), w0),
    decreases layers.len(),
{
    if layers.len() == 0 {
        assert(layers.push(lr)[0] == lr);
        assert(layers.push(lr).drop_first() =~= Seq::<Layer>::empty());
        assert(mlp_chain_ok(Seq::<Layer>::empty(), lr.neurons@.len() as int));
    } else {
        assert(chain_out(layers.drop_first(), layers[0].neurons@.len() as int) == chain_out(
            layers,
            w0,
        ));
        lemma_chain_push(layers.drop_first(), layers[0].neurons@.len() as int, lr);
        assert(mlp_chain_ok(layers.drop_first().push(lr), layers[0].neurons@.len() as int));
        assert(layers.push(lr)[0] == layers[0]);
        assert(layers.push(lr).drop_first() =~= layers.drop_first().push(lr));
    }
}

/// Every parameter handle of a well-formed piece of network points into
/// the graph.
proof fn lemma_layer_params_wf(ns: Seq<Neuron>, glen: int)
    requires
        forall|k: int| 0 <= k < ns.len() ==> neuron_wf(#[trigger] ns[k], glen),
    ensures
        forall|t: int|
            0 <= t < layer_params_from(ns).len() ==> (#[trigger] layer_params_from(ns)[t]).id
                < glen,
    decreases ns.len(),
{
    if ns.len() == 0 {
    } else {
        assert forall|k: int| 0 <= k < ns.drop_first().len() implies neuron_wf(
            #[trigger] ns.drop_first()[k],
            glen,
        ) by {
            assert(ns.drop_first()[k] == ns[k + 1]);
        }
        lemma_layer_params_wf(ns.drop_first(), glen);
        assert(neuron_wf(ns[0], glen));
        assert forall|t: int| 0 <= t < layer_params_from(ns).len() implies (
        #[trigger] layer_params_from(ns)[t]).id < glen by {
            let head = neuron_params(ns[0]);
            if t < head.len() {
                assert(layer_params_from(ns)[t] == head[t]);
                if t < ns[0].weights@.len() {
                    assert(head[t] == ns[0].weights@[t]);
                } else {
                    assert(head[t] == ns[0].bias);
                }
            } else {
                assert(layer_params_from(ns)[t] == layer_params_from(ns.drop_first())[t
                    - head.len()]);
            }
        }
    }
}

proof fn lemma_mlp_params_wf(ls: Seq<Layer>, glen: int)
    requires
        forall|k: int| 0 <= k < ls.len() ==> layer_wf(#[trigger] ls[k], glen),
    ensures
        forall|t: int|
            0 <= t < mlp_params_from(ls).len() ==> (#[trigger] mlp_params_from(ls)[t]).id < glen,
    decreases ls.len(),
{
    if ls.len() == 0 {
    } else {
        assert forall|k: int| 0 <= k < ls.drop_first().len() implies layer_wf(
            #[trigger] ls.drop_first()[k],
            glen,
        ) by {
            assert(ls.drop_first()[k] == ls[k + 1]);
        }
        lemma_mlp_params_wf(ls.drop_first(), glen);
        assert(layer_wf(ls[0], glen));
        lemma_layer_params_wf(ls[0].neurons@, glen);
        assert forall|t: int| 0 <= t < mlp_params_from(ls).len() implies (
        #[trigger] mlp_params_from(ls)[t]).id < glen by {
            let head = layer_params_from(ls[0].neurons@);
            if t < head.len() {
                assert(mlp_params_from(ls)[t] == head[t]);
            } else {
                assert(mlp_params_from(ls)[t] == mlp_params_from(ls.drop_first())[t - head.len()]);
            }
        }
    }
}

impl Neuron {
    /// The neuron's parameters: its weights, then its bias.
    pub fn parameters(&self) -> (ps: Vec<Value>)
        ensures
            ps@ == neuron_params(*self),
    {
        let mut ps: Vec<Value> = Vec::new();
        let mut k: usize = 0;
        while k < self.weights.len()
            invariant
                k <= self.weights@.len(),
                ps@ == self.weights@.take(k as int),
            decreases self.weights@.len() - k,
        {
            let w = self.weights[k];
            ps.push(w);
            proof {
                assert(ps@ =~= self.weights@.take(k + 1));
            }
            k = k + 1;
        }
        proof {
            assert(ps@ =~= self.weights@);
        }
        ps.push(self.bias);
        ps
    }

    /// Reset the gradients of this neuron's weights and bias to zero.
    pub fn zero_grad(&self, g: &mut Graph)
        requires
            graph_ok(old(g)@),
            neuron_wf(*self, old(g)@.len() as int),
        ensures
            graph_ok(final(g)@),
            final(g)@.len() == old(g)@.len(),
            forall|k: int|
                0 <= k < old(g)@.len() && is_id_of(neuron_params(*self), k) ==> final(g)@[k].grad
                    == ZERO_BITS,
            forall|k: int|
                0 <= k < old(g)@.len() && !is_id_of(neuron_params(*self), k) ==> final(g)@[k]
                    == old(g)@[k],
            forall|k: int|
                0 <= k < old(g)@.len() ==> final(g)@[k].data == old(g)@[k].data && final(g)@[k].op
                    == old(g)@[k].op,
    {
        let ps = self.parameters();
        proof {
            assert forall|t: int|
                0 <= t < ps@.len() implies (#[trigger] ps@[t]).id < old(g)@.len() by {
                if t < self.weights@.len() {
                    assert(ps@[t] == self.weights@[t]);
                }
            }
        }
        zero_params(g, &ps);
    }
}

impl Layer {
    /// The layer's parameters, neuron by neuron.
    pub fn parameters(&self) -> (ps: Vec<Value>)
        ensures
            ps@ == layer_params_from(self.neurons@),
    {
        let mut ps: Vec<Value> = Vec::new();
        proof {
            assert(self.neurons@.skip(0) =~= self.neurons@);
            assert(ps@ + layer_params_from(self.neurons@) =~= layer_params_from(self.neurons@));
        }
        let mut k: usize = 0;
        while k < self.neurons.len()
            invariant
                k <= self.neurons@.len(),
                layer_params_from(self.neurons@) == ps@ + layer_params_from(
                    self.neurons@.skip(k as int),
                ),
            decreases self.neurons@.len() - k,
        {
            let ghost pre = ps@;
            let ghost rest = self.neurons@.skip(k as int);
            let mut nps = self.neurons[k].parameters();
            ps.append(&mut nps);
            proof {
                assert(rest[0] == self.neurons@[k as int]);
                assert(rest.drop_first() =~= self.neurons@.skip(k + 1));
                assert(layer_params_from(rest) == neuron_params(self.neurons@[k as int])
                    + layer_params_from(self.neurons@.skip(k + 1)));
                assert(pre + layer_params_from(rest) =~= ps@ + layer_params_from(
                    self.neurons@.skip(k + 1),
                ));
            }
            k = k + 1;
        }
        proof {
            assert(self.neurons@.skip(self.neurons@.len() as int) =~= Seq::<Neuron>::empty());
            assert(ps@ + layer_params_from(Seq::<Neuron>::empty()) =~= ps@);
        }
        ps
    }

    /// Reset the gradients of every parameter of every neuron to zero.
    pub fn zero_grad(&self, g: &mut Graph)
        requires
            graph_ok(old(g)@),
            layer_wf(*self, old(g)@.len() as int),
        ensures
            graph_ok(final(g)@),
            final(g)@.len() == old(g)@.len(),
            forall|k: int|
                0 <= k < old(g)@.len() && is_id_of(layer_params_from(self.neurons@), k)
                    ==> final(g)@[k].grad == ZERO_BITS,
            forall|k: int|
                0 <= k < old(g)@.len() && !is_id_of(layer_params_from(self.neurons@), k)
                    ==> final(g)@[k] == old(g)@[k],
            forall|k: int|
                0 <= k < old(g)@.len() ==> final(g)@[k].data == old(g)@[k].data && final(g)@[k].op
                    == old(g)@[k].op,
    {
        let ps = self.parameters();
        proof {
            lemma_layer_params_wf(self.neurons@, old(g)@.len() as int);
        }
        zero_params(g, &ps);
    }
}

impl MLP {
    /// A fresh network: one layer per entry of `nouts`, the first taking
    /// `nin` inputs and each further layer taking the previous layer's
    /// outputs. Hidden layers apply the rectified-linear activation, the
    /// last layer is linear. Weights are pseudo-random in [-1, 1), biases
    /// start at 0.0, and every parameter starts with gradient zero.
    pub fn new(g: &mut Graph, nin: usize, nouts: &Vec<usize>) -> (m: MLP)
        requires
            graph_ok(old(g)@),
        ensures
            graph_ok(final(g)@),
            old(g)@.len() <= final(g)@.len(),
            forall|t: int| 0 <= t < old(g)@.len() ==> final(g)@[t] == old(g)@[t],
            forall|t: int|
                old(g)@.len() <= t < final(g)@.len() ==> final(g)@[t].op is None
                    && final(g)@[t].grad == ZERO_BITS,
            m.layers@.len() == nouts@.len(),
            mlp_wf(m, final(g)@.len() as int),
            mlp_chain_ok(m.layers@, nin as int),
            forall|l: int|
                0 <= l < nouts@.len() ==> (#[trigger] m.layers@[l]).neurons@.len() == nouts@[l],
            forall|l: int, k: int|
                0 <= l < nouts@.len() && 0 <= k < m.layers@[l].neurons@.len() ==> (
                #[trigger] m.layers@[l].neurons@[k]).activation == (l + 1 < nouts@.len()),
            forall|t: int|
                0 <= t < mlp_params_from(m.layers@).len() ==> old(g)@.len() <= (
                #[trigger] mlp_params_from(m.layers@)[t]).id < final(g)@.len(),
            forall|t1: int, t2: int|
                0 <= t1 < t2 < mlp_params_from(m.layers@).len() ==> mlp_params_from(
                    m.layers@,
                )[t1].id < mlp_params_from(m.layers@)[t2].id,
    {
        let mut layers: Vec<Layer> = Vec::new();
        let mut in_size = nin;
        let mut l: usize = 0;
        while l < nouts.len()
            invariant
                graph_ok(g@),
                l <= nouts@.len(),
                layers@.len() == l,
                old(g)@.len() <= g@.len(),
                forall|t: int| 0 <= t < old(g)@.len() ==> g@[t] == old(g)@[t],
                forall|t: int|
                    old(g)@.len() <= t < g@.len() ==> g@[t].op is None && g@[t].grad == ZERO_BITS,
                forall|t: int| 0 <= t < l ==> layer_wf(#[trigger] layers@[t], g@.len() as int),
                mlp_chain_ok(layers@, nin as int),
                in_size as int == chain_out(layers@, nin as int),
                forall|t: int| 0 <= t < l ==> (#[trigger] layers@[t]).neurons@.len() == nouts@[t],
                forall|t: int, k: int|
                    0 <= t < l && 0 <= k < layers@[t].neurons@.len() ==> (
                    #[trigger] layers@[t].neurons@[k]).activation == (t + 1 < nouts@.len()),
                forall|t: int|
                    0 <= t < mlp_params_from(layers@).len() ==> old(g)@.len() <= (
                    #[trigger] mlp_params_from(layers@)[t]).id < g@.len(),
                forall|t1: int, t2: int|
                    0 <= t1 < t2 < mlp_params_from(layers@).len() ==> mlp_params_from(
                        layers@,
                    )[t1].id < mlp_params_from(layers@)[t2].id,
            decreases nouts@.len() - l,
        {
            let ghost pre_len = g@.len();
            // Hidden layers activate; the output layer is linear.
            let activation = l + 1 < nouts.len();
            let width = nouts[l];
            let lr = Layer::new(g, in_size, width, activation);
            proof {
                lemma_chain_push(layers@, nin as int, lr);
                assert forall|t: int| 0 <= t < l implies layer_wf(
                    #[trigger] layers@[t],
                    g@.len() as int,
                ) by {
                    lemma_layer_wf_grow(layers@[t], pre_len as int, g@.len() as int);
                }
                assert(layers@.push(lr).last() == lr);
                lemma_mlp_params_push(layers@, lr);
                let pre_ls = layers@;
                let plen = mlp_params_from(pre_ls).len();
                let newps = mlp_params_from(pre_ls.push(lr));
                let lps = layer_params_from(lr.neurons@);
                assert forall|t: int| 0 <= t < newps.len() implies old(g)@.len() <= (
                #[trigger] newps[t]).id < g@.len() by {
                    if t < plen {
                        assert(newps[t] == mlp_params_from(pre_ls)[t]);
                    } else {
                        assert(newps[t] == lps[t - plen]);
                    }
                }
                assert forall|t1: int, t2: int| 0 <= t1 < t2 < newps.len() implies newps[t1].id
                    < newps[t2].id by {
                    if t1 < plen {
                        assert(newps[t1] == mlp_params_from(pre_ls)[t1]);
                        assert(newps[t1].id < pre_len);
                    } else {
                        assert(newps[t1] == lps[t1 - plen]);
                    }
                    if t2 < plen {
                        assert(newps[t2] == mlp_params_from(pre_ls)[t2]);
                    } else {
                        assert(newps[t2] == lps[t2 - plen]);
                        assert(pre_len <= newps[t2].id);
                    }
                }
            }
            layers.push(lr);
            in_size = width;
            l = l + 1;
        }
        MLP { layers }
    }

    /// The network's forward pass: the inputs piped through every layer
    /// in order; returns one output node per neuron of the last layer.
    pub fn forward(&self, g: &mut Graph, xs: &Vec<Value>) -> (rs: Vec<Value>)
        requires
            graph_ok(old(g)@),
            mlp_wf(*self, old(g)@.len() as int),
            forall|k: int| 0 <= k < xs@.len() ==> (#[trigger] xs@[k]).id < old(g)@.len(),
            mlp_chain_ok(self.layers@, xs@.len() as int),
        ensures
            graph_ok(final(g)@),
            old(g)@.len() <= final(g)@.len(),
            forall|t: int| 0 <= t < old(g)@.len() ==> final(g)@[t] == old(g)@[t],
            forall|t: int|
                old(g)@.len() <= t < final(g)@.len() ==> final(g)@[t].grad == ZERO_BITS,
            forall|i: int| 0 <= i < rs@.len() ==> (#[trigger] rs@[i]).id < final(g)@.len(),
            datas(final(g)@, rs@) == mlp_eval(old(g)@, self.layers@, datas(old(g)@, xs@)),
            self.layers@.len() > 0 && all_nonempty(self.layers@) ==> (forall|i: int, t: int|
                0 <= i < rs@.len() && 0 <= t < xs@.len() ==> reaches(
                    final(g)@,
                    (#[trigger] rs@[i]).id as int,
                    (#[trigger] xs@[t]).id as int,
                )),
            all_nonempty(self.layers@) ==> (forall|i: int, lp: int, k2: int|
                0 <= i < rs@.len() && 0 <= lp < self.layers@.len() - 1 && 0 <= k2
                    < self.layers@[lp].neurons@.len() ==> reaches_neuron_params(
                    final(g)@,
                    (#[trigger] rs@[i]).id as int,
                    #[trigger] self.layers@[lp].neurons@[k2],
                )),
            self.layers@.len() > 0 && all_nonempty(self.layers@) ==> (forall|i: int|
                0 <= i < rs@.len() ==> reaches_neuron_params(
                    final(g)@,
                    (#[trigger] rs@[i]).id as int,
                    self.layers@.last().neurons@[i],
                )),
    {
        let ghost xd0 = datas(old(g)@, xs@);
        let mut cur: Vec<Value> = Vec::new();
        let mut k: usize = 0;
        while k < xs.len()
            invariant
                k <= xs@.len(),
                cur@ == xs@.take(k as int),
                g@ == old(g)@,
            decreases xs@.len() - k,
        {
            let x = xs[k];
            cur.push(x);
            proof {
                assert(cur@ =~= xs@.take(k + 1));
            }
            k = k + 1;
        }
        proof {
            assert(cur@ =~= xs@);
            assert(self.layers@.skip(0) =~= self.layers@);
            assert(datas(g@, cur@) == xd0);
        }
        let mut l: usize = 0;
        while l < self.layers.len()
            invariant
                graph_ok(g@),
                l <= self.layers@.len(),
                mlp_wf(*self, old(g)@.len() as int),
                old(g)@.len() <= g@.len(),
                forall|t: int| 0 <= t < old(g)@.len() ==> g@[t] == old(g)@[t],
                forall|t: int| old(g)@.len() <= t < g@.len() ==> g@[t].grad == ZERO_BITS,
                forall|i: int| 0 <= i < cur@.len() ==> (#[trigger] cur@[i]).id < g@.len(),
                mlp_chain_ok(self.layers@.skip(l as int), cur@.len() as int),
                mlp_eval(old(g)@, self.layers@, xd0) == mlp_eval(
                    old(g)@,
                    self.layers@.skip(l as int),
                    datas(g@, cur@),
                ),
                forall|t: int| 0 <= t < xs@.len() ==> (#[trigger] xs@[t]).id < old(g)@.len(),
                l == 0 ==> cur@ == xs@,
                l >= 1 ==> cur@.len() == self.layers@[l - 1].neurons@.len(),
                l >= 1 && all_nonempty(self.layers@) ==> (forall|i: int, t: int|
                    0 <= i < cur@.len() && 0 <= t < xs@.len() ==> reaches(
                        g@,
                        (#[trigger] cur@[i]).id as int,
                        (#[trigger] xs@[t]).id as int,
                    )),
                all_nonempty(self.layers@) ==> (forall|i: int, lp: int, k2: int|
                    0 <= i < cur@.len() && 0 <= lp < l - 1 && 0 <= k2
                        < self.layers@[lp].neurons@.len() ==> reaches_neuron_params(
                        g@,
                        (#[trigger] cur@[i]).id as int,
                        #[trigger] self.layers@[lp].neurons@[k2],
                    )),
                l >= 1 && all_nonempty(self.layers@) ==> (forall|i: int|
                    0 <= i < cur@.len() ==> reaches_neuron_params(
                        g@,
                        (#[trigger] cur@[i]).id as int,
                        self.layers@[l - 1].neurons@[i],
                    )),
            decreases self.layers@.len() - l,
        {
            let ghost pre = g@;
            let ghost skipl = self.layers@.skip(l as int);
            let ghost cxd = datas(pre, cur@);
            proof {
                assert(skipl[0] == self.layers@[l as int]);
                assert(layer_in_width_ok(self.layers@[l as int], cur@.len() as int));
                assert(layer_wf(self.layers@[l as int], old(g)@.len() as int));
                lemma_layer_wf_grow(
                    self.layers@[l as int],
                    old(g)@.len() as int,
                    pre.len() as int,
                );
            }
            let rs_l = self.layers[l].forward(g, &cur);
            proof {
                let lr = self.layers@[l as int];
                // the layer read only parameter nodes, all preserved
                // since the start of the whole forward pass
                assert forall|i: int| 0 <= i < rs_l@.len() implies g@[(
                #[trigger] rs_l@[i]).id as int].data == layer_eval(old(g)@, lr, cxd)[i] by {
                    lemma_neuron_eval_stable(old(g)@, pre, lr.neurons@[i], cxd);
                }
                assert(datas(g@, rs_l@) =~= layer_eval(old(g)@, lr, cxd));
                assert(skipl.drop_first() =~= self.layers@.skip(l + 1));
                assert(mlp_eval(old(g)@, skipl, cxd) == mlp_eval(
                    old(g)@,
                    self.layers@.skip(l + 1),
                    layer_eval(old(g)@, lr, cxd),
                ));
                if all_nonempty(self.layers@) {
                    // each output of this layer reaches the layer's own
                    // parameters directly, and everything an input of the
                    // layer reached transitively
                    assert forall|i: int| 0 <= i < rs_l@.len() implies reaches_neuron_params(
                        g@,
                        (#[trigger] rs_l@[i]).id as int,
                        lr.neurons@[i],
                    ) by {
                        assert(reaches(g@, rs_l@[i].id as int, lr.neurons@[i].bias.id as int));
                    }
                    assert forall|i: int, t: int|
                        0 <= i < rs_l@.len() && 0 <= t < xs@.len() implies reaches(
                        g@,
                        (#[trigger] rs_l@[i]).id as int,
                        (#[trigger] xs@[t]).id as int,
                    ) by {
                        if l == 0 {
                            assert(cur@[t] == xs@[t]);
                            assert(reaches(g@, rs_l@[i].id as int, cur@[t].id as int));
                        } else {
                            assert(self.layers@[l - 1].neurons@.len() > 0);
                            assert(reaches(g@, rs_l@[i].id as int, cur@[0].id as int));
                            assert(reaches(pre, cur@[0].id as int, xs@[t].id as int));
                            lemma_reaches_extend(pre, g@, cur@[0].id as int, xs@[t].id as int);
                            lemma_reaches_trans(
                                g@,
                                rs_l@[i].id as int,
                                cur@[0].id as int,
                                xs@[t].id as int,
                            );
                        }
                    }
                    assert forall|i: int, lp: int, k2: int|
                        0 <= i < rs_l@.len() && 0 <= lp < l && 0 <= k2
                            < self.layers@[lp].neurons@.len() implies reaches_neuron_params(
                        g@,
                        (#[trigger] rs_l@[i]).id as int,
                        #[trigger] self.layers@[lp].neurons@[k2],
                    ) by {
                        if lp == l - 1 {
                            assert(cur@.len() == self.layers@[lp].neurons@.len());
                            assert(reaches_neuron_params(
                                pre,
                                cur@[k2].id as int,
                                self.layers@[lp].neurons@[k2],
                            ));
                            lemma_params_reach_extend(
                                pre,
                                g@,
                                cur@[k2].id as int,
                                self.layers@[lp].neurons@[k2],
                            );
                            assert(reaches(g@, rs_l@[i].id as int, cur@[k2].id as int));
                            lemma_params_reach_trans(
                                g@,
                                rs_l@[i].id as int,
                                cur@[k2].id as int,
                                self.layers@[lp].neurons@[k2],
                            );
                        } else {
                            assert(self.layers@[l - 1].neurons@.len() > 0);
                            assert(cur@.len() > 0);
                            assert(reaches_neuron_params(
                                pre,
                                cur@[0].id as int,
                                self.layers@[lp].neurons@[k2],
                            ));
                            lemma_params_reach_extend(
                                pre,
                                g@,
                                cur@[0].id as int,
                                self.layers@[lp].neurons@[k2],
                            );
                            assert(reaches(g@, rs_l@[i].id as int, cur@[0].id as int));
                            lemma_params_reach_trans(
                                g@,
                                rs_l@[i].id as int,
                                cur@[0].id as int,
                                self.layers@[lp].neurons@[k2],
                            );
                        }
                    }
                }
            }
            cur = rs_l;
            l = l + 1;
        }
        proof {
            assert(self.layers@.skip(self.layers@.len() as int) =~= Seq::<Layer>::empty());
            if self.layers@.len() > 0 {
                assert(self.layers@.last() == self.layers@[self.layers@.len() - 1]);
            }
        }
        cur
    }

    /// Every weight and bias of the network, in a stable order: layer by
    /// layer, neuron by neuron, weights before the bias.
    pub fn parameters(&self) -> (ps: Vec<Value>)
        ensures
            ps@ == mlp_params_from(self.layers@),
    {
        let mut ps: Vec<Value> = Vec::new();
        proof {
            assert(self.layers@.skip(0) =~= self.layers@);
            assert(ps@ + mlp_params_from(self.layers@) =~= mlp_params_from(self.layers@));
        }
        let mut l: usize = 0;
        while l < self.layers.len()
            invariant
                l <= self.layers@.len(),
                mlp_params_from(self.layers@) == ps@ + mlp_params_from(
                    self.layers@.skip(l as int),
                ),
            decreases self.layers@.len() - l,
        {
            let ghost pre = ps@;
            let ghost rest = self.layers@.skip(l as int);
            let mut lps = self.layers[l].parameters();
            ps.append(&mut lps);
            proof {
                assert(rest[0] == self.layers@[l as int]);
                assert(rest.drop_first() =~= self.layers@.skip(l + 1));
                assert(mlp_params_from(rest) == layer_params_from(
                    self.layers@[l as int].neurons@,
                ) + mlp_params_from(self.layers@.skip(l + 1)));
                assert(pre + mlp_params_from(rest) =~= ps@ + mlp_params_from(
                    self.layers@.skip(l + 1),
                ));
            }
            l = l + 1;
        }
        proof {
            assert(self.layers@.skip(self.layers@.len() as int) =~= Seq::<Layer>::empty());
            assert(ps@ + mlp_params_from(Seq::<Layer>::empty()) =~= ps@);
        }
        ps
    }

    /// Reset the gradient of every parameter of the network to zero;
    /// values, operations and every other node are untouched.
    pub fn zero_grad(&self, g: &mut Graph)
        requires
            graph_ok(old(g)@),
            mlp_wf(*self, old(g)@.len() as int),
        ensures
            graph_ok(final(g)@),
            final(g)@.len() == old(g)@.len(),
            forall|k: int|
                0 <= k < old(g)@.len() && is_param_id(self.layers@, k) ==> final(g)@[k].grad
                    == ZERO_BITS,
            forall|k: int|
                0 <= k < old(g)@.len() && !is_param_id(self.layers@, k) ==> final(g)@[k] == old(
                    g,
                )@[k],
            forall|k: int|
                0 <= k < old(g)@.len() ==> final(g)@[k].data == old(g)@[k].data && final(g)@[k].op
                    == old(g)@[k].op,
    {
        let ps = self.parameters();
        proof {
            lemma_mlp_params_wf(self.layers@, old(g)@.len() as int);
        }
        zero_params(g, &ps);
    }
}

} // verus!
