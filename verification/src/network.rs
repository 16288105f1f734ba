//! Neurons, layers and multi-layer perceptrons assembled from graph nodes.

use vstd::prelude::*;
use crate::engine::{all_fit, handles, leaf, with_node, Graph, NodeModel, Operation, Value};
use crate::scalar::Scalar;

verus! {

/// Where the initial weights and biases come from. Nothing is promised of the
/// numbers it hands out: a network built from a source holds whatever came.
pub trait Source<S> {
    fn sample(&mut self) -> S;
}

/// A source together with the record of what it has handed out. The
/// constructors of this module draw through it, and say of each new
/// parameter which draw it holds.
pub struct Recorded<S, R: Source<S>> {
    inner: R,
    history: Ghost<Seq<S>>,
}

impl<S, R: Source<S>> Recorded<S, R> {
    /// Everything handed out so far, in order.
    pub closed spec fn drawn(&self) -> Seq<S> {
        self.history@
    }

    /// Starts a record for `inner`; nothing has been handed out yet.
    pub fn new(inner: R) -> (source: Self)
        ensures
            source.drawn() == Seq::<S>::empty(),
    {
        Recorded { inner, history: Ghost(Seq::empty()) }
    }

    /// Asks the source for one number and records it.
    pub fn sample(&mut self) -> (x: S)
        ensures
            final(self).drawn() == old(self).drawn().push(x),
    {
        let x = self.inner.sample();
        self.history = Ghost(self.history@.push(x));
        x
    }

    /// Gives the source back and ends the record.
    pub fn into_inner(self) -> R {
        self.inner
    }
}

/// `after` is `before` followed by exactly `n` further draws.
pub open spec fn continued<S>(before: Seq<S>, after: Seq<S>, n: int) -> bool {
    &&& after.len() == before.len() + n
    &&& after.take(before.len() as int) == before
}

/// The draws that `after` holds beyond `before`.
pub open spec fn drawn_since<S>(before: Seq<S>, after: Seq<S>) -> Seq<S> {
    after.skip(before.len() as int)
}

/// Draws made in two stretches are the draws of the whole stretch, and so
/// are the leaves made of them.
pub proof fn lemma_drawn_further<S: Scalar>(
    nodes: Seq<NodeModel<S>>,
    start: Seq<S>,
    middle: Seq<S>,
    end: Seq<S>,
    a: int,
    b: int,
)
    requires
        0 <= a,
        0 <= b,
        continued(start, middle, a),
        continued(middle, end, b),
    ensures
        continued(start, end, a + b),
        with_leaves(with_leaves(nodes, drawn_since(start, middle)), drawn_since(middle, end))
            == with_leaves(nodes, drawn_since(start, end)),
{
    assert(end.take(start.len() as int) =~= middle.take(start.len() as int)) by {
        assert forall|t: int| 0 <= t < start.len() implies end.take(start.len() as int)[t]
            == middle.take(start.len() as int)[t] by {
            assert(end.take(middle.len() as int)[t] == middle[t]);
        }
    }
    let once = with_leaves(with_leaves(nodes, drawn_since(start, middle)), drawn_since(middle, end));
    let whole = with_leaves(nodes, drawn_since(start, end));
    assert forall|t: int| 0 <= t < whole.len() implies once[t] == whole[t] by {
        if nodes.len() <= t < nodes.len() + a {
            assert(end.take(middle.len() as int)[t - nodes.len() + start.len()] == middle[t
                - nodes.len() + start.len()]);
        }
    }
    assert(once =~= whole);
}

/// A neuron as a mathematical value: the positions of its weights and of its
/// bias.
pub struct NeuronModel {
    pub w: Seq<int>,
    pub b: int,
}

/// A neuron: the handles of its weights and of its bias, all of them leaves
/// of one graph.
#[derive(Debug)]
pub struct Neuron {
    w: Vec<Value>,
    b: Value,
}

impl View for Neuron {
    type V = NeuronModel;

    closed spec fn view(&self) -> NeuronModel {
        NeuronModel { w: handles(self.w@), b: self.b@ }
    }
}

/// The graph extended by one leaf for each of `values`, in order.
pub open spec fn with_leaves<S: Scalar>(nodes: Seq<NodeModel<S>>, values: Seq<S>) -> Seq<
    NodeModel<S>,
> {
    nodes + Seq::new(values.len(), |s: int| leaf(values[s]))
}

/// The neuron whose `nin` weights stand at `start`, `start + 1`, and so on,
/// followed by its bias.
pub open spec fn neuron_at(start: int, nin: int) -> NeuronModel {
    NeuronModel { w: Seq::new(nin as nat, |s: int| start + s), b: start + nin }
}

/// Whether every handle of the neuron names one of the first `len` nodes.
pub open spec fn neuron_fits(neuron: NeuronModel, len: int) -> bool {
    &&& 0 <= neuron.b < len
    &&& forall|s: int| 0 <= s < neuron.w.len() ==> 0 <= #[trigger] neuron.w[s] < len
}

/// The smaller of two lengths: inputs are paired with weights as far as both
/// last.
pub open spec fn paired(w: Seq<int>, x: Seq<int>) -> nat {
    if w.len() <= x.len() {
        w.len()
    } else {
        x.len()
    }
}

/// The position of the running sum of a neuron once `n` terms have been added
/// to the bias `b`, in a graph that had `len` nodes before.
pub open spec fn sum_position(len: int, b: int, n: nat) -> int {
    if n == 0 {
        b
    } else {
        len + 2 * n - 1
    }
}

/// The graph once a neuron has added its first `n` terms to its bias: for each
/// term, in order, the product `w[s] * x[s]` and then the sum of what was
/// there and that product.
pub open spec fn weighted_sum<S: Scalar>(
    nodes: Seq<NodeModel<S>>,
    neuron: NeuronModel,
    x: Seq<int>,
    n: nat,
) -> Seq<NodeModel<S>>
    decreases n,
{
    if n == 0 {
        nodes
    } else {
        let sofar = weighted_sum(nodes, neuron, x, (n - 1) as nat);
        let product = with_node(sofar, Operation::Mul, seq![neuron.w[n - 1], x[n - 1]]);
        with_node(
            product,
            Operation::Add,
            seq![sum_position(nodes.len() as int, neuron.b, (n - 1) as nat), sofar.len() as int],
        )
    }
}

/// The graph once a neuron has computed its output on the inputs `x`: the
/// weighted sum over the paired inputs, then its hyperbolic tangent, which
/// comes last.
pub open spec fn neuron_forward<S: Scalar>(
    nodes: Seq<NodeModel<S>>,
    neuron: NeuronModel,
    x: Seq<int>,
) -> Seq<NodeModel<S>> {
    let n = paired(neuron.w, x);
    with_node(
        weighted_sum(nodes, neuron, x, n),
        Operation::Tanh,
        seq![sum_position(nodes.len() as int, neuron.b, n)],
    )
}

/// A neuron's weighted sum adds two nodes per term.
pub proof fn lemma_weighted_sum_len<S: Scalar>(
    nodes: Seq<NodeModel<S>>,
    neuron: NeuronModel,
    x: Seq<int>,
    n: nat,
)
    ensures
        weighted_sum(nodes, neuron, x, n).len() == nodes.len() + 2 * n,
    decreases n,
{
    if n > 0 {
        lemma_weighted_sum_len(nodes, neuron, x, (n - 1) as nat);
    }
}

impl Neuron {
    /// Whether every handle of this neuron names a node of `g`.
    pub open spec fn fits<S: Scalar>(&self, g: &Graph<S>) -> bool {
        neuron_fits(self@, g@.len() as int)
    }

    /// Whether every handle of this neuron names a node of `g`.
    pub fn belongs_to<S: Scalar>(&self, g: &Graph<S>) -> (b: bool)
        ensures
            b == self.fits(g),
    {
        assert(self@.w == handles(self.w@));
        g.contains(self.b) && g.contains_all(&self.w)
    }

    /// A neuron with the given weights and bias, each in a new leaf: the
    /// weights first, in order, then the bias.
    pub fn with_parameters<S: Scalar>(g: &mut Graph<S>, w: &Vec<S>, b: S) -> (neuron: Neuron)
        requires
            old(g).wf(),
        ensures
            final(g).wf(),
            final(g)@ == with_leaves(old(g)@, w@.push(b)),
            neuron@ == neuron_at(old(g)@.len() as int, w@.len() as int),
            neuron.fits(final(g)),
    {
        let ghost before = g@;
        let mut handles_of: Vec<Value> = Vec::new();
        let mut s: usize = 0;
        while s < w.len()
            invariant
                s <= w@.len(),
                g.wf(),
                g@ == with_leaves(before, w@.take(s as int)),
                handles_of@.len() == s,
                forall|t: int| 0 <= t < s ==> (#[trigger] handles_of@[t])@ == before.len() + t,
            decreases w@.len() - s,
        {
            let v = Value::new(g, w[s].dup());
            handles_of.push(v);
            proof {
                assert(w@.take(s + 1) =~= w@.take(s as int).push(w@[s as int]));
                assert(g@ =~= with_leaves(before, w@.take(s + 1)));
            }
            s += 1;
        }
        let bias = Value::new(g, b);
        proof {
            assert(w@.take(s as int) =~= w@);
            assert(g@ =~= with_leaves(before, w@.push(b)));
        }
        let neuron = Neuron { w: handles_of, b: bias };
        assert(neuron@.w =~= neuron_at(before.len() as int, w@.len() as int).w);
        neuron
    }

    /// A neuron of `nin` inputs whose weights and bias are drawn from
    /// `source`: the weights first, in order, then the bias. Exactly
    /// `nin + 1` numbers are drawn, and each new leaf holds its draw.
    pub fn new<S: Scalar, R: Source<S>>(
        g: &mut Graph<S>,
        nin: u32,
        source: &mut Recorded<S, R>,
    ) -> (neuron: Neuron)
        requires
            old(g).wf(),
        ensures
            final(g).wf(),
            continued(old(source).drawn(), final(source).drawn(), nin + 1),
            final(g)@ == with_leaves(
                old(g)@,
                drawn_since(old(source).drawn(), final(source).drawn()),
            ),
            neuron@ == neuron_at(old(g)@.len() as int, nin as int),
            neuron.fits(final(g)),
    {
        let ghost start = source.drawn();
        let mut w: Vec<S> = Vec::new();
        let mut s: u32 = 0;
        while s < nin
            invariant
                s <= nin,
                w@.len() == s,
                source.drawn() == start + w@,
            decreases nin - s,
        {
            let ghost sofar = w@;
            let x = source.sample();
            w.push(x);
            assert(start + w@ =~= (start + sofar).push(x));
            s += 1;
        }
        let b = source.sample();
        proof {
            assert(source.drawn() =~= start + w@.push(b));
            assert(source.drawn().take(start.len() as int) =~= start);
            assert(drawn_since(start, source.drawn()) =~= w@.push(b));
        }
        Neuron::with_parameters(g, &w, b)
    }

    /// The output of the neuron on the inputs `x`: the hyperbolic tangent of
    /// the bias plus the products of weights and inputs, paired in order as
    /// far as both last.
    pub fn forward<S: Scalar>(&self, g: &mut Graph<S>, x: &Vec<Value>) -> (out: Value)
        requires
            old(g).wf(),
            self.fits(old(g)),
            all_fit(handles(x@), old(g)@.len() as int),
        ensures
            final(g).wf(),
            final(g)@ == neuron_forward(old(g)@, self@, handles(x@)),
            final(g)@.len() == old(g)@.len() + 2 * paired(self@.w, handles(x@)) + 1,
            out@ == final(g)@.len() - 1,
    {
        let ghost before = g@;
        let ghost xs = handles(x@);
        let n = if self.w.len() <= x.len() {
            self.w.len()
        } else {
            x.len()
        };
        let mut acc = self.b;
        let mut s: usize = 0;
        while s < n
            invariant
                s <= n,
                n == paired(self@.w, xs),
                xs == handles(x@),
                neuron_fits(self@, before.len() as int),
                all_fit(xs, before.len() as int),
                g.wf(),
                g@ == weighted_sum(before, self@, xs, s as nat),
                g@.len() == before.len() + 2 * s,
                acc@ == sum_position(before.len() as int, self@.b, s as nat),
            decreases n - s,
        {
            assert(self.w@[s as int]@ == self@.w[s as int]);
            assert(x@[s as int]@ == xs[s as int]);
            let product = self.w[s].mul(g, x[s]);
            acc = acc.add(g, product);
            s += 1;
        }
        acc.tanh(g)
    }
}

/// A layer: neurons that are given the same inputs. Its view is the sequence
/// of its neurons.
#[derive(Debug)]
pub struct Layer {
    neurons: Vec<Neuron>,
}

impl View for Layer {
    type V = Seq<NeuronModel>;

    closed spec fn view(&self) -> Seq<NeuronModel> {
        Seq::new(self.neurons@.len(), |j: int| self.neurons@[j]@)
    }
}

/// The layer of `nout` neurons of `nin` inputs each whose parameters stand
/// from `start` on, neuron after neuron.
pub open spec fn layer_at(start: int, nin: int, nout: int) -> Seq<NeuronModel> {
    Seq::new(nout as nat, |j: int| neuron_at(start + j * (nin + 1), nin))
}

/// Whether every handle of the layer names one of the first `len` nodes.
pub open spec fn layer_fits(layer: Seq<NeuronModel>, len: int) -> bool {
    forall|j: int| 0 <= j < layer.len() ==> neuron_fits(#[trigger] layer[j], len)
}

/// The graph once the first `n` neurons of a layer have computed their
/// output on the inputs `x`, one after the other.
pub open spec fn layer_forward<S: Scalar>(
    nodes: Seq<NodeModel<S>>,
    layer: Seq<NeuronModel>,
    x: Seq<int>,
    n: nat,
) -> Seq<NodeModel<S>>
    decreases n,
{
    if n == 0 {
        nodes
    } else {
        neuron_forward(layer_forward(nodes, layer, x, (n - 1) as nat), layer[n - 1], x)
    }
}

/// The positions of a layer's outputs: each neuron's output is the last node
/// that the neuron added.
pub open spec fn layer_outputs<S: Scalar>(
    nodes: Seq<NodeModel<S>>,
    layer: Seq<NeuronModel>,
    x: Seq<int>,
) -> Seq<int> {
    Seq::new(layer.len(), |j: int| layer_forward(nodes, layer, x, (j + 1) as nat).len() - 1)
}

/// A neuron's forward pass adds nodes and changes none.
pub proof fn lemma_neuron_forward_len<S: Scalar>(
    nodes: Seq<NodeModel<S>>,
    neuron: NeuronModel,
    x: Seq<int>,
)
    ensures
        neuron_forward(nodes, neuron, x).len() == nodes.len() + 2 * paired(neuron.w, x) + 1,
{
    lemma_weighted_sum_len(nodes, neuron, x, paired(neuron.w, x));
}

impl Layer {
    /// Whether every handle of this layer names a node of `g`.
    pub open spec fn fits<S: Scalar>(&self, g: &Graph<S>) -> bool {
        layer_fits(self@, g@.len() as int)
    }

    /// Whether every handle of this layer names a node of `g`.
    pub fn belongs_to<S: Scalar>(&self, g: &Graph<S>) -> (b: bool)
        ensures
            b == self.fits(g),
    {
        let mut j: usize = 0;
        while j < self.neurons.len()
            invariant
                j <= self.neurons@.len(),
                forall|t: int| 0 <= t < j ==> neuron_fits(#[trigger] self@[t], g@.len() as int),
            decreases self.neurons@.len() - j,
        {
            assert(self.neurons@[j as int]@ == self@[j as int]);
            if !self.neurons[j].belongs_to(g) {
                return false;
            }
            j += 1;
        }
        true
    }

    /// A layer of `nout` neurons of `nin` inputs each, drawn from `source`
    /// neuron after neuron. Exactly `nout * (nin + 1)` numbers are drawn, and
    /// each new leaf holds its draw.
    pub fn new<S: Scalar, R: Source<S>>(
        g: &mut Graph<S>,
        nin: u32,
        nout: u32,
        source: &mut Recorded<S, R>,
    ) -> (layer: Layer)
        requires
            old(g).wf(),
        ensures
            final(g).wf(),
            continued(old(source).drawn(), final(source).drawn(), nout * (nin + 1)),
            final(g)@ == with_leaves(
                old(g)@,
                drawn_since(old(source).drawn(), final(source).drawn()),
            ),
            layer@ == layer_at(old(g)@.len() as int, nin as int, nout as int),
            layer.fits(final(g)),
    {
        let ghost before = g@;
        let ghost start = source.drawn();
        let mut neurons: Vec<Neuron> = Vec::new();
        let mut j: u32 = 0;
        proof {
            assert(drawn_since(start, start) =~= Seq::<S>::empty());
            assert(g@ =~= with_leaves(before, drawn_since(start, start)));
            assert(start.take(start.len() as int) =~= start);
        }
        while j < nout
            invariant
                j <= nout,
                g.wf(),
                continued(start, source.drawn(), j * (nin + 1)),
                g@ == with_leaves(before, drawn_since(start, source.drawn())),
                neurons@.len() == j,
                forall|t: int|
                    0 <= t < j ==> (#[trigger] neurons@[t])@ == neuron_at(
                        before.len() + t * (nin + 1),
                        nin as int,
                    ),
            decreases nout - j,
        {
            let ghost middle = source.drawn();
            proof {
                assert(0 <= j * (nin + 1)) by (nonlinear_arith)
                    requires
                        0 <= j,
                        0 <= nin,
                ;
                assert((j + 1) * (nin + 1) == j * (nin + 1) + (nin + 1)) by (nonlinear_arith);
            }
            let neuron = Neuron::new(g, nin, source);
            neurons.push(neuron);
            proof {
                lemma_drawn_further(before, start, middle, source.drawn(), j * (nin + 1), nin + 1);
            }
            j += 1;
        }
        let layer = Layer { neurons };
        proof {
            assert(layer@ =~= layer_at(before.len() as int, nin as int, nout as int));
            assert forall|t: int| 0 <= t < layer@.len() implies neuron_fits(
                #[trigger] layer@[t],
                g@.len() as int,
            ) by {
                assert(0 <= t * (nin + 1)) by (nonlinear_arith)
                    requires
                        0 <= t,
                        0 <= nin,
                ;
                assert((t + 1) * (nin + 1) <= nout * (nin + 1)) by (nonlinear_arith)
                    requires
                        t + 1 <= nout,
                        0 <= nin,
                ;
                assert((t + 1) * (nin + 1) == t * (nin + 1) + (nin + 1)) by (nonlinear_arith);
            }
        }
        layer
    }

    /// The outputs of the layer on the inputs `x`: each neuron's output, in
    /// the order of the neurons.
    pub fn forward<S: Scalar>(&self, g: &mut Graph<S>, x: &Vec<Value>) -> (outs: Vec<Value>)
        requires
            old(g).wf(),
            self.fits(old(g)),
            all_fit(handles(x@), old(g)@.len() as int),
        ensures
            final(g).wf(),
            final(g)@ == layer_forward(old(g)@, self@, handles(x@), self@.len()),
            handles(outs@) == layer_outputs(old(g)@, self@, handles(x@)),
            all_fit(handles(outs@), final(g)@.len() as int),
            old(g)@.len() <= final(g)@.len(),
    {
        let ghost before = g@;
        let ghost xs = handles(x@);
        let mut outs: Vec<Value> = Vec::new();
        let mut j: usize = 0;
        while j < self.neurons.len()
            invariant
                j <= self.neurons@.len(),
                xs == handles(x@),
                layer_fits(self@, before.len() as int),
                all_fit(xs, before.len() as int),
                before.len() <= g@.len(),
                g.wf(),
                g@ == layer_forward(before, self@, xs, j as nat),
                outs@.len() == j,
                forall|t: int|
                    0 <= t < j ==> (#[trigger] outs@[t])@ == layer_forward(
                        before,
                        self@,
                        xs,
                        (t + 1) as nat,
                    ).len() - 1,
                forall|t: int| 0 <= t < j ==> 0 <= (#[trigger] outs@[t])@ < g@.len(),
            decreases self.neurons@.len() - j,
        {
            proof {
                assert(self.neurons@[j as int]@ == self@[j as int]);
                assert(neuron_fits(self@[j as int], before.len() as int));
                lemma_neuron_forward_len(g@, self@[j as int], xs);
            }
            let out = self.neurons[j].forward(g, x);
            outs.push(out);
            j += 1;
        }
        proof {
            assert(handles(outs@) =~= layer_outputs(before, self@, xs));
        }
        outs
    }
}

/// A multi-layer perceptron: layers in order, each fed with the outputs of the
/// one before it. Its view is the sequence of its layers.
#[derive(Debug)]
pub struct MLP {
    pub layers: Vec<Layer>,
}

impl View for MLP {
    type V = Seq<Seq<NeuronModel>>;

    closed spec fn view(&self) -> Seq<Seq<NeuronModel>> {
        Seq::new(self.layers@.len(), |i: int| self.layers@[i]@)
    }
}

/// The number of inputs of layer `i` in a network of `nin` inputs whose
/// layers have `nout[0]`, `nout[1]`, ... neurons: the size of the layer
/// before it.
pub open spec fn inputs_of(nin: u32, nout: Seq<u32>, i: int) -> int {
    if i == 0 {
        nin as int
    } else {
        nout[i - 1] as int
    }
}

/// The number of parameters of the first `n` layers of such a network: one
/// weight per input and one bias for each neuron.
pub open spec fn parameter_count(nin: u32, nout: Seq<u32>, n: nat) -> int
    decreases n,
{
    if n == 0 {
        0
    } else {
        parameter_count(nin, nout, (n - 1) as nat) + nout[n - 1] * (inputs_of(nin, nout, n - 1)
            + 1)
    }
}

/// The network whose parameters stand from `start` on, layer after layer.
pub open spec fn network_at(start: int, nin: u32, nout: Seq<u32>) -> Seq<Seq<NeuronModel>> {
    Seq::new(
        nout.len(),
        |i: int|
            layer_at(
                start + parameter_count(nin, nout, i as nat),
                inputs_of(nin, nout, i),
                nout[i] as int,
            ),
    )
}

/// Whether every handle of the network names one of the first `len` nodes.
pub open spec fn network_fits(layers: Seq<Seq<NeuronModel>>, len: int) -> bool {
    forall|i: int| 0 <= i < layers.len() ==> layer_fits(#[trigger] layers[i], len)
}

/// The graph and the activations once the first `n` layers have run: the
/// inputs `x` go to the first layer, and the outputs of each layer to the
/// next.
pub open spec fn network_forward<S: Scalar>(
    nodes: Seq<NodeModel<S>>,
    layers: Seq<Seq<NeuronModel>>,
    x: Seq<int>,
    n: nat,
) -> (Seq<NodeModel<S>>, Seq<int>)
    decreases n,
{
    if n == 0 {
        (nodes, x)
    } else {
        let (sofar, activations) = network_forward(nodes, layers, x, (n - 1) as nat);
        (
            layer_forward(sofar, layers[n - 1], activations, layers[n - 1].len()),
            layer_outputs(sofar, layers[n - 1], activations),
        )
    }
}

/// The number of parameters is never negative.
pub proof fn lemma_parameter_count_nonnegative(nin: u32, nout: Seq<u32>, n: nat)
    ensures
        0 <= parameter_count(nin, nout, n),
    decreases n,
{
    if n > 0 {
        lemma_parameter_count_nonnegative(nin, nout, (n - 1) as nat);
        let k = inputs_of(nin, nout, n - 1) + 1;
        assert(0 <= nout[n - 1] * k) by (nonlinear_arith)
            requires
                0 <= nout[n - 1],
                0 <= k,
        ;
    }
}

/// A layer that fits a graph fits every longer one.
pub proof fn lemma_layer_fits_longer(layer: Seq<NeuronModel>, len: int, longer: int)
    requires
        layer_fits(layer, len),
        len <= longer,
    ensures
        layer_fits(layer, longer),
{
    assert forall|j: int| 0 <= j < layer.len() implies neuron_fits(#[trigger] layer[j], longer) by {
        assert(neuron_fits(layer[j], len));
    }
}

/// A network that fits a graph fits every longer one.
pub proof fn lemma_network_fits_longer(layers: Seq<Seq<NeuronModel>>, len: int, longer: int)
    requires
        network_fits(layers, len),
        len <= longer,
    ensures
        network_fits(layers, longer),
{
    assert forall|i: int| 0 <= i < layers.len() implies layer_fits(#[trigger] layers[i], longer) by {
        lemma_layer_fits_longer(layers[i], len, longer);
    }
}

fn copied(x: &Vec<Value>) -> (r: Vec<Value>)
    ensures
        r@ == x@,
{
    let mut r: Vec<Value> = Vec::new();
    let mut s: usize = 0;
    while s < x.len()
        invariant
            s <= x@.len(),
            r@ == x@.take(s as int),
        decreases x@.len() - s,
    {
        r.push(x[s]);
        assert(x@.take(s + 1) =~= x@.take(s as int).push(x@[s as int]));
        s += 1;
    }
    assert(x@.take(s as int) =~= x@);
    r
}

impl MLP {
    /// Whether every handle of this network names a node of `g`.
    pub open spec fn fits<S: Scalar>(&self, g: &Graph<S>) -> bool {
        network_fits(self@, g@.len() as int)
    }

    /// The number of layers.
    pub fn depth(&self) -> (n: usize)
        ensures
            n == self@.len(),
    {
        self.layers.len()
    }

    /// Whether every handle of this network names a node of `g`.
    pub fn belongs_to<S: Scalar>(&self, g: &Graph<S>) -> (b: bool)
        ensures
            b == self.fits(g),
    {
        let mut i: usize = 0;
        while i < self.layers.len()
            invariant
                i <= self.layers@.len(),
                forall|t: int| 0 <= t < i ==> layer_fits(#[trigger] self@[t], g@.len() as int),
            decreases self.layers@.len() - i,
        {
            assert(self.layers@[i as int]@ == self@[i as int]);
            if !self.layers[i].belongs_to(g) {
                return false;
            }
            i += 1;
        }
        true
    }

    /// A network of `nin` inputs with one layer of `nout[i]` neurons for each
    /// `i`, in order; the inputs of a layer are as many as the neurons of the
    /// layer before it. All parameters are drawn from `source`, layer after
    /// layer: exactly as many numbers as the network has parameters, and each
    /// new leaf holds its draw.
    pub fn new<S: Scalar, R: Source<S>>(
        g: &mut Graph<S>,
        nin: u32,
        nout: &Vec<u32>,
        source: &mut Recorded<S, R>,
    ) -> (mlp: MLP)
        requires
            old(g).wf(),
        ensures
            final(g).wf(),
            continued(
                old(source).drawn(),
                final(source).drawn(),
                parameter_count(nin, nout@, nout@.len()),
            ),
            final(g)@ == with_leaves(
                old(g)@,
                drawn_since(old(source).drawn(), final(source).drawn()),
            ),
            mlp@ == network_at(old(g)@.len() as int, nin, nout@),
            mlp.fits(final(g)),
    {
        let ghost before = g@;
        let ghost start = source.drawn();
        let mut layers: Vec<Layer> = Vec::new();
        let mut inputs = nin;
        let mut i: usize = 0;
        proof {
            assert(drawn_since(start, start) =~= Seq::<S>::empty());
            assert(g@ =~= with_leaves(before, drawn_since(start, start)));
            assert(start.take(start.len() as int) =~= start);
        }
        while i < nout.len()
            invariant
                i <= nout@.len(),
                inputs == inputs_of(nin, nout@, i as int),
                g.wf(),
                continued(start, source.drawn(), parameter_count(nin, nout@, i as nat)),
                g@ == with_leaves(before, drawn_since(start, source.drawn())),
                layers@.len() == i,
                forall|t: int|
                    0 <= t < i ==> (#[trigger] layers@[t])@ == layer_at(
                        before.len() + parameter_count(nin, nout@, t as nat),
                        inputs_of(nin, nout@, t),
                        nout@[t] as int,
                    ),
                forall|t: int| 0 <= t < i ==> layer_fits((#[trigger] layers@[t])@, g@.len() as int),
            decreases nout@.len() - i,
        {
            let ghost middle = source.drawn();
            let ghost shorter = g@.len();
            proof {
                lemma_parameter_count_nonnegative(nin, nout@, i as nat);
                lemma_parameter_count_nonnegative(nin, nout@, (i + 1) as nat);
            }
            let layer = Layer::new(g, inputs, nout[i], source);
            proof {
                lemma_drawn_further(
                    before,
                    start,
                    middle,
                    source.drawn(),
                    parameter_count(nin, nout@, i as nat),
                    nout@[i as int] * (inputs + 1),
                );
                assert forall|t: int| 0 <= t < i implies layer_fits(
                    (#[trigger] layers@[t])@,
                    g@.len() as int,
                ) by {
                    lemma_layer_fits_longer(layers@[t]@, shorter as int, g@.len() as int);
                }
            }
            layers.push(layer);
            inputs = nout[i];
            i += 1;
        }
        let mlp = MLP { layers };
        proof {
            assert(mlp@ =~= network_at(before.len() as int, nin, nout@));
        }
        mlp
    }

    /// The outputs of the last layer when the inputs `x` are fed to the
    /// first. The network has at least one layer.
    pub fn forward<S: Scalar>(&self, g: &mut Graph<S>, x: &Vec<Value>) -> (outs: Vec<Value>)
        requires
            old(g).wf(),
            self@.len() > 0,
            self.fits(old(g)),
            all_fit(handles(x@), old(g)@.len() as int),
        ensures
            final(g).wf(),
            old(g)@.len() <= final(g)@.len(),
            (final(g)@, handles(outs@)) == network_forward(
                old(g)@,
                self@,
                handles(x@),
                self@.len(),
            ),
            all_fit(handles(outs@), final(g)@.len() as int),
    {
        let ghost before = g@;
        let ghost xs = handles(x@);
        let mut activations = copied(x);
        let mut i: usize = 0;
        while i < self.layers.len()
            invariant
                i <= self.layers@.len(),
                network_fits(self@, before.len() as int),
                before.len() <= g@.len(),
                g.wf(),
                all_fit(handles(activations@), g@.len() as int),
                (g@, handles(activations@)) == network_forward(before, self@, xs, i as nat),
            decreases self.layers@.len() - i,
        {
            proof {
                assert(self.layers@[i as int]@ == self@[i as int]);
                lemma_layer_fits_longer(self@[i as int], before.len() as int, g@.len() as int);
            }
            activations = self.layers[i].forward(g, &activations);
            i += 1;
        }
        activations
    }
}

} // verus!
