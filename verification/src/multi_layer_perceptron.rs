use vstd::prelude::*;

use crate::neuron::{all_below, ids_increasing, is_leaf_without_gradient, layer_applied, lemma_parameter_owner, parameters_of, Layer};
use crate::random::{drew, lemma_drew_concat, lemma_drew_nothing, SeededDistribution};
use crate::training::{calculate_loss_from_outputs_and_targets, loss_built};
use crate::scalar::Scalar;
use crate::value::{
    backpropagated, cleared, extends, lemma_numbers_from_split, lemma_reaches_prefix, numbers_from, lemma_same_operations, lemma_reaches_transitive, operations_of, reaches, same_but_values,
    stepped, well_formed, without_gradients_below, lemma_cleared_backprop_is_fresh, Graph, Value, ValueInner,
    ValueOperation,
};

verus! {

/// Layers of neurons, each reading the outputs of the one before.
pub struct MultiLayerPerceptron {
    layers: Vec<Layer>,
}

/// The parameters of the layers, one layer after the other.
pub open spec fn parameters_of_layers(layers: Seq<Layer>) -> Seq<Value>
    decreases layers.len(),
{
    if layers.len() == 0 {
        seq![]
    } else {
        parameters_of_layers(layers.drop_last()) + layers.last().parameters_spec()
    }
}

/// The number of parameters of the first `n` layers of a network of layer
/// sizes `sizes`: each layer has, per neuron, one weight per input and a bias.
pub open spec fn parameter_count(sizes: Seq<usize>, n: nat) -> nat
    decreases n,
{
    if n == 0 {
        0
    } else {
        parameter_count(sizes, (n - 1) as nat) + (sizes[n as int] * (sizes[n - 1] + 1)) as nat
    }
}

/// Each parameter of a network is a parameter of one of its layers.
pub proof fn lemma_layer_owner(layers: Seq<Layer>, k: int)
    requires
        0 <= k < parameters_of_layers(layers).len(),
    ensures
        exists|l: int, m: int|
            0 <= l < layers.len() && 0 <= m < layers[l].parameters_spec().len()
                && parameters_of_layers(layers)[k] == #[trigger] layers[l].parameters_spec()[m],
    decreases layers.len(),
{
    let front = layers.drop_last();
    if k < parameters_of_layers(front).len() {
        lemma_layer_owner(front, k);
        let (l, m) = choose|l: int, m: int|
            0 <= l < front.len() && 0 <= m < front[l].parameters_spec().len()
                && parameters_of_layers(front)[k] == #[trigger] front[l].parameters_spec()[m];
        assert(layers[l] == front[l]);
    } else {
        let m = k - parameters_of_layers(front).len();
        assert(parameters_of_layers(layers)[k] == layers[layers.len() - 1].parameters_spec()[m]);
    }
}

/// The nodes that applying `layers` to `input` made from node `bases[0]` on:
/// `activations[l]` is what layer `l` read, and layer `l` made the nodes from
/// `bases[l]` to `bases[l + 1]`.
pub open spec fn network_applied<S: Scalar>(
    g: Seq<crate::value::ValueInner<S>>,
    layers: Seq<Layer>,
    activations: Seq<Seq<Value>>,
    bases: Seq<int>,
) -> bool {
    &&& activations.len() == layers.len() + 1
    &&& bases.len() == layers.len() + 1
    &&& bases[layers.len() as int] == g.len()
    &&& forall|l: int|
        0 <= l < layers.len() ==> layer_applied(
            g.subrange(0, bases[l + 1]),
            bases[l],
            activations[l],
            (#[trigger] layers[l]).neurons_spec(),
            activations[l + 1],
        )
}

impl MultiLayerPerceptron {
    /// Each layer reads what the layer before gives, and the parameters are
    /// distinct nodes, made in the order in which they are listed.
    #[verifier::type_invariant]
    spec fn shape_holds(self) -> bool {
        &&& self.chained()
        &&& ids_increasing(self.parameters_spec())
    }

    /// The layers, in order.
    pub closed spec fn layers_spec(self) -> Seq<Layer> {
        self.layers@
    }

    /// Each layer reads as many inputs as the layer before it has outputs.
    pub open spec fn chained(self) -> bool {
        forall|l: int|
            0 <= l < self.layers_spec().len() - 1 ==> (#[trigger] self.layers_spec()[l + 1]).reads(
                self.layers_spec()[l].output_size(),
            )
    }

    /// The network reads `n` inputs.
    pub open spec fn reads(self, n: nat) -> bool {
        self.layers_spec().len() == 0 || self.layers_spec()[0].reads(n)
    }

    /// The network's leaves lie in a graph of `len` nodes.
    pub open spec fn valid_in(self, len: nat) -> bool {
        forall|l: int| 0 <= l < self.layers_spec().len() ==> (#[trigger] self.layers_spec()[l]).valid_in(len)
    }

    /// The parameters of the layers, one layer after the other.
    pub open spec fn parameters_spec(self) -> Seq<Value> {
        parameters_of_layers(self.layers_spec())
    }

    /// No layer without neurons comes after a layer with neurons, so every
    /// parameter influences some output.
    pub open spec fn feeds_forward(self) -> bool {
        forall|l: int, m: int|
            0 <= l < m < self.layers_spec().len() && (#[trigger] self.layers_spec()[l]).output_size() > 0
                ==> (#[trigger] self.layers_spec()[m]).output_size() > 0
    }

    /// A network with one layer per consecutive pair of `sizes`: layer `l`
    /// reads `sizes[l]` inputs and has `sizes[l + 1]` neurons. The layers are
    /// made in order.
    pub fn new<S: Scalar, D: SeededDistribution<S>>(
        graph: &mut Graph<S>,
        sizes: &[usize],
        randomness: &mut D,
    ) -> (network: MultiLayerPerceptron)
        requires
            old(graph).wf(),
        ensures
            final(graph).wf(),
            extends(final(graph)@, old(graph)@),
            network.layers_spec().len() == if sizes@.len() == 0 { 0 } else { sizes@.len() - 1 },
            forall|l: int|
                0 <= l < network.layers_spec().len() ==> (#[trigger] network.layers_spec()[l]).reads(
                    sizes@[l] as nat,
                ) && network.layers_spec()[l].output_size() == sizes@[l + 1],
            network.chained(),
            network.valid_in(final(graph)@.len()),
            final(graph)@.len() == old(graph)@.len() + network.parameters_spec().len(),
            network.parameters_spec().len() == parameter_count(sizes@, network.layers_spec().len()),
            forall|k: int|
                0 <= k < network.parameters_spec().len() ==> (#[trigger] network.parameters_spec()[k]).id
                    == old(graph)@.len() + k,
            forall|k: int|
                0 <= k < network.parameters_spec().len() ==> is_leaf_without_gradient(
                    final(graph)@,
                    (#[trigger] network.parameters_spec()[k]).id as int,
                ),
            drew(*old(randomness), numbers_from(final(graph)@, old(graph)@.len() as int), *final(randomness)),
    {
        let ghost base = old(graph)@.len() as int;
        let mut layers: Vec<Layer> = Vec::new();
        let count: usize = if sizes.len() == 0 { 0 } else { sizes.len() - 1 };
        let mut i: usize = 0;
        proof {
            lemma_drew_nothing::<S, D>(*randomness);
            assert(numbers_from(graph@, base as int) =~= Seq::<S>::empty());
        }
        while i < count
            invariant
                i <= count,
                count == if sizes@.len() == 0 { 0 } else { sizes@.len() - 1 },
                base == old(graph)@.len(),
                graph.wf(),
                extends(graph@, old(graph)@),
                layers@.len() == i,
                forall|l: int|
                    0 <= l < i ==> (#[trigger] layers@[l]).reads(sizes@[l] as nat) && layers@[l].output_size()
                        == sizes@[l + 1],
                forall|l: int| 0 <= l < i ==> (#[trigger] layers@[l]).valid_in(graph@.len()),
                graph@.len() == base + parameters_of_layers(layers@).len(),
                parameters_of_layers(layers@).len() == parameter_count(sizes@, i as nat),
                forall|k: int|
                    0 <= k < parameters_of_layers(layers@).len() ==> (#[trigger] parameters_of_layers(
                        layers@,
                    )[k]).id == base + k,
                forall|k: int|
                    0 <= k < parameters_of_layers(layers@).len() ==> is_leaf_without_gradient(
                        graph@,
                        (#[trigger] parameters_of_layers(layers@)[k]).id as int,
                    ),
                drew(*old(randomness), numbers_from(graph@, base as int), *randomness),
            decreases count - i,
        {
            let ghost before = graph@;
            let ghost before_layers = layers@;
            let ghost before_randomness = *randomness;
            let layer = Layer::new(graph, sizes[i], sizes[i + 1], randomness);
            layers.push(layer);
            proof {
                lemma_numbers_from_split(graph@, before, base as int);
                lemma_drew_concat(
                    *old(randomness),
                    numbers_from(before, base as int),
                    before_randomness,
                    numbers_from(graph@, before.len() as int),
                    *randomness,
                );
                assert(layers@.drop_last() =~= before_layers);
                let params = parameters_of_layers(layers@);
                let old_count = parameters_of_layers(before_layers).len();
                assert(params == parameters_of_layers(before_layers) + layer.parameters_spec());
                assert forall|l: int| 0 <= l < i + 1 implies (#[trigger] layers@[l]).valid_in(graph@.len()) by {
                    if l < i {
                        let old_layer = layers@[l];
                        assert(old_layer == before_layers[l]);
                        assert(old_layer.valid_in(before.len()));
                        assert forall|j: int| 0 <= j < old_layer.neurons_spec().len() implies (
                        #[trigger] old_layer.neurons_spec()[j]).valid_in(graph@.len()) by {
                            let n = old_layer.neurons_spec()[j];
                            assert(n.valid_in(before.len()));
                            assert forall|m: int| 0 <= m < n.parameters_spec().len() implies (
                            #[trigger] n.parameters_spec()[m]).id < graph@.len() by {}
                        }
                    }
                }
                assert forall|k: int| 0 <= k < params.len() implies (#[trigger] params[k]).id == base + k by {
                    if k >= old_count {
                        assert(params[k] == layer.parameters_spec()[k - old_count]);
                    }
                }
                assert forall|k: int| 0 <= k < params.len() implies is_leaf_without_gradient(
                    graph@,
                    (#[trigger] params[k]).id as int,
                ) by {
                    if k >= old_count {
                        assert(params[k] == layer.parameters_spec()[k - old_count]);
                    } else {
                        assert(params[k] == parameters_of_layers(before_layers)[k]);
                        assert(is_leaf_without_gradient(before, parameters_of_layers(before_layers)[k].id as int));
                    }
                }
            }
            i = i + 1;
        }
        let network = MultiLayerPerceptron { layers };
        proof {
            assert(network.parameters_spec() == parameters_of_layers(layers@));
        }
        network
    }

    /// The number of outputs the network gives for `n` inputs.
    pub open spec fn output_size_for(self, n: nat) -> nat {
        if self.layers_spec().len() == 0 {
            n
        } else {
            self.layers_spec().last().output_size()
        }
    }

    /// Applies the layers to `input` in order, each to the outputs of the
    /// one before; returns the last outputs (`input` itself when there is no
    /// layer). Under `feeds_forward`, every parameter influences an output.
    pub fn infer<S: Scalar>(&self, graph: &mut Graph<S>, input: &[Value]) -> (outputs: Vec<Value>)
        requires
            old(graph).wf(),
            self.valid_in(old(graph)@.len()),
            self.reads(input@.len()),
            all_below(input@, old(graph)@.len()),
        ensures
            final(graph).wf(),
            extends(final(graph)@, old(graph)@),
            outputs@.len() == self.output_size_for(input@.len()),
            all_below(outputs@, final(graph)@.len()),
            exists|activations: Seq<Seq<Value>>, bases: Seq<int>|
                {
                    &&& #[trigger] network_applied(final(graph)@, self.layers_spec(), activations, bases)
                    &&& activations[0] == input@
                    &&& bases[0] == old(graph)@.len()
                    &&& activations[self.layers_spec().len() as int] == outputs@
                },
            self.feeds_forward() ==> forall|k: int|
                0 <= k < self.parameters_spec().len() ==> reaches_some(
                    operations_of(final(graph)@),
                    outputs@,
                    #[trigger] self.parameters_spec()[k],
                ),
    {
        proof {
            use_type_invariant(self);
        }
        let mut activation: Vec<Value> = Vec::new();
        let mut j: usize = 0;
        while j < input.len()
            invariant
                j <= input@.len(),
                activation@ == input@.subrange(0, j as int),
            decreases input@.len() - j,
        {
            activation.push(input[j]);
            j = j + 1;
        }
        proof {
            assert(input@.subrange(0, input@.len() as int) =~= input@);
        }
        let ghost mut activations: Seq<Seq<Value>> = seq![input@];
        let ghost mut bases: Seq<int> = seq![old(graph)@.len() as int];
        let ghost layers = self.layers@;
        let mut i: usize = 0;
        while i < self.layers.len()
            invariant
                i <= layers.len(),
                layers == self.layers@,
                layers == self.layers_spec(),
                self.valid_in(old(graph)@.len()),
                self.chained(),
                self.reads(input@.len()),
                all_below(input@, old(graph)@.len()),
                graph.wf(),
                extends(graph@, old(graph)@),
                all_below(activation@, graph@.len()),
                i == 0 ==> activation@ == input@,
                i > 0 ==> activation@.len() == layers[i - 1].output_size(),
                activations.len() == i + 1,
                bases.len() == i + 1,
                activations[0] == input@,
                bases[0] == old(graph)@.len(),
                activations[i as int] == activation@,
                bases[i as int] == graph@.len(),
                forall|a: int, b: int| 0 <= a <= b <= i ==> #[trigger] bases[a] <= #[trigger] bases[b],
                forall|l: int|
                    0 <= l < i ==> layer_applied(
                        graph@.subrange(0, bases[l + 1]),
                        bases[l],
                        activations[l],
                        (#[trigger] layers[l]).neurons_spec(),
                        activations[l + 1],
                    ),
                forall|l: int, k: int|
                    #![trigger layers[l].parameters_spec()[k]]
                    0 <= l < i && 0 <= k < layers[l].parameters_spec().len() && later_layers_nonempty(layers, l, i as int)
                        ==> reaches_some(operations_of(graph@), activation@, layers[l].parameters_spec()[k]),
            decreases layers.len() - i,
        {
            let ghost before = graph@;
            let ghost before_activation = activation@;
            let layer = &self.layers[i];
            proof {
                assert(layers[i as int] == *layer);
                assert(layer.valid_in(old(graph)@.len()));
                assert forall|jn: int| 0 <= jn < layer.neurons_spec().len() implies (
                #[trigger] layer.neurons_spec()[jn]).valid_in(before.len()) by {
                    let n = layer.neurons_spec()[jn];
                    assert(n.valid_in(old(graph)@.len()));
                    assert forall|m: int| 0 <= m < n.parameters_spec().len() implies (
                    #[trigger] n.parameters_spec()[m]).id < before.len() by {}
                }
                if i > 0 {
                    assert(layers[i - 1 + 1].reads(layers[i - 1].output_size()));
                }
            }
            let next = layer.infer(graph, activation.as_slice());
            proof {
                let ops_before = operations_of(before);
                let ops = operations_of(graph@);
                assert forall|q: int| 0 <= q < ops_before.len() implies #[trigger] ops[q] == ops_before[q] by {
                    assert(graph@[q] == before[q]);
                }
                let new_activations = activations.push(next@);
                let new_bases = bases.push(graph@.len() as int);
                assert forall|l: int|
                    0 <= l < i + 1 implies layer_applied(
                    graph@.subrange(0, new_bases[l + 1]),
                    new_bases[l],
                    new_activations[l],
                    (#[trigger] layers[l]).neurons_spec(),
                    new_activations[l + 1],
                ) by {
                    if l < i {
                        assert(new_bases[l + 1] <= before.len()) by {
                            assert(bases[l + 1] <= bases[i as int]);
                        }
                        assert(graph@.subrange(0, new_bases[l + 1]) =~= before.subrange(0, bases[l + 1]));
                    } else {
                        assert(graph@.subrange(0, new_bases[l + 1]) =~= graph@);
                    }
                }
                lemma_reach_after_layer(ops_before, ops, layers, i as int, before_activation, next@);
                activations = new_activations;
                bases = new_bases;
            }
            activation = next;
            i = i + 1;
        }
        proof {
            assert(network_applied(graph@, self.layers_spec(), activations, bases));
            if self.feeds_forward() {
                assert forall|k: int| 0 <= k < self.parameters_spec().len() implies reaches_some(operations_of(graph@), activation@, (#[trigger] self.parameters_spec()[k])) by {
                    lemma_layer_owner(layers, k);
                    let (l, m) = choose|l: int, m: int|
                        0 <= l < layers.len() && 0 <= m < layers[l].parameters_spec().len()
                            && parameters_of_layers(layers)[k] == #[trigger] layers[l].parameters_spec()[m];
                    if layers[l].output_size() == 0 {
                        assert(layers[l].neurons_spec() =~= Seq::<crate::neuron::Neuron>::empty());
                        assert(parameters_of(layers[l].neurons_spec()).len() == 0);
                    }
                    assert(later_layers_nonempty(layers, l, layers.len() as int));
                }
            }
        }
        activation
    }

    /// Moves every parameter against its gradient: each one's number becomes
    /// itself minus `learning_rate` times its gradient. Every parameter needs
    /// a gradient.
    pub fn step_all_parameters_by_learning_rate<S: Scalar>(&self, graph: &mut Graph<S>, learning_rate: S)
        requires
            old(graph).wf(),
            self.valid_in(old(graph)@.len()),
            forall|k: int|
                0 <= k < self.parameters_spec().len() ==> old(graph)@[(#[trigger] self.parameters_spec()[k]).id as int].gradient is Some,
        ensures
            final(graph).wf(),
            same_but_values(final(graph)@, old(graph)@),
            forall|k: int|
                0 <= k < self.parameters_spec().len() ==> stepped(
                    old(graph)@[(#[trigger] self.parameters_spec()[k]).id as int],
                    final(graph)@[self.parameters_spec()[k].id as int],
                    learning_rate,
                ),
            forall|i: int|
                0 <= i < old(graph)@.len() && !is_parameter(self.parameters_spec(), i) ==> #[trigger] final(graph)@[i]
                    == old(graph)@[i],
    {
        proof {
            use_type_invariant(self);
            self.lemma_parameters_below(old(graph)@.len());
        }
        let params = self.parameters();
        let mut k: usize = 0;
        while k < params.len()
            invariant
                k <= params@.len(),
                params@ == self.parameters_spec(),
                ids_increasing(params@),
                all_below(params@, old(graph)@.len()),
                forall|j: int| 0 <= j < params@.len() ==> old(graph)@[(#[trigger] params@[j]).id as int].gradient is Some,
                graph.wf(),
                same_but_values(graph@, old(graph)@),
                forall|j: int|
                    0 <= j < k ==> stepped(
                        old(graph)@[(#[trigger] params@[j]).id as int],
                        graph@[params@[j].id as int],
                        learning_rate,
                    ),
                forall|i: int|
                    0 <= i < old(graph)@.len() && !is_parameter(params@.subrange(0, k as int), i) ==> #[trigger] graph@[i]
                        == old(graph)@[i],
            decreases params@.len() - k,
        {
            let ghost before = graph@;
            let p = params[k];
            proof {
                assert(!is_parameter(params@.subrange(0, k as int), p.id as int)) by {
                    if is_parameter(params@.subrange(0, k as int), p.id as int) {
                        let j = choose|j: int| 0 <= j < k && (#[trigger] params@.subrange(0, k as int)[j]).id == p.id;
                        assert(params@[j].id < params@[k as int].id);
                    }
                }
                assert(before[p.id as int] == old(graph)@[p.id as int]);
            }
            p.step_value(graph, learning_rate);
            proof {
                assert forall|j: int| 0 <= j < k + 1 implies stepped(
                    old(graph)@[(#[trigger] params@[j]).id as int],
                    graph@[params@[j].id as int],
                    learning_rate,
                ) by {
                    if j < k {
                        assert(params@[j].id < params@[k as int].id);
                    }
                }
                assert forall|i: int|
                    0 <= i < old(graph)@.len() && !is_parameter(params@.subrange(0, k + 1), i) implies #[trigger] graph@[i]
                    == old(graph)@[i] by {
                    if i != p.id {
                        if is_parameter(params@.subrange(0, k as int), i) {
                            let j = choose|j: int| 0 <= j < k && (#[trigger] params@.subrange(0, k as int)[j]).id == i;
                            assert(params@.subrange(0, k + 1)[j].id == i);
                        }
                    } else {
                        assert(params@.subrange(0, k + 1)[k as int].id == i);
                    }
                }
            }
            k = k + 1;
        }
        proof {
            assert(params@.subrange(0, params@.len() as int) =~= params@);
        }
    }

    /// The network can be trained on `input` against `target` in a graph of
    /// `len` nodes: it reads as many inputs, both lie in the graph, and the
    /// target has as many values as the network gives outputs.
    pub open spec fn example_fits(self, input: Seq<Value>, target: Seq<Value>, len: nat) -> bool {
        &&& self.reads(input.len())
        &&& all_below(input, len)
        &&& all_below(target, len)
        &&& target.len() == self.output_size_for(input.len())
    }

    /// A network valid in a graph stays valid as the graph grows.
    pub proof fn lemma_valid_grows(&self, len: nat, bigger: nat)
        requires
            self.valid_in(len),
            len <= bigger,
        ensures
            self.valid_in(bigger),
    {
        assert forall|l: int| 0 <= l < self.layers_spec().len() implies (#[trigger] self.layers_spec()[l]).valid_in(bigger) by {
            let layer = self.layers_spec()[l];
            assert(layer.valid_in(len));
            assert forall|j: int| 0 <= j < layer.neurons_spec().len() implies (#[trigger] layer.neurons_spec()[j]).valid_in(bigger) by {
                let n = layer.neurons_spec()[j];
                assert(n.valid_in(len));
                assert forall|m: int| 0 <= m < n.parameters_spec().len() implies (#[trigger] n.parameters_spec()[m]).id < bigger by {}
            }
        }
    }

    /// One round of training: for each pair of inputs and targets (as many as
    /// the shorter list holds), the network's outputs for the inputs and their
    /// loss against the targets; the sum of the losses, from a zero leaf
    /// labelled "Total Loss"; its gradients cleared, then backpropagated from
    /// 1; every parameter then stepped by `learning_rate`. Returns the sum.
    #[verifier::rlimit(40)]
    #[verifier::spinoff_prover]
    pub fn train_iteration<S: Scalar>(
        &self,
        graph: &mut Graph<S>,
        learning_rate: S,
        inputs: &[&[Value]],
        targets: &[&[Value]],
    ) -> (total_loss: Value)
        requires
            old(graph).wf(),
            self.valid_in(old(graph)@.len()),
            forall|e: int|
                0 <= e < inputs@.len() && e < targets@.len() ==> self.example_fits(
                    #[trigger] inputs@[e]@,
                    targets@[e]@,
                    old(graph)@.len(),
                ),
            if inputs@.len() > 0 && targets@.len() > 0 {
                self.feeds_forward()
            } else {
                forall|k: int|
                    0 <= k < self.parameters_spec().len() ==> old(graph)@[(#[trigger] self.parameters_spec()[
                        k
                    ]).id as int].gradient is Some
            },
        ensures
            final(graph).wf(),
            trained_round(self.parameters_spec(), old(graph)@, final(graph)@, total_loss, learning_rate),
            round_trained(
                self.layers_spec(),
                self.parameters_spec(),
                example_views(inputs@),
                example_views(targets@),
                old(graph)@,
                final(graph)@,
                total_loss,
                learning_rate,
            ),
    {
        proof {
            use_type_invariant(self);
            self.lemma_parameters_below(old(graph)@.len());
        }
        let ghost base = old(graph)@.len();
        let ghost params = self.parameters_spec();
        let zero = S::from_integer(0);
        let start = Value::leaf(graph, zero);
        let mut total_loss = start.with_label(graph, "Total Loss");
        let ghost layers = self.layers_spec();
        let ghost ins = example_views(inputs@);
        let ghost tgts = example_views(targets@);
        let ghost mut totals: Seq<Value> = seq![total_loss];
        let examples: usize = if inputs.len() < targets.len() { inputs.len() } else { targets.len() };
        let mut e: usize = 0;
        while e < examples
            invariant
                e <= examples,
                examples <= inputs@.len(),
                examples <= targets@.len(),
                examples == inputs@.len() || examples == targets@.len(),
                base == old(graph)@.len(),
                params == self.parameters_spec(),
                self.valid_in(old(graph)@.len()),
                all_below(params, base),
                forall|e2: int|
                    0 <= e2 < inputs@.len() && e2 < targets@.len() ==> self.example_fits(
                        #[trigger] inputs@[e2]@,
                        targets@[e2]@,
                        old(graph)@.len(),
                    ),
                e == 0 ==> graph@[total_loss.id as int].operation == crate::value::ValueOperation::Leaf,
                examples > 0 ==> self.feeds_forward(),
                graph.wf(),
                extends(graph@, old(graph)@),
                base <= total_loss.id < graph@.len(),
                e == 0 ==> total_loss.id == base,
                graph@.len() == total_loss.id + 1,
                layers == self.layers_spec(),
                ins == example_views(inputs@),
                tgts == example_views(targets@),
                totals.len() == e + 1,
                totals.last() == total_loss,
                losses_summed(layers, graph@, base as int, ins, tgts, totals),
                e > 0 ==> forall|k: int|
                    0 <= k < params.len() ==> reaches(
                        operations_of(graph@),
                        total_loss.id as nat,
                        (#[trigger] params[k]).id as nat,
                        false,
                    ),
            decreases examples - e,
        {
            let ghost before = graph@;
            let ghost before_total = total_loss;
            proof {
                self.lemma_valid_grows(old(graph)@.len(), graph@.len());
                assert(self.example_fits(inputs@[e as int]@, targets@[e as int]@, old(graph)@.len()));
            }
            let output = self.infer(graph, inputs[e]);
            let ghost after_infer = graph@;
            let loss = calculate_loss_from_outputs_and_targets(graph, output.as_slice(), targets[e]);
            let ghost after_loss = graph@;
            let sum = total_loss.add(graph, loss);
            total_loss = sum.with_label(graph, "Ex Loss Accumulation");
            proof {
                let (acts, bs) = choose|a: Seq<Seq<Value>>, b: Seq<int>|
                    {
                        &&& #[trigger] network_applied(after_infer, layers, a, b)
                        &&& a[0] == inputs@[e as int]@
                        &&& b[0] == before.len()
                        &&& a[layers.len() as int] == output@
                    };
                assert(after_infer =~= graph@.subrange(0, bs[layers.len() as int]));
                assert(after_loss =~= graph@.subrange(0, total_loss.id as int));
                assert(ins[e as int] == inputs@[e as int]@);
                assert(tgts[e as int] == targets@[e as int]@);
                assert(example_loss_added(layers, graph@, before.len() as int, ins[e as int], tgts[e as int], before_total, total_loss));
                let new_totals = totals.push(total_loss);
                assert(new_totals.drop_last() =~= totals);
                assert(before =~= graph@.subrange(0, before_total.id + 1));
                assert(losses_summed(layers, graph@, base as int, ins, tgts, new_totals));
                totals = new_totals;
            }
            proof {
                let ops = operations_of(graph@);
                let ops_infer = operations_of(after_infer);
                let ops_loss = operations_of(after_loss);
                let ops_before = operations_of(before);
                assert forall|q: int| 0 <= q < ops_infer.len() implies #[trigger] ops[q] == ops_infer[q] by {
                    assert(graph@[q] == after_infer[q]);
                }
                assert forall|q: int| 0 <= q < ops_loss.len() implies #[trigger] ops[q] == ops_loss[q] by {
                    assert(graph@[q] == after_loss[q]);
                }
                assert forall|q: int| 0 <= q < ops_before.len() implies #[trigger] ops[q] == ops_before[q] by {
                    assert(graph@[q] == before[q]);
                }
                assert(ops[total_loss.id as int] == crate::value::ValueOperation::Addition(before_total, loss));
                assert(reaches(ops, loss.id as nat, loss.id as nat, false));
                assert(reaches(ops, total_loss.id as nat, loss.id as nat, false));
                assert(reaches(ops, before_total.id as nat, before_total.id as nat, false));
                assert(reaches(ops, total_loss.id as nat, before_total.id as nat, false));
                assert forall|k: int| 0 <= k < params.len() implies reaches(
                    ops,
                    total_loss.id as nat,
                    (#[trigger] params[k]).id as nat,
                    false,
                ) by {
                    let p = params[k];
                    if e > 0 {
                        lemma_reaches_prefix(ops, ops_before, before_total.id as nat, p.id as nat, false);
                        lemma_reaches_transitive(ops, total_loss.id as nat, before_total.id as nat, p.id as nat, false);
                    } else {
                        assert(reaches_some(ops_infer, output@, p));
                        let q = choose|q: int|
                            0 <= q < output@.len() && #[trigger] reaches(ops_infer, output@[q].id as nat, p.id as nat, false);
                        lemma_reaches_prefix(ops, ops_infer, output@[q].id as nat, p.id as nat, false);
                        assert(reaches(ops_loss, loss.id as nat, output@[q].id as nat, false));
                        lemma_reaches_prefix(ops, ops_loss, loss.id as nat, output@[q].id as nat, false);
                        lemma_reaches_transitive(ops, loss.id as nat, output@[q].id as nat, p.id as nat, false);
                        lemma_reaches_transitive(ops, total_loss.id as nat, loss.id as nat, p.id as nat, false);
                    }
                }
            }
            e = e + 1;
        }
        let ghost before_zero = graph@;
        total_loss.zero_gradient(graph);
        let ghost after_zero = graph@;
        let one = S::from_integer(1);
        total_loss.backprop(graph, one);
        let ghost after_backprop = graph@;
        proof {
            self.lemma_valid_grows(old(graph)@.len(), graph@.len());
            lemma_same_operations(after_zero, before_zero);
            assert forall|k: int| 0 <= k < params.len() implies graph@[(#[trigger] params[k]).id as int].gradient is Some by {
                let p = params[k];
                if examples > 0 {
                    assert(reaches(operations_of(before_zero), total_loss.id as nat, p.id as nat, false));
                } else {
                    assert(before_zero[p.id as int] == old(graph)@[p.id as int]);
                    assert(!reaches(operations_of(before_zero), total_loss.id as nat, p.id as nat, true));
                }
            }
        }
        self.step_all_parameters_by_learning_rate(graph, learning_rate);
        proof {
            assert forall|i: int| 0 <= i < old(graph)@.len() implies (#[trigger] graph@[i]).operation
                == old(graph)@[i].operation && graph@[i].label == old(graph)@[i].label by {
                assert(before_zero[i] == old(graph)@[i]);
            }
            assert forall|k: int| 0 <= k < params.len() implies {
                let p = (#[trigger] params[k]).id as int;
                &&& graph@[p].gradient is Some
                &&& stepped(ValueInner { gradient: graph@[p].gradient, ..old(graph)@[p] }, graph@[p], learning_rate)
            } by {
                let p = params[k].id as int;
                assert(before_zero[p] == old(graph)@[p]);
                assert(after_backprop[p] == ValueInner { gradient: graph@[p].gradient, ..old(graph)@[p] });
            }
            assert(trained_round(params, old(graph)@, graph@, total_loss, learning_rate));
            assert(round_states(
                layers,
                params,
                ins,
                tgts,
                old(graph)@,
                before_zero,
                after_zero,
                after_backprop,
                graph@,
                totals,
                one,
                total_loss,
                learning_rate,
            ));
        }
        total_loss
    }

    /// `iterations` rounds of training, each as [`Self::train_iteration`]
    /// does it, one after the other on the same graph. Returns, for each
    /// round, the loss node it built and the parameters' numbers and
    /// gradients as the round left them.
    pub fn train<S: Scalar>(
        &mut self,
        graph: &mut Graph<S>,
        iterations: usize,
        learning_rate: S,
        inputs: &[&[Value]],
        targets: &[&[Value]],
    ) -> (rounds: Vec<TrainingRound<S>>)
        requires
            old(graph).wf(),
            old(self).valid_in(old(graph)@.len()),
            iterations > 0 ==> forall|e: int|
                0 <= e < inputs@.len() && e < targets@.len() ==> old(self).example_fits(
                    #[trigger] inputs@[e]@,
                    targets@[e]@,
                    old(graph)@.len(),
                ),
            iterations > 0 ==> if inputs@.len() > 0 && targets@.len() > 0 {
                old(self).feeds_forward()
            } else {
                forall|k: int|
                    0 <= k < old(self).parameters_spec().len() ==> old(graph)@[(#[trigger] old(self).parameters_spec()[
                        k
                    ]).id as int].gradient is Some
            },
        ensures
            *final(self) == *old(self),
            final(graph).wf(),
            rounds@.len() == iterations,
            trained_from(
                old(self).layers_spec(),
                old(self).parameters_spec(),
                example_views(inputs@),
                example_views(targets@),
                old(graph)@,
                final(graph)@,
                rounds@,
                learning_rate,
            ),
    {
        proof {
            use_type_invariant(&*self);
            self.lemma_parameters_below(old(graph)@.len());
        }
        let ghost base = old(graph)@.len();
        let ghost params = self.parameters_spec();
        let param_list = self.parameters();
        let mut rounds: Vec<TrainingRound<S>> = Vec::new();
        let ghost mut states: Seq<Seq<ValueInner<S>>> = seq![graph@];
        let mut r: usize = 0;
        while r < iterations
            invariant
                r <= iterations,
                graph.wf(),
                base == old(graph)@.len(),
                base <= graph@.len(),
                params == self.parameters_spec(),
                param_list@ == params,
                self.valid_in(base),
                iterations > 0 ==> forall|e: int|
                    0 <= e < inputs@.len() && e < targets@.len() ==> self.example_fits(
                        #[trigger] inputs@[e]@,
                        targets@[e]@,
                        base,
                    ),
                iterations > 0 ==> if inputs@.len() > 0 && targets@.len() > 0 {
                    self.feeds_forward()
                } else {
                    forall|k: int| 0 <= k < params.len() ==> graph@[(#[trigger] params[k]).id as int].gradient is Some
                },
                rounds@.len() == r,
                states.len() == r + 1,
                states[0] == old(graph)@,
                states[r as int] == graph@,
                training_run(self.layers_spec(), params, example_views(inputs@), example_views(targets@), states, rounds@),
                forall|q: int| 0 <= q < r ==> (#[trigger] rounds@[q]).learning_rate == learning_rate,
                all_below(params, base),
            decreases iterations - r,
        {
            let ghost before = graph@;
            proof {
                self.lemma_valid_grows(base, graph@.len());
                assert forall|e: int|
                    0 <= e < inputs@.len() && e < targets@.len() implies self.example_fits(
                        #[trigger] inputs@[e]@,
                        targets@[e]@,
                        graph@.len(),
                    ) by {
                    assert(self.example_fits(inputs@[e]@, targets@[e]@, base));
                }
            }
            let total_loss = self.train_iteration(graph, learning_rate, inputs, targets);
            proof {
                assert forall|k: int| 0 <= k < params.len() implies (#[trigger] params[k]).id < graph@.len() by {}
            }
            let (values, gradients) = snapshot(graph, &param_list);
            rounds.push(TrainingRound { total_loss, values, gradients, learning_rate });
            proof {
                let previous = states;
                states = states.push(graph@);
                assert forall|q: int| 0 <= q < rounds@.len() implies round_recorded(
                    self.layers_spec(),
                    params,
                    example_views(inputs@),
                    example_views(targets@),
                    states[q],
                    states[q + 1],
                    #[trigger] rounds@[q],
                ) by {
                    if q < r {
                        assert(states[q] == previous[q]);
                        assert(states[q + 1] == previous[q + 1]);
                    }
                }
            }
            r = r + 1;
        }
        proof {
            assert(states[rounds@.len() as int] == graph@);
        }
        rounds
    }

    /// The parameters lie in a graph in which the network is valid.
    proof fn lemma_parameters_below(&self, len: nat)
        requires
            self.valid_in(len),
        ensures
            all_below(self.parameters_spec(), len),
    {
        assert forall|k: int| 0 <= k < self.parameters_spec().len() implies (#[trigger] self.parameters_spec()[k]).id < len by {
            lemma_layer_owner(self.layers_spec(), k);
            let (l, m) = choose|l: int, m: int|
                0 <= l < self.layers_spec().len() && 0 <= m < self.layers_spec()[l].parameters_spec().len()
                    && parameters_of_layers(self.layers_spec())[k] == #[trigger] self.layers_spec()[l].parameters_spec()[m];
            let layer = self.layers_spec()[l];
            assert(layer.valid_in(len));
            lemma_parameter_owner(layer.neurons_spec(), m);
            let (jn, mm) = choose|jn: int, mm: int|
                0 <= jn < layer.neurons_spec().len() && 0 <= mm < layer.neurons_spec()[jn].parameters_spec().len()
                    && parameters_of(layer.neurons_spec())[m] == #[trigger] layer.neurons_spec()[jn].parameters_spec()[mm];
            assert(layer.neurons_spec()[jn].valid_in(len));
        }
    }

    /// The parameters of the layers, one layer after the other.
    pub fn parameters(&self) -> (params: Vec<Value>)
        ensures
            params@ == self.parameters_spec(),
    {
        let mut params: Vec<Value> = Vec::new();
        let mut i: usize = 0;
        while i < self.layers.len()
            invariant
                i <= self.layers@.len(),
                params@ == parameters_of_layers(self.layers@.subrange(0, i as int)),
            decreases self.layers@.len() - i,
        {
            let mut own = self.layers[i].parameters();
            proof {
                assert(self.layers@.subrange(0, i + 1).drop_last() =~= self.layers@.subrange(0, i as int));
            }
            params.append(&mut own);
            i = i + 1;
        }
        proof {
            assert(self.layers@.subrange(0, self.layers@.len() as int) =~= self.layers@);
        }
        params
    }
}

/// `after` is `before` after one round of training from the loss node
/// `total_loss`: the round only added nodes and changed numbers and
/// gradients; the loss ends with the gradient 1; every parameter has a
/// gradient and was moved against it by `learning_rate` from its number in
/// `before`.
pub open spec fn trained_round<S: Scalar>(
    params: Seq<Value>,
    before: Seq<ValueInner<S>>,
    after: Seq<ValueInner<S>>,
    total_loss: Value,
    learning_rate: S,
) -> bool {
    &&& before.len() <= total_loss.id < after.len()
    &&& forall|i: int|
        0 <= i < before.len() ==> (#[trigger] after[i]).operation == before[i].operation && after[i].label
            == before[i].label
    &&& exists|one: S|
        #[trigger] call_ensures(S::from_integer, (1i32,), one) && after[total_loss.id as int].gradient == Some(one)
    &&& forall|k: int|
        0 <= k < params.len() ==> {
            let p = (#[trigger] params[k]).id as int;
            &&& after[p].gradient is Some
            &&& stepped(ValueInner { gradient: after[p].gradient, ..before[p] }, after[p], learning_rate)
        }
}

/// The nodes that adding one example's loss to the running total made in
/// `g`, from node `start` on: the network applied to `input` (as
/// [`MultiLayerPerceptron::infer`] makes them), the loss of its outputs
/// against `target` (as `calculate_loss_from_outputs_and_targets` makes
/// them), and last `total`, the running total `previous` plus that loss,
/// labelled "Ex Loss Accumulation".
pub open spec fn example_loss_added<S: Scalar>(
    layers: Seq<Layer>,
    g: Seq<ValueInner<S>>,
    start: int,
    input: Seq<Value>,
    target: Seq<Value>,
    previous: Value,
    total: Value,
) -> bool {
    exists|activations: Seq<Seq<Value>>, bases: Seq<int>, loss: Value|
        #![trigger network_applied(g.subrange(0, bases[layers.len() as int]), layers, activations, bases), loss_built(g.subrange(0, total.id as int), bases[layers.len() as int], activations[layers.len() as int], target, loss)]
        {
            &&& network_applied(g.subrange(0, bases[layers.len() as int]), layers, activations, bases)
            &&& bases[0] == start
            &&& activations[0] == input
            &&& loss_built(
                g.subrange(0, total.id as int),
                bases[layers.len() as int],
                activations[layers.len() as int],
                target,
                loss,
            )
            &&& g.len() == total.id + 1
            &&& g[total.id as int].operation == ValueOperation::Addition(previous, loss)
            &&& g[total.id as int].gradient is None
            &&& g[total.id as int].label == Some("Ex Loss Accumulation")
            &&& call_ensures(
                S::plus,
                (&g[previous.id as int].current_evaluation, &g[loss.id as int].current_evaluation),
                g[total.id as int].current_evaluation,
            )
        }
}

/// The nodes that summing the losses of the first `totals.len() - 1`
/// examples made in `g`, from node `base` on: a zero leaf labelled "Total
/// Loss" (`totals[0]`), then for each example its loss added to the running
/// total, which becomes the next of `totals`.
pub open spec fn losses_summed<S: Scalar>(
    layers: Seq<Layer>,
    g: Seq<ValueInner<S>>,
    base: int,
    inputs: Seq<Seq<Value>>,
    targets: Seq<Seq<Value>>,
    totals: Seq<Value>,
) -> bool
    decreases totals.len(),
{
    if totals.len() <= 1 {
        &&& totals.len() == 1
        &&& totals[0].id == base
        &&& g.len() == base + 1
        &&& g[base].operation == ValueOperation::Leaf
        &&& g[base].gradient is None
        &&& g[base].label == Some("Total Loss")
        &&& call_ensures(S::from_integer, (0i32,), g[base].current_evaluation)
    } else {
        let earlier = totals.drop_last();
        let e = earlier.len() - 1;
        &&& losses_summed(layers, g.subrange(0, earlier.last().id + 1), base, inputs, targets, earlier)
        &&& example_loss_added(layers, g, earlier.last().id + 1, inputs[e], targets[e], earlier.last(), totals.last())
    }
}

/// The graphs one round of training goes through, from `before` to `after`:
/// `grown` adds the summed losses of the examples (as many as the shorter
/// list holds), ending with `total_loss`; `zeroed` clears the gradients
/// below it; `propagated` backpropagates `one` (the number 1) from it; then
/// every parameter is moved against its gradient by `learning_rate`, and
/// nothing else changes.
pub open spec fn round_states<S: Scalar>(
    layers: Seq<Layer>,
    params: Seq<Value>,
    inputs: Seq<Seq<Value>>,
    targets: Seq<Seq<Value>>,
    before: Seq<ValueInner<S>>,
    grown: Seq<ValueInner<S>>,
    zeroed: Seq<ValueInner<S>>,
    propagated: Seq<ValueInner<S>>,
    after: Seq<ValueInner<S>>,
    totals: Seq<Value>,
    one: S,
    total_loss: Value,
    learning_rate: S,
) -> bool {
    let examples = if inputs.len() < targets.len() { inputs.len() } else { targets.len() };
    &&& extends(grown, before)
    &&& well_formed(grown)
    &&& totals.len() == examples + 1
    &&& losses_summed(layers, grown, before.len() as int, inputs, targets, totals)
    &&& total_loss == totals.last()
    &&& cleared(grown, total_loss.id as nat, zeroed)
    &&& call_ensures(S::from_integer, (1i32,), one)
    &&& backpropagated(zeroed, total_loss.id as nat, one, propagated)
    &&& same_but_values(after, propagated)
    &&& forall|k: int|
        0 <= k < params.len() ==> stepped(
            propagated[(#[trigger] params[k]).id as int],
            after[params[k].id as int],
            learning_rate,
        )
    &&& forall|i: int| 0 <= i < propagated.len() && !is_parameter(params, i) ==> #[trigger] after[i] == propagated[i]
}

/// One round of training, as [`round_states`] describes it, turned
/// `before` into `after`.
pub open spec fn round_trained<S: Scalar>(
    layers: Seq<Layer>,
    params: Seq<Value>,
    inputs: Seq<Seq<Value>>,
    targets: Seq<Seq<Value>>,
    before: Seq<ValueInner<S>>,
    after: Seq<ValueInner<S>>,
    total_loss: Value,
    learning_rate: S,
) -> bool {
    exists|
        grown: Seq<ValueInner<S>>,
        zeroed: Seq<ValueInner<S>>,
        propagated: Seq<ValueInner<S>>,
        totals: Seq<Value>,
        one: S,
    |
        #[trigger] round_states(
            layers,
            params,
            inputs,
            targets,
            before,
            grown,
            zeroed,
            propagated,
            after,
            totals,
            one,
            total_loss,
            learning_rate,
        )
}

/// A round of training does not depend on the gradients the graph held
/// before it: the parameters end as if the loss were backpropagated from 1
/// on the grown graph with no gradient on the loss or anything below it, and
/// each parameter then moved against the gradient it got by
/// `learning_rate`; nothing else changes after the backpropagation.
pub proof fn lemma_round_ignores_stale_gradients<S: Scalar>(
    layers: Seq<Layer>,
    params: Seq<Value>,
    inputs: Seq<Seq<Value>>,
    targets: Seq<Seq<Value>>,
    before: Seq<ValueInner<S>>,
    after: Seq<ValueInner<S>>,
    total_loss: Value,
    learning_rate: S,
)
    requires
        round_trained(layers, params, inputs, targets, before, after, total_loss, learning_rate),
    ensures
        exists|grown: Seq<ValueInner<S>>, propagated: Seq<ValueInner<S>>, one: S|
            {
                &&& extends(grown, before)
                &&& call_ensures(S::from_integer, (1i32,), one)
                &&& #[trigger] backpropagated(
                    without_gradients_below(grown, total_loss.id as nat),
                    total_loss.id as nat,
                    one,
                    propagated,
                )
                &&& same_but_values(after, propagated)
                &&& forall|k: int|
                    0 <= k < params.len() ==> stepped(
                        propagated[(#[trigger] params[k]).id as int],
                        after[params[k].id as int],
                        learning_rate,
                    )
                &&& forall|i: int|
                    0 <= i < propagated.len() && !is_parameter(params, i) ==> #[trigger] after[i] == propagated[i]
            },
{
    let (grown, zeroed, propagated, totals, one) = choose|
        grown: Seq<ValueInner<S>>,
        zeroed: Seq<ValueInner<S>>,
        propagated: Seq<ValueInner<S>>,
        totals: Seq<Value>,
        one: S,
    |
        #[trigger] round_states(
            layers,
            params,
            inputs,
            targets,
            before,
            grown,
            zeroed,
            propagated,
            after,
            totals,
            one,
            total_loss,
            learning_rate,
        );
    lemma_cleared_backprop_is_fresh(grown, zeroed, propagated, total_loss.id as nat, one);
}

/// The views of the examples.
pub open spec fn example_views(examples: Seq<&[Value]>) -> Seq<Seq<Value>> {
    examples.map_values(|x: &[Value]| x@)
}

/// What one round of training left: the loss node it built, the learning
/// rate it used, and the parameters' numbers and gradients once stepped.
pub struct TrainingRound<S> {
    pub total_loss: Value,
    pub values: Vec<S>,
    pub gradients: Vec<Option<S>>,
    pub learning_rate: S,
}

/// `round` records the round of training that turned `before` into `after`.
pub open spec fn round_recorded<S: Scalar>(
    layers: Seq<Layer>,
    params: Seq<Value>,
    inputs: Seq<Seq<Value>>,
    targets: Seq<Seq<Value>>,
    before: Seq<ValueInner<S>>,
    after: Seq<ValueInner<S>>,
    round: TrainingRound<S>,
) -> bool {
    &&& trained_round(params, before, after, round.total_loss, round.learning_rate)
    &&& round_trained(layers, params, inputs, targets, before, after, round.total_loss, round.learning_rate)
    &&& round.values@.len() == params.len()
    &&& round.gradients@.len() == params.len()
    &&& forall|k: int|
        0 <= k < params.len() ==> #[trigger] round.values@[k] == after[params[k].id as int].current_evaluation
            && round.gradients@[k] == after[params[k].id as int].gradient
}

/// Round `q` of `rounds` turned `states[q]` into `states[q + 1]`.
pub open spec fn training_run<S: Scalar>(
    layers: Seq<Layer>,
    params: Seq<Value>,
    inputs: Seq<Seq<Value>>,
    targets: Seq<Seq<Value>>,
    states: Seq<Seq<ValueInner<S>>>,
    rounds: Seq<TrainingRound<S>>,
) -> bool {
    &&& states.len() == rounds.len() + 1
    &&& forall|q: int|
        0 <= q < rounds.len() ==> round_recorded(
            layers,
            params,
            inputs,
            targets,
            states[q],
            states[q + 1],
            #[trigger] rounds[q],
        )
}

/// `rounds` lead, one after the other, from `before` to `after`, each with
/// `learning_rate`.
pub open spec fn trained_from<S: Scalar>(
    layers: Seq<Layer>,
    params: Seq<Value>,
    inputs: Seq<Seq<Value>>,
    targets: Seq<Seq<Value>>,
    before: Seq<ValueInner<S>>,
    after: Seq<ValueInner<S>>,
    rounds: Seq<TrainingRound<S>>,
    learning_rate: S,
) -> bool {
    &&& forall|q: int| 0 <= q < rounds.len() ==> (#[trigger] rounds[q]).learning_rate == learning_rate
    &&& exists|states: Seq<Seq<ValueInner<S>>>|
        {
            &&& #[trigger] training_run(layers, params, inputs, targets, states, rounds)
            &&& states[0] == before
            &&& states[rounds.len() as int] == after
        }
}

/// The numbers and gradients of `params` as they stand in `graph`.
fn snapshot<S: Scalar>(graph: &Graph<S>, params: &Vec<Value>) -> (snap: (Vec<S>, Vec<Option<S>>))
    requires
        all_below(params@, graph@.len()),
    ensures
        snap.0@.len() == params@.len(),
        snap.1@.len() == params@.len(),
        forall|k: int|
            0 <= k < params@.len() ==> #[trigger] snap.0@[k] == graph@[params@[k].id as int].current_evaluation
                && snap.1@[k] == graph@[params@[k].id as int].gradient,
{
    let mut values: Vec<S> = Vec::new();
    let mut gradients: Vec<Option<S>> = Vec::new();
    let mut k: usize = 0;
    while k < params.len()
        invariant
            k <= params@.len(),
            all_below(params@, graph@.len()),
            values@.len() == k,
            gradients@.len() == k,
            forall|j: int|
                0 <= j < k ==> #[trigger] values@[j] == graph@[params@[j].id as int].current_evaluation
                    && gradients@[j] == graph@[params@[j].id as int].gradient,
        decreases params@.len() - k,
    {
        let node = graph.node(params[k]);
        values.push(node.current_evaluation);
        gradients.push(node.gradient);
        k = k + 1;
    }
    (values, gradients)
}

/// Every layer after layer `l` and before layer `end` has a neuron.
pub open spec fn later_layers_nonempty(layers: Seq<Layer>, l: int, end: int) -> bool {
    forall|m: int| l < m < end ==> (#[trigger] layers[m]).output_size() > 0
}

/// If every parameter of the first `i` layers that can influence the
/// activations `before` does, then after layer `i` maps `before` to `next`,
/// the same holds of the first `i + 1` layers and `next`.
proof fn lemma_reach_after_layer(
    ops_before: Seq<crate::value::ValueOperation>,
    ops: Seq<crate::value::ValueOperation>,
    layers: Seq<Layer>,
    i: int,
    before: Seq<Value>,
    next: Seq<Value>,
)
    requires
        0 <= i < layers.len(),
        ops_before.len() <= ops.len(),
        forall|q: int| 0 <= q < ops_before.len() ==> #[trigger] ops[q] == ops_before[q],
        all_below(before, ops_before.len()),
        next.len() == layers[i].output_size(),
        forall|l: int, k: int|
            #![trigger layers[l].parameters_spec()[k]]
            0 <= l < i && 0 <= k < layers[l].parameters_spec().len() && later_layers_nonempty(layers, l, i)
                ==> reaches_some(ops_before, before, layers[l].parameters_spec()[k]),
        forall|j: int, m: int|
            0 <= j < next.len() && 0 <= m < before.len() ==> reaches(
                ops,
                (#[trigger] next[j]).id as nat,
                (#[trigger] before[m]).id as nat,
                false,
            ),
        forall|j: int, m: int|
            0 <= j < next.len() && 0 <= m < layers[i].neurons_spec()[j].parameters_spec().len() ==> reaches(
                ops,
                (#[trigger] next[j]).id as nat,
                (#[trigger] layers[i].neurons_spec()[j].parameters_spec()[m]).id as nat,
                false,
            ),
    ensures
        forall|l: int, k: int|
            #![trigger layers[l].parameters_spec()[k]]
            0 <= l < i + 1 && 0 <= k < layers[l].parameters_spec().len() && later_layers_nonempty(layers, l, i + 1)
                ==> reaches_some(ops, next, layers[l].parameters_spec()[k]),
{
    assert forall|l: int, k: int|
        #![trigger layers[l].parameters_spec()[k]]
        0 <= l < i + 1 && 0 <= k < layers[l].parameters_spec().len() && later_layers_nonempty(layers, l, i + 1)
            implies reaches_some(ops, next, layers[l].parameters_spec()[k]) by {
        let p = layers[l].parameters_spec()[k];
        if l < i {
            assert(layers[i].output_size() > 0);
            assert(later_layers_nonempty(layers, l, i));
            assert(reaches_some(ops_before, before, p));
            let q0 = choose|q: int|
                0 <= q < before.len() && #[trigger] reaches(ops_before, before[q].id as nat, p.id as nat, false);
            lemma_reaches_prefix(ops, ops_before, before[q0].id as nat, p.id as nat, false);
            assert(reaches(ops, next[0].id as nat, before[q0].id as nat, false));
            lemma_reaches_transitive(ops, next[0].id as nat, before[q0].id as nat, p.id as nat, false);
            assert(reaches(ops, next[0].id as nat, p.id as nat, false));
        } else {
            lemma_parameter_owner(layers[i].neurons_spec(), k);
            let (jn, m) = choose|jn: int, m: int|
                0 <= jn < layers[i].neurons_spec().len() && 0 <= m < layers[i].neurons_spec()[jn].parameters_spec().len()
                    && parameters_of(layers[i].neurons_spec())[k] == #[trigger] layers[i].neurons_spec()[jn].parameters_spec()[m];
            assert(reaches(ops, next[jn].id as nat, p.id as nat, false));
        }
        assert(reaches_some(ops, next, p));
    }
}

/// Some value of `outputs` reaches `target` along gradient operands.
pub open spec fn reaches_some(ops: Seq<crate::value::ValueOperation>, outputs: Seq<Value>, target: Value) -> bool {
    exists|q: int| 0 <= q < outputs.len() && #[trigger] reaches(ops, outputs[q].id as nat, target.id as nat, false)
}

/// Some value of `params` is the node at `id`.
pub open spec fn is_parameter(params: Seq<Value>, id: int) -> bool {
    exists|j: int| 0 <= j < params.len() && (#[trigger] params[j]).id == id
}

} // verus!
