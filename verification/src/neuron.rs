use vstd::prelude::*;

use crate::random::{drew, lemma_drew_concat, lemma_drew_nothing, lemma_drew_one_more, SeededDistribution};
use crate::scalar::Scalar;
use crate::value::{
    extends, lemma_numbers_from_split, lemma_reaches_prefix, lemma_reaches_transitive, numbers_from, operations_of,
    reaches, Graph, Value,
    ValueInner, ValueOperation,
};

verus! {

/// A neuron: `tanh(bias + sum of input[i] * weights[i])`, over leaves of a graph.
pub struct Neuron {
    bias: Value,
    weights: Vec<Value>,
}

/// A layer of neurons that all read the same inputs.
pub struct Layer {
    neurons: Vec<Neuron>,
}

/// The ids of `values` go up strictly.
pub open spec fn ids_increasing(values: Seq<Value>) -> bool {
    forall|i: int, j: int| 0 <= i < j < values.len() ==> (#[trigger] values[i]).id < (#[trigger] values[j]).id
}

/// Every handle in `values` points into a graph of `len` nodes.
pub open spec fn all_below(values: Seq<Value>, len: nat) -> bool {
    forall|i: int| 0 <= i < values.len() ==> (#[trigger] values[i]).id < len
}

/// The node at `id` is a fresh leaf with the label `label`.
pub open spec fn is_labelled_leaf<S>(nodes: Seq<ValueInner<S>>, id: int, label: &'static str) -> bool {
    &&& 0 <= id < nodes.len()
    &&& nodes[id].operation == ValueOperation::Leaf
    &&& nodes[id].gradient is None
    &&& nodes[id].label == Some(label)
}

/// A new leaf labelled `label`, holding the next number that `randomness`
/// draws.
fn drawn_leaf<S: Scalar, D: SeededDistribution<S>>(
    graph: &mut Graph<S>,
    randomness: &mut D,
    label: &'static str,
) -> (v: Value)
    requires
        old(graph).wf(),
    ensures
        final(graph).wf(),
        extends(final(graph)@, old(graph)@),
        final(graph)@.len() == old(graph)@.len() + 1,
        v.id == old(graph)@.len(),
        is_labelled_leaf(final(graph)@, v.id as int, label),
        numbers_from(final(graph)@, old(graph)@.len() as int) == seq![final(graph)@[v.id as int].current_evaluation],
        D::drawn(*old(randomness), final(graph)@[v.id as int].current_evaluation, *final(randomness)),
{
    let drawn: S = randomness.next();
    let leaf = Value::leaf(graph, drawn);
    let v = leaf.with_label(graph, label);
    proof {
        assert(numbers_from(graph@, old(graph)@.len() as int) =~= seq![drawn]);
    }
    v
}

/// The running sum of a neuron built from node `base` on: the bias before
/// the first input, then the sum node made for each input.
pub open spec fn accumulator(base: int, bias: Value, j: int) -> Value {
    if j == 0 {
        bias
    } else {
        Value { id: (base + 2 * j - 1) as usize }
    }
}

/// The two nodes that a neuron makes for input `j`: the product of the input
/// and its weight, then the running sum plus that product.
pub open spec fn input_step_made<S: Scalar>(
    g: Seq<ValueInner<S>>,
    base: int,
    inputs: Seq<Value>,
    weights: Seq<Value>,
    bias: Value,
    j: int,
) -> bool {
    let product = g[base + 2 * j];
    let sum = g[base + 2 * j + 1];
    let previous = accumulator(base, bias, j);
    &&& product.operation == ValueOperation::Multiplication(inputs[j], weights[j])
    &&& product.gradient is None
    &&& product.label == Some("Input Weighting")
    &&& call_ensures(
        S::times,
        (&g[inputs[j].id as int].current_evaluation, &g[weights[j].id as int].current_evaluation),
        product.current_evaluation,
    )
    &&& sum.operation == ValueOperation::Addition(previous, Value { id: (base + 2 * j) as usize })
    &&& sum.gradient is None
    &&& sum.label == Some("Input Accumulation")
    &&& call_ensures(
        S::plus,
        (&g[previous.id as int].current_evaluation, &product.current_evaluation),
        sum.current_evaluation,
    )
}

impl Neuron {
    /// The bias leaf.
    pub closed spec fn bias_spec(self) -> Value {
        self.bias
    }

    /// The weight leaves, one per input.
    pub closed spec fn weights_spec(self) -> Seq<Value> {
        self.weights@
    }

    /// The number of inputs the neuron reads.
    pub open spec fn input_size(self) -> nat {
        self.weights_spec().len()
    }

    /// The weights, then the bias.
    pub open spec fn parameters_spec(self) -> Seq<Value> {
        self.weights_spec().push(self.bias_spec())
    }

    /// The neuron's leaves lie in a graph of `len` nodes.
    pub open spec fn valid_in(self, len: nat) -> bool {
        all_below(self.parameters_spec(), len)
    }

    /// A neuron of `size` inputs: `size` new weight leaves, then a bias
    /// leaf, each holding the next number that `randomness` draws.
    pub fn new<S: Scalar, D: SeededDistribution<S>>(
        graph: &mut Graph<S>,
        size: usize,
        randomness: &mut D,
    ) -> (neuron: Neuron)
        requires
            old(graph).wf(),
        ensures
            final(graph).wf(),
            extends(final(graph)@, old(graph)@),
            final(graph)@.len() == old(graph)@.len() + size + 1,
            neuron.input_size() == size,
            forall|k: int|
                0 <= k <= size ==> (#[trigger] neuron.parameters_spec()[k]).id == old(graph)@.len() + k,
            forall|k: int|
                0 <= k < size ==> is_labelled_leaf(
                    final(graph)@,
                    #[trigger] neuron.weights_spec()[k].id as int,
                    "Neuron Weight",
                ),
            is_labelled_leaf(final(graph)@, neuron.bias_spec().id as int, "Neuron Bias"),
            neuron.valid_in(final(graph)@.len()),
            drew(*old(randomness), numbers_from(final(graph)@, old(graph)@.len() as int), *final(randomness)),
    {
        let ghost base = old(graph)@.len();
        let mut weights: Vec<Value> = Vec::new();
        let mut i: usize = 0;
        proof {
            lemma_drew_nothing::<S, D>(*randomness);
            assert(numbers_from(graph@, base as int) =~= Seq::<S>::empty());
        }
        while i < size
            invariant
                i <= size,
                graph.wf(),
                extends(graph@, old(graph)@),
                graph@.len() == base + i,
                base == old(graph)@.len(),
                weights@.len() == i,
                forall|k: int| 0 <= k < i ==> (#[trigger] weights@[k]).id == base + k,
                forall|k: int|
                    0 <= k < i ==> is_labelled_leaf(graph@, #[trigger] weights@[k].id as int, "Neuron Weight"),
                drew(*old(randomness), numbers_from(graph@, base as int), *randomness),
            decreases size - i,
        {
            let ghost before = graph@;
            let ghost before_randomness = *randomness;
            let weight = drawn_leaf(graph, randomness, "Neuron Weight");
            weights.push(weight);
            proof {
                lemma_numbers_from_split(graph@, before, base as int);
                assert(numbers_from(graph@, base as int) =~= numbers_from(before, base as int).push(
                    graph@[weight.id as int].current_evaluation,
                ));
                lemma_drew_one_more(
                    *old(randomness),
                    numbers_from(before, base as int),
                    before_randomness,
                    graph@[weight.id as int].current_evaluation,
                    *randomness,
                );
                assert forall|k: int| 0 <= k < i + 1 implies is_labelled_leaf(
                    graph@,
                    #[trigger] weights@[k].id as int,
                    "Neuron Weight",
                ) by {
                    if k < i {
                        assert(is_labelled_leaf(before, weights@[k].id as int, "Neuron Weight"));
                    }
                }
            }
            i = i + 1;
        }
        let ghost before = graph@;
        let ghost before_randomness = *randomness;
        let bias = drawn_leaf(graph, randomness, "Neuron Bias");
        let neuron = Neuron { bias, weights };
        proof {
            lemma_numbers_from_split(graph@, before, base as int);
            assert(numbers_from(graph@, base as int) =~= numbers_from(before, base as int).push(
                graph@[bias.id as int].current_evaluation,
            ));
            lemma_drew_one_more(
                *old(randomness),
                numbers_from(before, base as int),
                before_randomness,
                graph@[bias.id as int].current_evaluation,
                *randomness,
            );
            assert forall|k: int| 0 <= k < size implies is_labelled_leaf(
                graph@,
                #[trigger] neuron.weights_spec()[k].id as int,
                "Neuron Weight",
            ) by {
                assert(is_labelled_leaf(before, weights@[k].id as int, "Neuron Weight"));
            }
            assert forall|k: int| 0 <= k <= size implies (#[trigger] neuron.parameters_spec()[k]).id == base + k by {
                if k < size {
                    assert(neuron.parameters_spec()[k] == weights@[k]);
                }
            }
            assert forall|k: int| 0 <= k < neuron.parameters_spec().len() implies (
            #[trigger] neuron.parameters_spec()[k]).id < graph@.len() by {
                if k < size {
                    assert(neuron.parameters_spec()[k] == weights@[k]);
                }
            }
        }
        neuron
    }

    proof fn lemma_valid_parts(&self, len: nat)
        requires
            self.valid_in(len),
        ensures
            all_below(self.weights_spec(), len),
            self.bias_spec().id < len,
    {
        assert(self.parameters_spec()[self.weights@.len() as int] == self.bias);
        assert forall|i: int| 0 <= i < self.weights@.len() implies (#[trigger] self.weights@[i]).id < len by {
            assert(self.parameters_spec()[i] == self.weights@[i]);
        }
    }

    /// The weights, then the bias.
    pub fn parameters(&self) -> (params: Vec<Value>)
        ensures
            params@ == self.parameters_spec(),
    {
        let mut params: Vec<Value> = Vec::new();
        let mut i: usize = 0;
        while i < self.weights.len()
            invariant
                i <= self.weights@.len(),
                params@ == self.weights@.subrange(0, i as int),
            decreases self.weights@.len() - i,
        {
            params.push(self.weights[i]);
            i = i + 1;
        }
        params.push(self.bias);
        proof {
            assert(self.weights@.subrange(0, self.weights@.len() as int) == self.weights@);
        }
        params
    }

    /// Applies the neuron to `x`: for each input, a product node (input
    /// times weight) and a sum node (running sum plus product), starting from
    /// the bias; then the hyperbolic tangent of the sum. Returns that last node.
    pub fn infer<S: Scalar>(&self, graph: &mut Graph<S>, x: &[Value]) -> (activation: Value)
        requires
            old(graph).wf(),
            self.valid_in(old(graph)@.len()),
            all_below(x@, old(graph)@.len()),
            x@.len() == self.input_size(),
        ensures
            final(graph).wf(),
            extends(final(graph)@, old(graph)@),
            neuron_applied(final(graph)@, old(graph)@.len() as int, x@, self.weights_spec(), self.bias_spec(), activation),
            forall|m: int|
                0 <= m < x@.len() ==> reaches(
                    operations_of(final(graph)@),
                    activation.id as nat,
                    (#[trigger] x@[m]).id as nat,
                    false,
                ),
            forall|m: int|
                0 <= m < self.parameters_spec().len() ==> reaches(
                    operations_of(final(graph)@),
                    activation.id as nat,
                    (#[trigger] self.parameters_spec()[m]).id as nat,
                    false,
                ),
    {
        let ghost base = old(graph)@.len() as int;
        let ghost weights = self.weights@;
        proof {
            self.lemma_valid_parts(old(graph)@.len());
        }
        let mut activation = self.bias;
        let mut j: usize = 0;
        while j < x.len()
            invariant
                j <= x@.len(),
                x@.len() == weights.len(),
                weights == self.weights@,
                base == old(graph)@.len(),
                self.valid_in(old(graph)@.len()),
                all_below(x@, old(graph)@.len()),
                all_below(weights, old(graph)@.len()),
                self.bias.id < old(graph)@.len(),
                graph.wf(),
                extends(graph@, old(graph)@),
                graph@.len() == base + 2 * j,
                activation == accumulator(base, self.bias, j as int),
                forall|m: int| 0 <= m < j ==> #[trigger] input_step_made(graph@, base, x@, weights, self.bias, m),
            decreases x@.len() - j,
        {
            let ghost before = graph@;
            proof {
                assert(self.parameters_spec()[j as int] == weights[j as int]);
                assert(self.parameters_spec()[weights.len() as int] == self.bias);
            }
            let product = x[j].mul(graph, self.weights[j]);
            let weighted_input = product.with_label(graph, "Input Weighting");
            let sum = activation.add(graph, weighted_input);
            activation = sum.with_label(graph, "Input Accumulation");
            proof {
                assert forall|m: int| 0 <= m < j + 1 implies #[trigger] input_step_made(
                    graph@,
                    base,
                    x@,
                    weights,
                    self.bias,
                    m,
                ) by {
                    if m < j {
                        assert(input_step_made(before, base, x@, weights, self.bias, m));
                        assert(graph@[base + 2 * m] == before[base + 2 * m]);
                        assert(graph@[base + 2 * m + 1] == before[base + 2 * m + 1]);
                        assert(graph@[x@[m].id as int] == before[x@[m].id as int]);
                        assert(graph@[weights[m].id as int] == before[weights[m].id as int]);
                        let previous = accumulator(base, self.bias, m);
                        assert(graph@[previous.id as int] == before[previous.id as int]);
                    } else {
                        assert(graph@[x@[m].id as int] == before[x@[m].id as int]);
                        assert(graph@[weights[m].id as int] == before[weights[m].id as int]);
                        let previous = accumulator(base, self.bias, m);
                        assert(graph@[previous.id as int] == before[previous.id as int]);
                    }
                }
            }
            j = j + 1;
        }
        let ghost before = graph@;
        let t = activation.tanh(graph);
        let result = t.with_label(graph, "Neuron Activation");
        proof {
            assert forall|m: int| 0 <= m < x@.len() implies #[trigger] input_step_made(
                graph@,
                base,
                x@,
                weights,
                self.bias,
                m,
            ) by {
                assert(input_step_made(before, base, x@, weights, self.bias, m));
                assert(graph@[base + 2 * m] == before[base + 2 * m]);
                assert(graph@[base + 2 * m + 1] == before[base + 2 * m + 1]);
                assert(graph@[x@[m].id as int] == before[x@[m].id as int]);
                assert(graph@[weights[m].id as int] == before[weights[m].id as int]);
                let previous = accumulator(base, self.bias, m);
                assert(graph@[previous.id as int] == before[previous.id as int]);
            }
            assert(self.parameters_spec()[weights.len() as int] == self.bias);
            lemma_chain_reaches(graph@, base, x@, weights, self.bias, x@.len() as int);
            let ops = operations_of(graph@);
            let last = accumulator(base, self.bias, x@.len() as int);
            assert(ops[result.id as int] == ValueOperation::Tanh(last));
            assert(reaches(ops, result.id as nat, last.id as nat, false)) by {
                assert(reaches(ops, last.id as nat, last.id as nat, false));
            }
            assert forall|m: int| 0 <= m < x@.len() implies reaches(
                ops,
                result.id as nat,
                (#[trigger] x@[m]).id as nat,
                false,
            ) by {
                lemma_reaches_transitive(ops, result.id as nat, last.id as nat, x@[m].id as nat, false);
            }
            assert forall|m: int| 0 <= m < self.parameters_spec().len() implies reaches(
                ops,
                result.id as nat,
                (#[trigger] self.parameters_spec()[m]).id as nat,
                false,
            ) by {
                let p = self.parameters_spec()[m];
                if m < weights.len() {
                    assert(p == weights[m]);
                }
                lemma_reaches_transitive(ops, result.id as nat, last.id as nat, p.id as nat, false);
            }
        }
        result
    }
}

/// The nodes that applying a neuron (with `weights` and `bias`) to `inputs`
/// made from node `base` on, ending with `activation`.
pub open spec fn neuron_applied<S: Scalar>(
    g: Seq<ValueInner<S>>,
    base: int,
    inputs: Seq<Value>,
    weights: Seq<Value>,
    bias: Value,
    activation: Value,
) -> bool {
    let k = inputs.len() as int;
    let last = accumulator(base, bias, k);
    &&& g.len() == base + 2 * k + 1
    &&& forall|m: int| 0 <= m < k ==> #[trigger] input_step_made(g, base, inputs, weights, bias, m)
    &&& activation.id == base + 2 * k
    &&& g[activation.id as int].operation == ValueOperation::Tanh(last)
    &&& g[activation.id as int].gradient is None
    &&& g[activation.id as int].label == Some("Neuron Activation")
    &&& call_ensures(S::tanh, (&g[last.id as int].current_evaluation,), g[activation.id as int].current_evaluation)
}

/// A neuron computes the hyperbolic tangent of its weighted sum: the
/// running sum starts at the bias; for input `j`, node `base + 2j` is the
/// input times its weight (labelled "Input Weighting") and the next node is
/// the running sum plus that product (labelled "Input Accumulation"), which
/// becomes the running sum; the activation, labelled "Neuron Activation",
/// is the tanh of the last running sum.
pub proof fn lemma_neuron_is_tanh_of_weighted_sum<S: Scalar>(
    g: Seq<ValueInner<S>>,
    base: int,
    inputs: Seq<Value>,
    weights: Seq<Value>,
    bias: Value,
    activation: Value,
)
    requires
        neuron_applied(g, base, inputs, weights, bias, activation),
        0 <= base,
        g.len() <= usize::MAX,
    ensures
        activation.id == base + 2 * inputs.len(),
        g[activation.id as int].label == Some("Neuron Activation"),
        ({
            let last = if inputs.len() == 0 { bias.id as int } else { base + 2 * inputs.len() - 1 };
            &&& g[activation.id as int].operation == ValueOperation::Tanh(Value { id: last as usize })
            &&& call_ensures(S::tanh, (&g[last].current_evaluation,), g[activation.id as int].current_evaluation)
        }),
        forall|j: int|
            0 <= j < inputs.len() ==> {
                let running = if j == 0 { bias.id as int } else { base + 2 * j - 1 };
                let product = g[base + 2 * j];
                let sum = g[base + 2 * j + 1];
                &&& product.operation == ValueOperation::Multiplication(#[trigger] inputs[j], weights[j])
                &&& product.label == Some("Input Weighting")
                &&& call_ensures(
                    S::times,
                    (&g[inputs[j].id as int].current_evaluation, &g[weights[j].id as int].current_evaluation),
                    product.current_evaluation,
                )
                &&& sum.operation == ValueOperation::Addition(
                    Value { id: running as usize },
                    Value { id: (base + 2 * j) as usize },
                )
                &&& sum.label == Some("Input Accumulation")
                &&& call_ensures(
                    S::plus,
                    (&g[running].current_evaluation, &product.current_evaluation),
                    sum.current_evaluation,
                )
            },
{
    assert forall|j: int| 0 <= j < inputs.len() implies {
                let running = if j == 0 { bias.id as int } else { base + 2 * j - 1 };
                let product = g[base + 2 * j];
                let sum = g[base + 2 * j + 1];
                &&& product.operation == ValueOperation::Multiplication(#[trigger] inputs[j], weights[j])
                &&& product.label == Some("Input Weighting")
                &&& call_ensures(
                    S::times,
                    (&g[inputs[j].id as int].current_evaluation, &g[weights[j].id as int].current_evaluation),
                    product.current_evaluation,
                )
                &&& sum.operation == ValueOperation::Addition(
                    Value { id: running as usize },
                    Value { id: (base + 2 * j) as usize },
                )
                &&& sum.label == Some("Input Accumulation")
                &&& call_ensures(
                    S::plus,
                    (&g[running].current_evaluation, &product.current_evaluation),
                    sum.current_evaluation,
                )
            } by {
        assert(input_step_made(g, base, inputs, weights, bias, j));
    }
}

/// Along the chain of sums, each running sum reaches the bias and every input
/// and weight used so far.
proof fn lemma_chain_reaches<S: Scalar>(
    g: Seq<ValueInner<S>>,
    base: int,
    inputs: Seq<Value>,
    weights: Seq<Value>,
    bias: Value,
    j: int,
)
    requires
        0 <= j <= inputs.len(),
        inputs.len() == weights.len(),
        0 <= base,
        base + 2 * j <= g.len(),
        g.len() <= usize::MAX,
        bias.id < base,
        all_below(inputs, base as nat),
        all_below(weights, base as nat),
        forall|m: int| 0 <= m < j ==> #[trigger] input_step_made(g, base, inputs, weights, bias, m),
    ensures
        reaches(operations_of(g), accumulator(base, bias, j).id as nat, bias.id as nat, false),
        forall|m: int|
            0 <= m < j ==> reaches(
                operations_of(g),
                accumulator(base, bias, j).id as nat,
                (#[trigger] inputs[m]).id as nat,
                false,
            ),
        forall|m: int|
            0 <= m < j ==> reaches(
                operations_of(g),
                accumulator(base, bias, j).id as nat,
                (#[trigger] weights[m]).id as nat,
                false,
            ),
    decreases j,
{
    let ops = operations_of(g);
    if j > 0 {
        lemma_chain_reaches(g, base, inputs, weights, bias, j - 1);
        assert(input_step_made(g, base, inputs, weights, bias, j - 1));
        let here = accumulator(base, bias, j);
        let previous = accumulator(base, bias, j - 1);
        let product = Value { id: (base + 2 * (j - 1)) as usize };
        assert(ops[here.id as int] == ValueOperation::Addition(previous, product));
        assert(ops[product.id as int] == ValueOperation::Multiplication(inputs[j - 1], weights[j - 1]));
        assert(inputs[j - 1].id < base);
        assert(weights[j - 1].id < base);
        assert(reaches(ops, previous.id as nat, previous.id as nat, false));
        assert(reaches(ops, here.id as nat, previous.id as nat, false));
        assert(reaches(ops, inputs[j - 1].id as nat, inputs[j - 1].id as nat, false));
        assert(reaches(ops, weights[j - 1].id as nat, weights[j - 1].id as nat, false));
        assert(reaches(ops, product.id as nat, inputs[j - 1].id as nat, false));
        assert(reaches(ops, product.id as nat, weights[j - 1].id as nat, false));
        assert(reaches(ops, product.id as nat, product.id as nat, false));
        assert(reaches(ops, here.id as nat, product.id as nat, false));
        lemma_reaches_transitive(ops, here.id as nat, previous.id as nat, bias.id as nat, false);
        lemma_reaches_transitive(ops, here.id as nat, product.id as nat, inputs[j - 1].id as nat, false);
        lemma_reaches_transitive(ops, here.id as nat, product.id as nat, weights[j - 1].id as nat, false);
        assert forall|m: int| 0 <= m < j implies reaches(
            operations_of(g),
            accumulator(base, bias, j).id as nat,
            (#[trigger] inputs[m]).id as nat,
            false,
        ) by {
            if m < j - 1 {
                lemma_reaches_transitive(ops, here.id as nat, previous.id as nat, inputs[m].id as nat, false);
            }
        }
        assert forall|m: int| 0 <= m < j implies reaches(
            operations_of(g),
            accumulator(base, bias, j).id as nat,
            (#[trigger] weights[m]).id as nat,
            false,
        ) by {
            if m < j - 1 {
                lemma_reaches_transitive(ops, here.id as nat, previous.id as nat, weights[m].id as nat, false);
            }
        }
    }
}

/// The parameters of the neurons, one neuron after the other.
pub open spec fn parameters_of(neurons: Seq<Neuron>) -> Seq<Value>
    decreases neurons.len(),
{
    if neurons.len() == 0 {
        seq![]
    } else {
        parameters_of(neurons.drop_last()) + neurons.last().parameters_spec()
    }
}

/// Each parameter of a row of neurons is a parameter of one of them.
pub proof fn lemma_parameter_owner(neurons: Seq<Neuron>, k: int)
    requires
        0 <= k < parameters_of(neurons).len(),
    ensures
        exists|j: int, m: int|
            0 <= j < neurons.len() && 0 <= m < neurons[j].parameters_spec().len()
                && parameters_of(neurons)[k] == #[trigger] neurons[j].parameters_spec()[m],
    decreases neurons.len(),
{
    let front = neurons.drop_last();
    if k < parameters_of(front).len() {
        lemma_parameter_owner(front, k);
        let (j, m) = choose|j: int, m: int|
            0 <= j < front.len() && 0 <= m < front[j].parameters_spec().len()
                && parameters_of(front)[k] == #[trigger] front[j].parameters_spec()[m];
        assert(neurons[j] == front[j]);
    } else {
        let m = k - parameters_of(front).len();
        assert(parameters_of(neurons)[k] == neurons[neurons.len() - 1].parameters_spec()[m]);
    }
}

/// The number of parameters of a row of neurons that each read `inputs` inputs.
proof fn lemma_parameter_count(neurons: Seq<Neuron>, inputs: nat)
    requires
        forall|j: int| 0 <= j < neurons.len() ==> (#[trigger] neurons[j]).input_size() == inputs,
    ensures
        parameters_of(neurons).len() == neurons.len() * (inputs + 1),
    decreases neurons.len(),
{
    if neurons.len() > 0 {
        let front = neurons.drop_last();
        assert forall|j: int| 0 <= j < front.len() implies (#[trigger] front[j]).input_size() == inputs by {
            assert(front[j] == neurons[j]);
        }
        lemma_parameter_count(front, inputs);
        assert(neurons.len() * (inputs + 1) == front.len() * (inputs + 1) + (inputs + 1)) by (nonlinear_arith)
            requires
                neurons.len() == front.len() + 1,
        ;
    }
}

/// The nodes that applying every neuron of `neurons` to `inputs` made from
/// node `base` on, one neuron after the other, ending with `outputs`.
pub open spec fn layer_applied<S: Scalar>(
    g: Seq<ValueInner<S>>,
    base: int,
    inputs: Seq<Value>,
    neurons: Seq<Neuron>,
    outputs: Seq<Value>,
) -> bool {
    let width = 2 * inputs.len() + 1;
    &&& g.len() == base + neurons.len() * width
    &&& outputs.len() == neurons.len()
    &&& forall|j: int|
        0 <= j < neurons.len() ==> neuron_applied(
            g.subrange(0, base + (j + 1) * width),
            base + j * width,
            inputs,
            (#[trigger] neurons[j]).weights_spec(),
            neurons[j].bias_spec(),
            outputs[j],
        )
}

impl Layer {
    /// The neurons, in order.
    pub closed spec fn neurons_spec(self) -> Seq<Neuron> {
        self.neurons@
    }

    /// The number of neurons, which is the number of outputs.
    pub open spec fn output_size(self) -> nat {
        self.neurons_spec().len()
    }

    /// Every neuron reads `n` inputs.
    pub open spec fn reads(self, n: nat) -> bool {
        forall|j: int| 0 <= j < self.neurons_spec().len() ==> (#[trigger] self.neurons_spec()[j]).input_size() == n
    }

    /// The parameters of the neurons, one neuron after the other.
    pub open spec fn parameters_spec(self) -> Seq<Value> {
        parameters_of(self.neurons_spec())
    }

    /// The layer's leaves lie in a graph of `len` nodes.
    pub open spec fn valid_in(self, len: nat) -> bool {
        forall|j: int| 0 <= j < self.neurons_spec().len() ==> (#[trigger] self.neurons_spec()[j]).valid_in(len)
    }

    /// A layer of `output_size` new neurons that each read `input_size`
    /// inputs, made one after the other.
    pub fn new<S: Scalar, D: SeededDistribution<S>>(
        graph: &mut Graph<S>,
        input_size: usize,
        output_size: usize,
        randomness: &mut D,
    ) -> (layer: Layer)
        requires
            old(graph).wf(),
        ensures
            final(graph).wf(),
            extends(final(graph)@, old(graph)@),
            layer.output_size() == output_size,
            layer.reads(input_size as nat),
            layer.valid_in(final(graph)@.len()),
            layer.parameters_spec().len() == output_size * (input_size + 1),
            final(graph)@.len() == old(graph)@.len() + layer.parameters_spec().len(),
            forall|k: int|
                0 <= k < layer.parameters_spec().len() ==> (#[trigger] layer.parameters_spec()[k]).id
                    == old(graph)@.len() + k,
            forall|k: int|
                0 <= k < layer.parameters_spec().len() ==> is_leaf_without_gradient(
                    final(graph)@,
                    (#[trigger] layer.parameters_spec()[k]).id as int,
                ),
            drew(*old(randomness), numbers_from(final(graph)@, old(graph)@.len() as int), *final(randomness)),
    {
        let ghost base = old(graph)@.len() as int;
        let mut neurons: Vec<Neuron> = Vec::new();
        let mut i: usize = 0;
        proof {
            lemma_drew_nothing::<S, D>(*randomness);
            assert(numbers_from(graph@, base as int) =~= Seq::<S>::empty());
        }
        while i < output_size
            invariant
                i <= output_size,
                base == old(graph)@.len(),
                graph.wf(),
                extends(graph@, old(graph)@),
                neurons@.len() == i,
                forall|j: int| 0 <= j < i ==> (#[trigger] neurons@[j]).input_size() == input_size,
                forall|j: int| 0 <= j < i ==> (#[trigger] neurons@[j]).valid_in(graph@.len()),
                graph@.len() == base + parameters_of(neurons@).len(),
                forall|k: int|
                    0 <= k < parameters_of(neurons@).len() ==> (#[trigger] parameters_of(neurons@)[k]).id
                        == base + k,
                forall|k: int|
                    0 <= k < parameters_of(neurons@).len() ==> is_leaf_without_gradient(
                        graph@,
                        (#[trigger] parameters_of(neurons@)[k]).id as int,
                    ),
                drew(*old(randomness), numbers_from(graph@, base as int), *randomness),
            decreases output_size - i,
        {
            let ghost before = graph@;
            let ghost before_neurons = neurons@;
            let ghost before_randomness = *randomness;
            let neuron = Neuron::new(graph, input_size, randomness);
            neurons.push(neuron);
            proof {
                lemma_numbers_from_split(graph@, before, base as int);
                lemma_drew_concat(
                    *old(randomness),
                    numbers_from(before, base as int),
                    before_randomness,
                    numbers_from(graph@, before.len() as int),
                    *randomness,
                );
                assert(neurons@.drop_last() =~= before_neurons);
                let params = parameters_of(neurons@);
                let old_count = parameters_of(before_neurons).len();
                assert(params == parameters_of(before_neurons) + neuron.parameters_spec());
                assert forall|j: int| 0 <= j < i + 1 implies (#[trigger] neurons@[j]).valid_in(graph@.len()) by {
                    if j < i {
                        let n = neurons@[j];
                        assert(n == before_neurons[j]);
                        assert forall|m: int| 0 <= m < n.parameters_spec().len() implies (
                        #[trigger] n.parameters_spec()[m]).id < graph@.len() by {
                            assert(n.valid_in(before.len()));
                        }
                    }
                }
                assert forall|k: int| 0 <= k < params.len() implies (#[trigger] params[k]).id == base + k by {
                    if k >= old_count {
                        assert(params[k] == neuron.parameters_spec()[k - old_count]);
                    }
                }
                assert forall|k: int| 0 <= k < params.len() implies is_leaf_without_gradient(
                    graph@,
                    (#[trigger] params[k]).id as int,
                ) by {
                    if k >= old_count {
                        let m = k - old_count;
                        assert(params[k] == neuron.parameters_spec()[m]);
                        if m < input_size {
                            assert(neuron.parameters_spec()[m] == neuron.weights_spec()[m]);
                            assert(is_labelled_leaf(graph@, neuron.weights_spec()[m].id as int, "Neuron Weight"));
                        } else {
                            assert(neuron.parameters_spec()[m] == neuron.bias_spec());
                        }
                    } else {
                        assert(params[k] == parameters_of(before_neurons)[k]);
                        assert(is_leaf_without_gradient(before, parameters_of(before_neurons)[k].id as int));
                    }
                }
            }
            i = i + 1;
        }
        let layer = Layer { neurons };
        proof {
            lemma_parameter_count(neurons@, input_size as nat);
        }
        layer
    }

    /// Applies every neuron to `input`, in order; returns their activations.
    pub fn infer<S: Scalar>(&self, graph: &mut Graph<S>, input: &[Value]) -> (outputs: Vec<Value>)
        requires
            old(graph).wf(),
            self.valid_in(old(graph)@.len()),
            self.reads(input@.len()),
            all_below(input@, old(graph)@.len()),
        ensures
            final(graph).wf(),
            extends(final(graph)@, old(graph)@),
            layer_applied(final(graph)@, old(graph)@.len() as int, input@, self.neurons_spec(), outputs@),
            all_below(outputs@, final(graph)@.len()),
            forall|j: int, m: int|
                0 <= j < outputs@.len() && 0 <= m < input@.len() ==> reaches(
                    operations_of(final(graph)@),
                    (#[trigger] outputs@[j]).id as nat,
                    (#[trigger] input@[m]).id as nat,
                    false,
                ),
            forall|j: int, m: int|
                0 <= j < outputs@.len() && 0 <= m < self.neurons_spec()[j].parameters_spec().len() ==> reaches(
                    operations_of(final(graph)@),
                    (#[trigger] outputs@[j]).id as nat,
                    (#[trigger] self.neurons_spec()[j].parameters_spec()[m]).id as nat,
                    false,
                ),
    {
        let ghost base = old(graph)@.len() as int;
        let ghost width = 2 * input@.len() + 1;
        let mut outputs: Vec<Value> = Vec::new();
        let mut i: usize = 0;
        while i < self.neurons.len()
            invariant
                i <= self.neurons@.len(),
                base == old(graph)@.len(),
                width == 2 * input@.len() + 1,
                self.valid_in(old(graph)@.len()),
                self.reads(input@.len()),
                all_below(input@, old(graph)@.len()),
                graph.wf(),
                extends(graph@, old(graph)@),
                graph@.len() == base + i * width,
                outputs@.len() == i,
                all_below(outputs@, graph@.len()),
                forall|j: int|
                    0 <= j < i ==> neuron_applied(
                        graph@.subrange(0, base + (j + 1) * width),
                        base + j * width,
                        input@,
                        (#[trigger] self.neurons@[j]).weights_spec(),
                        self.neurons@[j].bias_spec(),
                        outputs@[j],
                    ),
                forall|j: int, m: int|
                    0 <= j < i && 0 <= m < input@.len() ==> reaches(
                        operations_of(graph@),
                        (#[trigger] outputs@[j]).id as nat,
                        (#[trigger] input@[m]).id as nat,
                        false,
                    ),
                forall|j: int, m: int|
                    0 <= j < i && 0 <= m < self.neurons@[j].parameters_spec().len() ==> reaches(
                        operations_of(graph@),
                        (#[trigger] outputs@[j]).id as nat,
                        (#[trigger] self.neurons@[j].parameters_spec()[m]).id as nat,
                        false,
                    ),
            decreases self.neurons@.len() - i,
        {
            let ghost before = graph@;
            let ghost before_outputs = outputs@;
            let neuron = &self.neurons[i];
            proof {
                assert(self.neurons_spec()[i as int] == *neuron);
                assert(neuron.input_size() == input@.len());
                assert forall|m: int| 0 <= m < neuron.parameters_spec().len() implies (
                #[trigger] neuron.parameters_spec()[m]).id < before.len() by {
                    assert(neuron.valid_in(old(graph)@.len()));
                }
                assert forall|m: int| 0 <= m < input@.len() implies (#[trigger] input@[m]).id < before.len() by {}
            }
            let out = neuron.infer(graph, input);
            outputs.push(out);
            proof {
                let ops_before = operations_of(before);
                let ops_after = operations_of(graph@);
                assert(neuron_applied(graph@, before.len() as int, input@, neuron.weights_spec(), neuron.bias_spec(), out));
                assert((i + 1) * width == i * width + width) by (nonlinear_arith);
                assert forall|q: int| 0 <= q < ops_before.len() implies #[trigger] ops_after[q] == ops_before[q] by {
                    assert(graph@[q] == before[q]);
                }
                assert forall|j: int|
                    0 <= j < i + 1 implies neuron_applied(
                    graph@.subrange(0, base + (j + 1) * width),
                    base + j * width,
                    input@,
                    (#[trigger] self.neurons@[j]).weights_spec(),
                    self.neurons@[j].bias_spec(),
                    outputs@[j],
                ) by {
                    if j < i {
                        assert(j + 1 <= i);
                        assert((j + 1) * width <= i * width) by (nonlinear_arith)
                            requires
                                j + 1 <= i,
                                width >= 0,
                        ;
                        assert(graph@.subrange(0, base + (j + 1) * width) =~= before.subrange(
                            0,
                            base + (j + 1) * width,
                        ));
                        assert(outputs@[j] == before_outputs[j]);
                    } else {
                        assert(graph@.subrange(0, base + (j + 1) * width) =~= graph@);
                    }
                }
                assert forall|j: int, m: int|
                    0 <= j < i + 1 && 0 <= m < input@.len() implies reaches(
                    ops_after,
                    (#[trigger] outputs@[j]).id as nat,
                    (#[trigger] input@[m]).id as nat,
                    false,
                ) by {
                    if j < i {
                        assert(outputs@[j] == before_outputs[j]);
                        lemma_reaches_prefix(ops_after, ops_before, outputs@[j].id as nat, input@[m].id as nat, false);
                    }
                }
                assert forall|j: int, m: int|
                    0 <= j < i + 1 && 0 <= m < self.neurons@[j].parameters_spec().len() implies reaches(
                    ops_after,
                    (#[trigger] outputs@[j]).id as nat,
                    (#[trigger] self.neurons@[j].parameters_spec()[m]).id as nat,
                    false,
                ) by {
                    if j < i {
                        assert(outputs@[j] == before_outputs[j]);
                        lemma_reaches_prefix(
                            ops_after,
                            ops_before,
                            outputs@[j].id as nat,
                            self.neurons@[j].parameters_spec()[m].id as nat,
                            false,
                        );
                    }
                }
            }
            i = i + 1;
        }
        outputs
    }

    /// The parameters of the neurons, one neuron after the other.
    pub fn parameters(&self) -> (params: Vec<Value>)
        ensures
            params@ == self.parameters_spec(),
    {
        let mut params: Vec<Value> = Vec::new();
        let mut i: usize = 0;
        while i < self.neurons.len()
            invariant
                i <= self.neurons@.len(),
                params@ == parameters_of(self.neurons@.subrange(0, i as int)),
            decreases self.neurons@.len() - i,
        {
            let mut own = self.neurons[i].parameters();
            proof {
                assert(self.neurons@.subrange(0, i + 1).drop_last() =~= self.neurons@.subrange(0, i as int));
            }
            params.append(&mut own);
            i = i + 1;
        }
        proof {
            assert(self.neurons@.subrange(0, self.neurons@.len() as int) =~= self.neurons@);
        }
        params
    }
}

/// The node at `id` is a leaf with no gradient.
pub open spec fn is_leaf_without_gradient<S>(nodes: Seq<ValueInner<S>>, id: int) -> bool {
    &&& 0 <= id < nodes.len()
    &&& nodes[id].operation == ValueOperation::Leaf
    &&& nodes[id].gradient is None
}

} // verus!
