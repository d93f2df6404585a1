use micrograd::multi_layer_perceptron::MultiLayerPerceptron;
use micrograd::neuron::{Layer, Neuron};
use micrograd::random::{SeededDistribution, UniformDistribution};
use micrograd::{Graph, Scalar, Value, ValueOperation};

#[derive(Clone, Copy, Debug, PartialEq)]
struct F(f64);

impl Scalar for F {
    fn from_integer(n: i32) -> Self {
        F(n as f64)
    }
    fn from_bits(bits: u64) -> Self {
        F(f64::from_bits(bits))
    }
    fn plus(&self, rhs: &Self) -> Self {
        F(self.0 + rhs.0)
    }
    fn minus(&self, rhs: &Self) -> Self {
        F(self.0 - rhs.0)
    }
    fn times(&self, rhs: &Self) -> Self {
        F(self.0 * rhs.0)
    }
    fn negated(&self) -> Self {
        F(-self.0)
    }
    fn powf(&self, exponent: &Self) -> Self {
        F(self.0.powf(exponent.0))
    }
    fn powi(&self, exponent: i32) -> Self {
        F(self.0.powi(exponent))
    }
    fn tanh(&self) -> Self {
        F(self.0.tanh())
    }
    fn exp(&self) -> Self {
        F(self.0.exp())
    }
    fn to_text(&self) -> String {
        format!("{}", self.0)
    }
    fn to_debug_text(&self) -> String {
        format!("{:?}", self.0)
    }
    fn to_fixed_text(&self, decimals: usize) -> String {
        format!("{:.*}", decimals, self.0)
    }
    fn equals(&self, rhs: &Self) -> bool {
        self.0 == rhs.0
    }
}

fn leaf(graph: &mut Graph<F>, x: f64) -> Value {
    Value::leaf(graph, F(x))
}

#[test]
fn neuron_has_labelled_weights_then_bias() {
    let mut g = Graph::<F>::new();
    let mut rng = UniformDistribution::new("seed");
    let neuron = Neuron::new(&mut g, 5, &mut rng);
    let params = neuron.parameters();
    assert_eq!(params.len(), 6);
    assert_eq!(g.len(), 6);
    for (k, p) in params.iter().enumerate() {
        assert_eq!(p.id, k);
        let node = g.node(*p);
        assert_eq!(node.operation, ValueOperation::Leaf);
        assert_eq!(node.gradient, None);
        assert_eq!(node.label, Some(if k < 5 { "Neuron Weight" } else { "Neuron Bias" }));
    }
    let mut check = UniformDistribution::new("seed");
    for p in &params {
        let drawn: F = check.next();
        assert_eq!(g.node(*p).current_evaluation, drawn);
    }
    let after_neuron: F = rng.next();
    let after_check: F = check.next();
    assert_eq!(after_neuron, after_check);
}

#[test]
fn layer_parameters_hold_successive_draws() {
    let mut g = Graph::<F>::new();
    let mut rng = UniformDistribution::new("layer-seed");
    let layer = Layer::new(&mut g, 2, 3, &mut rng);
    let mut check = UniformDistribution::new("layer-seed");
    let params = layer.parameters();
    assert_eq!(params.len(), 9);
    for (k, p) in params.iter().enumerate() {
        let drawn: F = check.next();
        assert_eq!(p.id, k);
        assert_eq!(g.node(*p).current_evaluation, drawn);
    }
    let next_layer: F = rng.next();
    let next_check: F = check.next();
    assert_eq!(next_layer, next_check);
}

#[test]
fn perceptron_parameters_hold_successive_draws() {
    let mut g = Graph::<F>::new();
    let mut rng = UniformDistribution::new("test-seed");
    let mlp = MultiLayerPerceptron::new(&mut g, &[2, 3, 1], &mut rng);
    let mut check = UniformDistribution::new("test-seed");
    let params = mlp.parameters();
    assert_eq!(params.len(), 3 * 3 + 4);
    for p in &params {
        let drawn: F = check.next();
        assert_eq!(g.node(*p).current_evaluation, drawn);
    }
}

#[test]
fn zero_rounds_accept_any_examples() {
    let mut g = Graph::<F>::new();
    let mut rng = UniformDistribution::new("seed");
    let mut mlp = MultiLayerPerceptron::new(&mut g, &[3, 2, 0, 1], &mut rng);
    let odd_input = [leaf(&mut g, 1.0)];
    let odd_target = [leaf(&mut g, 1.0), leaf(&mut g, 2.0)];
    let before = g.len();
    let rounds = mlp.train(&mut g, 0, F(0.1), &[&odd_input[..]], &[&odd_target[..]]);
    assert!(rounds.is_empty());
    assert_eq!(g.len(), before);
    for p in mlp.parameters() {
        assert_eq!(g.node(p).gradient, None);
    }
}

#[test]
fn neuron_infers_tanh_of_weighted_sum() {
    let mut g = Graph::<F>::new();
    let mut rng = UniformDistribution::new("seed");
    let neuron = Neuron::new(&mut g, 2, &mut rng);
    let params = neuron.parameters();
    let x1 = leaf(&mut g, 0.5);
    let x2 = leaf(&mut g, -1.0);
    let out = neuron.infer(&mut g, &[x1, x2]);
    let w1 = g.node(params[0]).current_evaluation.0;
    let w2 = g.node(params[1]).current_evaluation.0;
    let b = g.node(params[2]).current_evaluation.0;
    let expected = ((b + 0.5 * w1) + -1.0 * w2).tanh();
    assert_eq!(out.evaluate_value(&g).0, expected);
    assert_eq!(g.node(out).label, Some("Neuron Activation"));
    assert!(matches!(g.node(out).operation, ValueOperation::Tanh(_)));
}

#[test]
fn layer_has_one_output_per_neuron() {
    let mut g = Graph::<F>::new();
    let mut rng = UniformDistribution::new("seed");
    let layer = Layer::new(&mut g, 2, 3, &mut rng);
    assert_eq!(layer.parameters().len(), 9);
    let x1 = leaf(&mut g, 0.5);
    let x2 = leaf(&mut g, -1.0);
    let outputs = layer.infer(&mut g, &[x1, x2]);
    assert_eq!(outputs.len(), 3);
}

#[test]
fn perceptron_parameter_count() {
    let mut g = Graph::<F>::new();
    let mut rng = UniformDistribution::new("test-seed");
    let mlp = MultiLayerPerceptron::new(&mut g, &[3, 4, 4, 1], &mut rng);
    assert_eq!(mlp.parameters().len(), 4 * 4 + 4 * 5 + 5);
    assert_eq!(g.len(), 41);
    let empty = MultiLayerPerceptron::new(&mut g, &[], &mut rng);
    assert_eq!(empty.parameters().len(), 0);
}

#[test]
fn perceptron_infers_through_every_layer() {
    let mut g = Graph::<F>::new();
    let mut rng = UniformDistribution::new("test-seed");
    let mlp = MultiLayerPerceptron::new(&mut g, &[3, 4, 4, 1], &mut rng);
    let input = [leaf(&mut g, 2.0), leaf(&mut g, 3.0), leaf(&mut g, -1.0)];
    let outputs = mlp.infer(&mut g, &input);
    assert_eq!(outputs.len(), 1);
    let value = outputs[0].evaluate_value(&g).0;
    assert!(value > -1.0 && value < 1.0);
}

#[test]
fn training_steps_every_parameter() {
    let mut g = Graph::<F>::new();
    let inputs = [
        vec![leaf(&mut g, 2.0), leaf(&mut g, 3.0), leaf(&mut g, -1.0)],
        vec![leaf(&mut g, 3.0), leaf(&mut g, -1.0), leaf(&mut g, 0.5)],
        vec![leaf(&mut g, 0.5), leaf(&mut g, 1.0), leaf(&mut g, 1.0)],
        vec![leaf(&mut g, 1.0), leaf(&mut g, 1.0), leaf(&mut g, -1.0)],
    ];
    let targets = [
        vec![leaf(&mut g, 1.0)],
        vec![leaf(&mut g, -1.0)],
        vec![leaf(&mut g, -1.0)],
        vec![leaf(&mut g, 1.0)],
    ];
    let mut rng = UniformDistribution::new("test-seed");
    let mut mlp = MultiLayerPerceptron::new(&mut g, &[3, 4, 4, 1], &mut rng);
    let before: Vec<f64> = mlp.parameters().iter().map(|p| g.node(*p).current_evaluation.0).collect();
    let input_refs: Vec<&[Value]> = inputs.iter().map(Vec::as_slice).collect();
    let target_refs: Vec<&[Value]> = targets.iter().map(Vec::as_slice).collect();
    let rounds = mlp.train(&mut g, 3, F(0.1), &input_refs, &target_refs);
    assert_eq!(rounds.len(), 3);
    let mut previous = before;
    for round in &rounds {
        assert_eq!(g.node(round.total_loss).gradient, Some(F(1.0)));
        assert_eq!(g.node(round.total_loss).label, Some("Ex Loss Accumulation"));
        assert_eq!(round.values.len(), 41);
        for k in 0..41 {
            let gradient = round.gradients[k].expect("every parameter has a gradient").0;
            assert_eq!(round.values[k].0, previous[k] - 0.1 * gradient);
        }
        previous = round.values.iter().map(|v| v.0).collect();
    }
    let first_loss = rounds[0].total_loss.evaluate_value(&g).0;
    assert!(first_loss >= 0.0);
}

#[test]
fn train_iteration_returns_the_total_loss() {
    let mut g = Graph::<F>::new();
    let mut rng = UniformDistribution::new("seed");
    let mlp = MultiLayerPerceptron::new(&mut g, &[2, 1], &mut rng);
    let x = [leaf(&mut g, 1.0), leaf(&mut g, -1.0)];
    let t = [leaf(&mut g, 0.5)];
    let total = mlp.train_iteration(&mut g, F(0.05), &[&x[..]], &[&t[..]]);
    assert_eq!(g.node(total).label, Some("Ex Loss Accumulation"));
    assert_eq!(g.node(total).gradient, Some(F(1.0)));
    for p in mlp.parameters() {
        assert!(g.node(p).gradient.is_some());
    }
}
