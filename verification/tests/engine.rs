use micrograd::generate_svg::build_graph;
use micrograd::training::{calculate_loss_from_outputs_and_targets, format_values};
use micrograd::{Graph, Scalar, Value, ValueInner, ValueOperation};

#[derive(Clone, Copy, Debug, PartialEq)]
struct F(f64);

impl Scalar for F {
    fn from_integer(n: i32) -> Self {
        F(n as f64)
    }
    fn from_bits(bits: u64) -> Self {
        F(f64::from_bits(bits))
    }
    fn plus(&self, rhs: &Self) -> Self {
        F(self.0 + rhs.0)
    }
    fn minus(&self, rhs: &Self) -> Self {
        F(self.0 - rhs.0)
    }
    fn times(&self, rhs: &Self) -> Self {
        F(self.0 * rhs.0)
    }
    fn negated(&self) -> Self {
        F(-self.0)
    }
    fn powf(&self, exponent: &Self) -> Self {
        F(self.0.powf(exponent.0))
    }
    fn powi(&self, exponent: i32) -> Self {
        F(self.0.powi(exponent))
    }
    fn tanh(&self) -> Self {
        F(self.0.tanh())
    }
    fn exp(&self) -> Self {
        F(self.0.exp())
    }
    fn to_text(&self) -> String {
        format!("{}", self.0)
    }
    fn to_debug_text(&self) -> String {
        format!("{:?}", self.0)
    }
    fn to_fixed_text(&self, decimals: usize) -> String {
        format!("{:.*}", decimals, self.0)
    }
    fn equals(&self, rhs: &Self) -> bool {
        self.0 == rhs.0
    }
}

fn leaf(graph: &mut Graph<F>, x: f64) -> Value {
    Value::leaf(graph, F(x))
}

fn grad(graph: &Graph<F>, v: Value) -> f64 {
    graph.node(v).gradient.expect("no gradient set").0
}

fn assert_close(actual: f64, expected: f64, label: &str) {
    assert!(
        (actual - expected).abs() < 1e-9,
        "{label}: expected {expected}, got {actual}"
    );
}

fn plain(current_evaluation: f64, gradient: Option<f64>, operation: ValueOperation) -> ValueInner<F> {
    ValueInner { current_evaluation: F(current_evaluation), gradient: gradient.map(F), operation, label: None }
}

#[test]
fn simple_example() {
    let mut g = Graph::<F>::new();
    let a = leaf(&mut g, 1.0);
    let b = leaf(&mut g, 2.0);
    let c = leaf(&mut g, 3.0);

    let sum = a.add(&mut g, b);
    let expr = sum.mul(&mut g, c);

    let before = build_graph(&g, expr, true);
    assert_eq!(before.boxes.len(), 5);

    expr.backprop(&mut g, F(1.0));

    let after = build_graph(&g, expr, true);
    assert_eq!(after.boxes.len(), 5);

    assert_eq!(g.node(expr), plain(9.0, Some(1.0), ValueOperation::Multiplication(sum, c)));
    assert_eq!(g.node(sum), plain(3.0, Some(3.0), ValueOperation::Addition(a, b)));
    assert_eq!(g.node(a), plain(1.0, Some(3.0), ValueOperation::Leaf));
    assert_eq!(g.node(b), plain(2.0, Some(3.0), ValueOperation::Leaf));
    assert_eq!(g.node(c), plain(3.0, Some(3.0), ValueOperation::Leaf));
}

#[test]
fn subtraction_example() {
    let mut g = Graph::<F>::new();
    let a = leaf(&mut g, 5.0);
    let b = leaf(&mut g, 2.0);
    let c = leaf(&mut g, 3.0);

    let difference = a.sub(&mut g, b);
    let expr = difference.mul(&mut g, c);

    expr.backprop(&mut g, F(1.0));

    assert_eq!(g.node(expr), plain(9.0, Some(1.0), ValueOperation::Multiplication(difference, c)));
    assert_eq!(g.node(difference), plain(3.0, Some(3.0), ValueOperation::Subtraction(a, b)));
    assert_eq!(g.node(a), plain(5.0, Some(3.0), ValueOperation::Leaf));
    assert_eq!(g.node(b), plain(2.0, Some(-3.0), ValueOperation::Leaf));
    assert_eq!(g.node(c), plain(3.0, Some(3.0), ValueOperation::Leaf));
}

#[test]
fn addition_self() {
    let mut g = Graph::<F>::new();
    let a = leaf(&mut g, 1.0);

    let expr = a.add(&mut g, a);

    expr.backprop(&mut g, F(1.0));

    assert_eq!(g.node(expr), plain(2.0, Some(1.0), ValueOperation::Addition(a, a)));
    assert_eq!(g.node(a), plain(1.0, Some(2.0), ValueOperation::Leaf));
}

/// A single neuron `tanh(w1*x1 + w2*x2 + b)`.
#[test]
fn neuron_tanh() {
    let mut g = Graph::<F>::new();
    let x1 = leaf(&mut g, 2.0);
    let x2 = leaf(&mut g, 0.0);
    let w1 = leaf(&mut g, -3.0);
    let w2 = leaf(&mut g, 1.0);
    let b = leaf(&mut g, 6.881373587019543);

    let x1w1 = x1.mul(&mut g, w1);
    let x2w2 = x2.mul(&mut g, w2);
    let s = x1w1.add(&mut g, x2w2);
    let n = s.add(&mut g, b);
    let o = n.tanh(&mut g);

    o.backprop(&mut g, F(1.0));

    assert_close(o.evaluate_value(&g).0, 0.7071067811865476, "o.data");
    assert_close(grad(&g, x1), -1.4999999999999996, "x1.grad");
    assert_close(grad(&g, x2), 0.4999999999999999, "x2.grad");
    assert_close(grad(&g, w1), 0.9999999999999998, "w1.grad");
    assert_close(grad(&g, w2), 0.0, "w2.grad");
    assert_close(grad(&g, b), 0.4999999999999999, "b.grad");
}

/// The same neuron with tanh written through `exp`:
/// `tanh(n) = (e^(2n) - 1) / (e^(2n) + 1)`.
#[test]
fn neuron_tanh_via_exp() {
    let mut g = Graph::<F>::new();
    let x1 = leaf(&mut g, 2.0);
    let x2 = leaf(&mut g, 0.0);
    let w1 = leaf(&mut g, -3.0);
    let w2 = leaf(&mut g, 1.0);
    let b = leaf(&mut g, 6.881373587019543);

    let x1w1 = x1.mul(&mut g, w1);
    let x2w2 = x2.mul(&mut g, w2);
    let s = x1w1.add(&mut g, x2w2);
    let n = s.add(&mut g, b);
    let two = leaf(&mut g, 2.0);
    let twice = two.mul(&mut g, n);
    let e = twice.exp(&mut g);
    let one = leaf(&mut g, 1.0);
    let numerator = e.sub(&mut g, one);
    let other_one = leaf(&mut g, 1.0);
    let denominator = e.add(&mut g, other_one);
    let o = numerator.div(&mut g, denominator);

    o.backprop(&mut g, F(1.0));

    assert_close(o.evaluate_value(&g).0, 0.7071067811865477, "o.data");
    assert_close(grad(&g, x1), -1.5, "x1.grad");
    assert_close(grad(&g, w1), 1.0, "w1.grad");
    assert_close(grad(&g, w2), 0.0, "w2.grad");
    assert_close(grad(&g, b), 0.5, "b.grad");
}

#[test]
fn children_lists_operands_in_order() {
    let mut g = Graph::<F>::new();
    let a = leaf(&mut g, 1.0);
    let b = leaf(&mut g, 2.0);
    let p = a.pow(&mut g, b);
    let t = p.tanh(&mut g);
    assert_eq!(a.children(&g), Vec::<Value>::new());
    assert_eq!(p.children(&g), vec![a, b]);
    assert_eq!(t.children(&g), vec![p]);
}

#[test]
fn operations_compute_their_numbers() {
    let mut g = Graph::<F>::new();
    let a = leaf(&mut g, 3.0);
    let b = leaf(&mut g, 2.0);
    assert_eq!(a.add(&mut g, b).evaluate_value(&g), F(5.0));
    assert_eq!(a.sub(&mut g, b).evaluate_value(&g), F(1.0));
    assert_eq!(a.mul(&mut g, b).evaluate_value(&g), F(6.0));
    assert_eq!(a.pow(&mut g, b).evaluate_value(&g), F(9.0));
    assert_eq!(a.tanh(&mut g).evaluate_value(&g), F(3.0f64.tanh()));
    assert_eq!(a.exp(&mut g).evaluate_value(&g), F(3.0f64.exp()));
}

#[test]
fn division_is_product_with_reciprocal_power() {
    let mut g = Graph::<F>::new();
    let a = leaf(&mut g, 6.0);
    let b = leaf(&mut g, 3.0);
    let before = g.len();
    let q = a.div(&mut g, b);
    assert_eq!(g.len(), before + 3);
    assert_eq!(q.id, before + 2);
    let minus_one = Value { id: before };
    let power = Value { id: before + 1 };
    assert_eq!(g.node(minus_one), plain(-1.0, None, ValueOperation::Leaf));
    assert_eq!(g.node(power).operation, ValueOperation::Exponentiation { base: b, exp: minus_one });
    assert_eq!(g.node(power).gradient, None);
    assert_close(g.node(power).current_evaluation.0, 1.0 / 3.0, "power");
    assert_eq!(g.node(q).operation, ValueOperation::Multiplication(a, power));
    assert_close(g.node(q).current_evaluation.0, 2.0, "quotient");
}

#[test]
fn exponent_of_a_power_receives_no_gradient() {
    let mut g = Graph::<F>::new();
    let x = leaf(&mut g, 3.0);
    let y = leaf(&mut g, 2.0);
    let p = x.pow(&mut g, y);
    p.backprop(&mut g, F(1.0));
    assert_eq!(g.node(p).gradient, Some(F(1.0)));
    assert_eq!(g.node(x).gradient, Some(F(6.0)));
    assert_eq!(g.node(y).gradient, None);
}

#[test]
fn exp_passes_its_own_number_times_gradient() {
    let mut g = Graph::<F>::new();
    let x = leaf(&mut g, 1.0);
    let e = x.exp(&mut g);
    e.backprop(&mut g, F(2.0));
    assert_eq!(g.node(x).gradient, Some(F(2.0 * 1.0f64.exp())));
}

#[test]
fn zero_gradient_clears_everything_below() {
    let mut g = Graph::<F>::new();
    let x = leaf(&mut g, 3.0);
    let y = leaf(&mut g, 2.0);
    let unrelated = leaf(&mut g, 5.0);
    let p = x.pow(&mut g, y);
    let s = p.add(&mut g, x);
    unrelated.backprop(&mut g, F(1.0));
    s.backprop(&mut g, F(1.0));
    s.zero_gradient(&mut g);
    assert_eq!(g.node(s).gradient, None);
    assert_eq!(g.node(p).gradient, None);
    assert_eq!(g.node(x).gradient, None);
    assert_eq!(g.node(y).gradient, None);
    assert_eq!(g.node(unrelated).gradient, Some(F(1.0)));
    assert_eq!(g.node(s).current_evaluation, F(12.0));
}

#[test]
fn backprop_after_clearing_matches_a_fresh_backprop() {
    let mut g = Graph::<F>::new();
    let a = leaf(&mut g, 1.0);
    let b = leaf(&mut g, 2.0);
    let c = leaf(&mut g, 3.0);
    let sum = a.add(&mut g, b);
    let expr = sum.mul(&mut g, c);
    expr.backprop(&mut g, F(1.0));
    expr.backprop(&mut g, F(1.0));
    assert_eq!(g.node(a).gradient, Some(F(6.0)));
    expr.zero_gradient(&mut g);
    expr.backprop(&mut g, F(1.0));
    assert_eq!(g.node(expr).gradient, Some(F(1.0)));
    assert_eq!(g.node(sum).gradient, Some(F(3.0)));
    assert_eq!(g.node(a).gradient, Some(F(3.0)));
    assert_eq!(g.node(b).gradient, Some(F(3.0)));
    assert_eq!(g.node(c).gradient, Some(F(3.0)));
}

#[test]
fn backprop_twice_adds_the_seeds_at_the_root() {
    let mut g = Graph::<F>::new();
    let a = leaf(&mut g, 4.0);
    let t = a.tanh(&mut g);
    t.backprop(&mut g, F(1.0));
    t.backprop(&mut g, F(2.0));
    assert_eq!(g.node(t).gradient, Some(F(3.0)));
}

#[test]
fn step_value_moves_against_the_gradient() {
    let mut g = Graph::<F>::new();
    let a = leaf(&mut g, 1.0);
    let c = leaf(&mut g, 3.0);
    let expr = a.mul(&mut g, c);
    expr.backprop(&mut g, F(1.0));
    a.step_value(&mut g, F(0.1));
    assert_close(g.node(a).current_evaluation.0, 0.7, "stepped");
    assert_eq!(g.node(a).gradient, Some(F(3.0)));
    assert_eq!(g.node(expr).current_evaluation, F(3.0));
}

#[test]
fn with_label_names_the_node() {
    let mut g = Graph::<F>::new();
    let a = leaf(&mut g, 1.0);
    let same = a.with_label(&mut g, "Input");
    assert_eq!(same, a);
    assert_eq!(g.node(a).label, Some("Input"));
}

#[test]
fn display_strings() {
    let mut g = Graph::<F>::new();
    let a = leaf(&mut g, 1.0);
    let b = leaf(&mut g, 2.0);
    let sum = a.add(&mut g, b);
    assert_eq!(a.to_display_string(&g), "Leaf(1)");
    assert_eq!(sum.to_display_string(&g), "Value(Op=+, v=3, g=None)");
    sum.backprop(&mut g, F(3.0));
    assert_eq!(sum.to_display_string(&g), "Value(Op=+, v=3, g=Some(3.0))");
    let t = a.tanh(&mut g);
    assert_eq!(t.to_display_string(&g), format!("Value(Op=tanh, v={}, g=None)", 1.0f64.tanh()));
    assert_eq!(ValueOperation::Exp { exp: a }.symbol(), "e^");
    assert_eq!(ValueOperation::Exponentiation { base: a, exp: b }.symbol(), "^");
}

#[test]
fn format_values_one_per_line() {
    let mut g = Graph::<F>::new();
    let a = leaf(&mut g, 1.0);
    let b = leaf(&mut g, 2.5);
    assert_eq!(format_values(&g, &[a, b]), "[\n  Leaf(1),\n  Leaf(2.5),\n]");
    assert_eq!(format_values(&g, &[]), "[\n]");
}

#[test]
fn loss_squares_the_running_sum() {
    let mut g = Graph::<F>::new();
    let o1 = leaf(&mut g, 3.0);
    let o2 = leaf(&mut g, 0.0);
    let t1 = leaf(&mut g, 1.0);
    let t2 = leaf(&mut g, 1.0);
    let loss = calculate_loss_from_outputs_and_targets(&mut g, &[o1], &[t1]);
    assert_eq!(loss.evaluate_value(&g), F(4.0));
    assert!(matches!(g.node(loss).operation, ValueOperation::Exponentiation { .. }));
    let loss2 = calculate_loss_from_outputs_and_targets(&mut g, &[o1, o2], &[t1, t2]);
    // ((0 + 2)^2 + (0 - 1))^2 = 9
    assert_eq!(loss2.evaluate_value(&g), F(9.0));
    let empty = calculate_loss_from_outputs_and_targets(&mut g, &[], &[]);
    assert_eq!(g.node(empty), plain(0.0, None, ValueOperation::Leaf));
}

#[test]
fn drawing_of_a_small_expression() {
    let mut g = Graph::<F>::new();
    let a = leaf(&mut g, 1.0);
    let b = leaf(&mut g, 2.0);
    let c = leaf(&mut g, 3.0);
    let sum = a.add(&mut g, b);
    let expr = sum.mul(&mut g, c);
    let drawing = build_graph(&g, expr, true);
    assert_eq!(drawing.width, 400);
    assert_eq!(drawing.height, 350);
    let corners: Vec<(u128, u128)> = drawing.boxes.iter().map(|b| (b.x, b.y)).collect();
    assert_eq!(corners, vec![(160, 20), (110, 140), (210, 140), (110, 260), (210, 260)]);
    let labels: Vec<&str> = drawing.boxes.iter().map(|b| b.lines[0].text.as_str()).collect();
    assert_eq!(labels, vec!["*", "+", "leaf", "leaf", "leaf"]);
    assert_eq!(drawing.boxes[0].lines[1].text, "v=9.000");
    assert_eq!(drawing.boxes[0].lines[2].text, "g=?");
    assert_eq!((drawing.boxes[0].lines[0].x, drawing.boxes[0].lines[0].y), (200, 43));
    assert_eq!((drawing.boxes[0].lines[2].x, drawing.boxes[0].lines[2].y), (200, 75));
    let segments: Vec<(u128, u128, u128, u128)> =
        drawing.segments.iter().map(|s| (s.x1, s.y1, s.x2, s.y2)).collect();
    assert_eq!(
        segments,
        vec![(200, 90, 150, 140), (200, 90, 250, 140), (150, 210, 150, 260), (150, 210, 250, 260)]
    );
    expr.backprop(&mut g, F(1.0));
    let after = build_graph(&g, expr, false);
    assert_eq!(after.boxes[3].lines[1].text, "v=?");
    assert_eq!(after.boxes[3].lines[2].text, "g=3.000");
}

#[test]
fn drawing_unfolds_a_node_read_twice() {
    let mut g = Graph::<F>::new();
    let a = leaf(&mut g, 1.0);
    let twice = a.add(&mut g, a);
    let drawing = build_graph(&g, twice, true);
    assert_eq!(drawing.boxes.len(), 3);
    assert_eq!(drawing.segments.len(), 2);
    let wide = {
        let mut big = leaf(&mut g, 1.0);
        for i in 0..6 {
            let f = i as f64;
            let p = leaf(&mut g, f + 1.0);
            let q = leaf(&mut g, f + 2.0);
            let r = leaf(&mut g, f + 3.0);
            let s = leaf(&mut g, f + 4.0);
            let left = p.add(&mut g, q);
            let right = r.sub(&mut g, s);
            let branch = left.mul(&mut g, right);
            big = big.add(&mut g, branch);
        }
        build_graph(&g, big, true)
    };
    assert_eq!(wide.boxes.len(), 49);
    assert_eq!(wide.segments.len(), 48);
    assert_eq!(wide.height, 40 + 9 * 70 + 8 * 50);
}

#[test]
fn clearing_twice_is_clearing_once() {
    let mut g = Graph::<F>::new();
    let x = leaf(&mut g, 3.0);
    let y = leaf(&mut g, 2.0);
    let p = x.mul(&mut g, y);
    let t = p.tanh(&mut g);
    t.backprop(&mut g, F(1.0));
    t.zero_gradient(&mut g);
    let once: Vec<ValueInner<F>> = (0..g.len()).map(|i| g.node(Value { id: i })).collect();
    t.zero_gradient(&mut g);
    let twice: Vec<ValueInner<F>> = (0..g.len()).map(|i| g.node(Value { id: i })).collect();
    assert_eq!(once, twice);
    assert!(twice.iter().all(|n| n.gradient.is_none()));
}

#[test]
fn separately_built_expressions_are_equal() {
    let mut g = Graph::<F>::new();
    let a1 = leaf(&mut g, 1.0);
    let b1 = leaf(&mut g, 2.0);
    let e1 = a1.add(&mut g, b1);
    let a2 = leaf(&mut g, 1.0);
    let b2 = leaf(&mut g, 2.0);
    let e2 = a2.add(&mut g, b2);
    assert!(a1 != a2);
    assert!(a1.same_expression(&g, a2));
    assert!(e1.same_expression(&g, e2));
    assert!(e1.same_expression(&g, e1));
    assert!(!a1.same_expression(&g, b1));
    let d = a2.sub(&mut g, b2);
    assert!(!e1.same_expression(&g, d));
    let swapped = b2.add(&mut g, a2);
    assert!(!e1.same_expression(&g, swapped));
}

#[test]
fn expression_equality_compares_gradients_and_labels() {
    let mut g = Graph::<F>::new();
    let a = leaf(&mut g, 1.0);
    let b = leaf(&mut g, 1.0);
    assert!(a.same_expression(&g, b));
    let a = a.with_label(&mut g, "Input");
    assert!(!a.same_expression(&g, b));
    let b = b.with_label(&mut g, "Input");
    assert!(a.same_expression(&g, b));
    let t = a.tanh(&mut g);
    t.backprop(&mut g, F(1.0));
    assert!(!a.same_expression(&g, b));
    let u = b.tanh(&mut g);
    assert!(!t.same_expression(&g, u));
    u.backprop(&mut g, F(1.0));
    assert!(t.same_expression(&g, u));
}


#[test]
fn stale_gradients_do_not_leak_after_clearing() {
    fn build(g: &mut Graph<F>) -> Vec<Value> {
        let x = Value::leaf(g, F(0.5));
        let y = Value::leaf(g, F(-2.0));
        let p = x.mul(g, y);
        let q = p.add(g, x);
        let e = q.exp(g);
        let two = Value::leaf(g, F(2.0));
        let r = e.pow(g, two);
        vec![x, y, p, q, e, two, r]
    }
    let mut used = Graph::<F>::new();
    let nodes = build(&mut used);
    let root = nodes[6];
    root.backprop(&mut used, F(1.5));
    nodes[3].backprop(&mut used, F(-4.0));
    root.zero_gradient(&mut used);
    root.backprop(&mut used, F(1.0));

    let mut fresh = Graph::<F>::new();
    let fresh_nodes = build(&mut fresh);
    fresh_nodes[6].backprop(&mut fresh, F(1.0));

    for (a, b) in nodes.iter().zip(fresh_nodes.iter()) {
        assert_eq!(used.node(*a).gradient, fresh.node(*b).gradient);
    }
    assert_eq!(used.node(nodes[5]).gradient, None);
}
