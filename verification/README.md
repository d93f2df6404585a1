# micrograd

A small automatic-differentiation engine with a multi-layer perceptron on
top, written in Verus: every function of the library carries a contract
that Verus proves.

- `src/value.rs`: the expression graph. A `Graph` holds its nodes in the
  order they were made, and a `Value` is the index of a node; every node is
  computed from nodes made before it. Nodes are built with `leaf`, `add`,
  `sub`, `mul`, `div`, `pow`, `tanh` and `exp`; `backprop` propagates a
  gradient by the chain rule (`backpropagated` states exactly what it does),
  `zero_gradient` clears gradients and `step_value` moves a number against
  its gradient.
- `src/scalar.rs`: the `Scalar` trait, the number type the graph computes
  with. The library itself holds no floating point; `app/` and the tests use
  `f64`.
- `src/neuron.rs`, `src/multi_layer_perceptron.rs`, `src/training.rs`:
  neurons, layers, networks, the loss and training rounds.
- `src/random.rs`: a seeded Lehmer generator, seeded by the FNV-1a hash of a
  string.
- `src/generate_svg.rs`: the layout of an expression tree as boxes and lines
  with integer coordinates.
- `app/main.rs`: command-line programs that train a network and print its
  progress, and that write drawings out as SVG files.
