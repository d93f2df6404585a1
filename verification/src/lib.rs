pub mod generate_svg;
pub mod multi_layer_perceptron;
pub mod neuron;
pub mod random;
pub mod scalar;
pub mod training;
pub mod value;

pub use scalar::Scalar;
pub use value::{Graph, Value, ValueInner, ValueOperation};

use vstd::prelude::*;

verus! {

} // verus!
