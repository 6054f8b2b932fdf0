use vstd::prelude::*;

verus! {

/// Activation functions that a network layer can apply.
#[derive(Clone, Copy, Debug, PartialEq, Eq, Structural)]
pub enum Activation {
    Sigmoid,
    Tanh,
    ReLU,
    Softmax,
}

/// The hidden-layer activation used when none was recorded.
pub fn default_activation() -> (a: Activation)
    ensures
        a == Activation::ReLU,
{
    Activation::ReLU
}

} // verus!
