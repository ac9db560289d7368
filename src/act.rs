use vstd::prelude::*;

verus! {

/// The nonlinearity that a model applies after every layer.
#[derive(Clone, Copy, Debug, PartialEq, Eq, Structural)]
pub enum Activation {
    Sigmoid,
    Tanh,
    ReLU,
}

} // verus!
