//! The closed set of activation families the engine knows.
//!
//! The descriptor only names the family; the scalar function itself and its
//! derivative are supplied by the caller as closures, since the engine does
//! not compute on scalar words.

use vstd::prelude::*;

verus! {

/// The activation families the engine supports.
#[derive(Clone, Copy, Debug, PartialEq, Eq, Structural)]
pub enum ActivationType {
    /// The logistic sigmoid family: the function maps a scalar into (0, 1)
    /// and its derivative is expressed in terms of the activated output as
    /// `y * (1 - y)`.
    Sigmoid,
}

/// A tagged choice of activation family, shared by all layers of a network.
#[derive(Clone, Copy, Debug, PartialEq, Eq, Structural)]
pub struct Activation {
    pub activation_type: ActivationType,
}

impl Activation {
    /// The sigmoid descriptor.
    pub fn sigmoid() -> (r: Activation)
        ensures
            r.activation_type == ActivationType::Sigmoid,
    {
        Activation { activation_type: ActivationType::Sigmoid }
    }
}

} // verus!
