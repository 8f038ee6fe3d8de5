use vstd::prelude::*;
use vstd::string::StringSliceAdditionalSpecFns;
use crate::nn::OutputNeuron;
use crate::nn::Scalar;

verus! {

/// The logistic output kind.
#[derive(Debug, Clone, Copy)]
pub struct Sigmoid;

impl Sigmoid {
    /// The kind tag of logistic outputs.
    pub open spec fn tag() -> Seq<u8> {
        "Sigmoid".spec_bytes()
    }

    /// An output neuron of the logistic kind with the given stored value,
    /// identifying number and label.
    pub fn new(value: Scalar, id: usize, _type: &'static str) -> (r: OutputNeuron)
        ensures
            r.kind.spec_bytes() == Self::tag(),
            r.id == id,
            r.value == value,
            r.label == _type,
    {
        OutputNeuron { kind: "Sigmoid", id, value, label: _type }
    }
}

} // verus!
