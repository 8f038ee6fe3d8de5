//! A layered, evolvable neural-network graph: storage, structural editing,
//! propagation scheduling, mutation and two-parent crossover.
//!
//! Scalars (weights, biases, node values) are carried as the bit patterns of
//! single-precision numbers. The library moves and copies them but never
//! interprets them.
use vstd::prelude::*;
use vstd::string::StringSliceAdditionalSpecFns;

pub mod activations;
pub mod nn;
pub mod sim;

verus! {

/// The stable identity of a neuron: a kind tag and a number.
///
/// Two neurons in different graphs are the same gene exactly when both
/// parts agree, wherever the neurons are stored.
pub trait NeuronInfo {
    /// Whether the value has an identity at all. A placeholder has none.
    spec fn has_identity(&self) -> bool;

    /// The bytes of the kind tag.
    spec fn kind(&self) -> Seq<u8>;

    /// The identifying number, as contracts speak of it.
    spec fn ident(&self) -> usize;

    /// The kind tag.
    fn _type(&self) -> (r: &'static str)
        requires
            self.has_identity(),
        ensures
            r.spec_bytes() == self.kind(),
    ;

    /// The identifying number.
    fn id(&self) -> (r: usize)
        requires
            self.has_identity(),
        ensures
            r == self.ident(),
    ;
}

} // verus!
