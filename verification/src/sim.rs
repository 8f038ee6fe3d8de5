//! A population of nets in a world.
use vstd::prelude::*;
use crate::nn::consistency::unique_edges;
use crate::nn::layers::forward_only;
use crate::nn::synth::all_inputs;
use crate::nn::synth::all_outputs;
use crate::nn::layers::well_formed;
use crate::nn::synth::generated;
use crate::nn::Edge;
use crate::nn::Net;
use crate::nn::NeuralGraphError;
use crate::nn::Node;
use crate::nn::Scalar;
use crate::nn::GRAPH_LIMIT;

verus! {

/// A creature: it has a net for a brain.
#[derive(Debug)]
pub struct Creature {
    pub brain: Net,
}

/// A world of a given width and height with the creatures in it.
#[derive(Debug)]
pub struct Simulation {
    pub world_dim: (Scalar, Scalar),
    pub creatures: Vec<Creature>,
}

/// Why no simulation was made.
#[derive(Debug, Clone, Copy, PartialEq, Eq)]
pub enum CreateSimError {
    /// A brain could not be made.
    BrainCreateError(NeuralGraphError),
}

impl Simulation {
    /// A world of the dimensions `world_dim` with `num_creatures` creatures,
    /// each with a brain made at random from `input_nodes` and
    /// `output_nodes`.
    pub fn new<B: Fn() -> Scalar, E: Fn() -> Edge>(
        world_dim: (Scalar, Scalar),
        num_creatures: usize,
        input_nodes: &[Node],
        output_nodes: &[Node],
        bias_source: &B,
        edge_source: &E,
    ) -> (r: Result<Simulation, CreateSimError>)
        requires
            input_nodes@.len() <= GRAPH_LIMIT,
            output_nodes@.len() <= GRAPH_LIMIT,
            call_requires(bias_source, ()),
            call_requires(edge_source, ()),
        ensures
            r matches Ok(sim) && {
                &&& sim.world_dim == world_dim
                &&& sim.creatures@.len() == num_creatures
                &&& forall|i: int|
                    0 <= i < sim.creatures@.len() ==> {
                        let brain = (#[trigger] sim.creatures@[i]).brain;
                        &&& generated(
                            input_nodes@,
                            output_nodes@,
                            *bias_source,
                            *edge_source,
                            brain.graph@,
                        )
                        &&& brain.shaped()
                        &&& well_formed(brain.graph@)
                        &&& forward_only(brain.graph@)
                        &&& unique_edges(brain.graph@)
                        &&& all_inputs(input_nodes@) && all_outputs(output_nodes@)
                            ==> brain.valid()
                    }
            },
    {
        let mut creatures: Vec<Creature> = Vec::new();
        let mut i: usize = 0;
        while i < num_creatures
            invariant
                i <= num_creatures,
                creatures@.len() == i,
                input_nodes@.len() <= GRAPH_LIMIT,
                output_nodes@.len() <= GRAPH_LIMIT,
                call_requires(bias_source, ()),
                call_requires(edge_source, ()),
                forall|j: int|
                    0 <= j < creatures@.len() ==> {
                        let brain = (#[trigger] creatures@[j]).brain;
                        &&& generated(
                            input_nodes@,
                            output_nodes@,
                            *bias_source,
                            *edge_source,
                            brain.graph@,
                        )
                        &&& brain.shaped()
                        &&& well_formed(brain.graph@)
                        &&& forward_only(brain.graph@)
                        &&& unique_edges(brain.graph@)
                        &&& all_inputs(input_nodes@) && all_outputs(output_nodes@)
                            ==> brain.valid()
                    },
            decreases num_creatures - i,
        {
            match Net::gen(input_nodes, output_nodes, bias_source, edge_source) {
                Ok(brain) => {
                    creatures.push(Creature { brain });
                },
                Err(e) => {
                    return Err(CreateSimError::BrainCreateError(e));
                },
            }
            i += 1;
        }
        Ok(Simulation { world_dim, creatures })
    }
}

} // verus!
