//! Dimensions of the PLATO observe–predict–control system.
use vstd::prelude::*;

verus! {

/// The bits that the PLATO system grounds each state dimension in.
pub const PLATO_BITS_PER_DIM: usize = 8;

/// Dimensions and bit resolution of a PLATO system.
#[derive(Debug, Clone, Copy, PartialEq, Eq, Structural)]
pub struct PlatoConfig {
    pub state_dim: usize,
    pub control_dim: usize,
    pub observation_dim: usize,
    pub bits_per_dim: usize,
}

impl PlatoConfig {
    /// The configuration of a system that observes its whole state: the
    /// observation matrix is square, so the observation has the state's
    /// dimension, and each dimension is grounded in eight bits.
    pub fn square(state_dim: usize, control_dim: usize) -> (c: PlatoConfig)
        ensures
            c.state_dim == state_dim,
            c.control_dim == control_dim,
            c.observation_dim == state_dim,
            c.bits_per_dim == PLATO_BITS_PER_DIM,
    {
        PlatoConfig {
            state_dim,
            control_dim,
            observation_dim: state_dim,
            bits_per_dim: PLATO_BITS_PER_DIM,
        }
    }
}

} // verus!
