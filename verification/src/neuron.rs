use vstd::prelude::*;

verus! {

/// The role of a neuron in its network.
#[derive(Debug, PartialEq, Eq, Clone, Copy, Structural)]
pub enum NeuronType {
    Input,
    Hidden,
    Output,
}

/// The bit pattern of the single-precision number 0.0.
pub const ZERO_BITS: u32 = 0x0000_0000;

/// The bit pattern of the single-precision number 0.5.
pub const HALF_BITS: u32 = 0x3F00_0000;

/// The bit pattern of the single-precision number 1.0.
pub const ONE_BITS: u32 = 0x3F80_0000;

/// A node of a network. Its activation and bias are single-precision
/// numbers, held here as their IEEE-754 bit patterns: the network's
/// structure is this library's business, the arithmetic on them is not.
#[derive(Debug, Clone, Copy)]
pub struct Neuron {
    pub id: usize,
    pub activation: u32,
    pub bias: u32,
    pub kind: NeuronType,
}

impl Default for Neuron {
    /// A hidden neuron with id 0, activation 0.0 and bias 0.0.
    fn default() -> (n: Neuron)
        ensures
            n.id == 0,
            n.activation == ZERO_BITS,
            n.bias == ZERO_BITS,
            n.kind == NeuronType::Hidden,
    {
        Neuron { id: 0, activation: ZERO_BITS, bias: ZERO_BITS, kind: NeuronType::Hidden }
    }
}

} // verus!
