use vstd::prelude::*;
use crate::neuron::ZERO_BITS;

verus! {

/// A connection gene: a weighted link from one neuron to another, with the
/// innovation number `id` that marks the mutation which created it. The
/// weight is a single-precision number held as its IEEE-754 bit pattern.
#[derive(Debug, Clone, Copy)]
pub struct Link {
    pub id: usize,
    pub from: usize,
    pub to: usize,
    pub weight: u32,
    pub enabled: bool,
}

impl Default for Link {
    /// An enabled link from neuron 0 to neuron 0 with id 0 and weight 0.0.
    fn default() -> (l: Link)
        ensures
            l.id == 0,
            l.from == 0,
            l.to == 0,
            l.weight == ZERO_BITS,
            l.enabled,
    {
        Link { id: 0, from: 0, to: 0, weight: ZERO_BITS, enabled: true }
    }
}

} // verus!
