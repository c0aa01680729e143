use vstd::prelude::*;
use crate::network::Network;

verus! {

/// A species: networks close enough in structure to compete among
/// themselves. Its fitness figures are single-precision numbers held as
/// their bit patterns.
pub struct Specie {
    pub id: usize,
    pub age: u16,
    pub stagnant_counter: usize,
    pub best_fitness: u32,
    pub highest_best_fitness: u32,
    pub avg_fitness: u32,
    /// A copy of the network new members are compared with.
    pub representative: Network,
    /// Positions of the members among the population's networks.
    pub members: Vec<usize>,
}

impl Specie {
    /// A new species with `rep` as its representative: no members yet, age
    /// and stagnation 0, and every fitness figure that of `rep` (0.0 where
    /// `rep` was not evaluated).
    pub fn new(rep: Network, id: usize) -> (s: Specie)
        ensures
            s.id == id,
            s.representative == rep,
            s.members@.len() == 0,
            s.age == 0,
            s.stagnant_counter == 0,
            s.best_fitness == (match rep.fitness { Some(f) => f, None => 0u32 }),
            s.avg_fitness == s.best_fitness,
            s.highest_best_fitness == s.best_fitness,
    {
        let fitness: u32 = match rep.fitness {
            Some(f) => f,
            None => 0,
        };
        Specie {
            representative: rep,
            members: Vec::new(),
            age: 0,
            stagnant_counter: 0,
            best_fitness: fitness,
            avg_fitness: fitness,
            id,
            highest_best_fitness: fitness,
        }
    }

    /// Forgets the members.
    pub fn clear_members(&mut self)
        ensures
            final(self).members@.len() == 0,
            final(self).id == old(self).id,
            final(self).age == old(self).age,
            final(self).stagnant_counter == old(self).stagnant_counter,
            final(self).best_fitness == old(self).best_fitness,
            final(self).highest_best_fitness == old(self).highest_best_fitness,
            final(self).avg_fitness == old(self).avg_fitness,
            final(self).representative == old(self).representative,
    {
        self.members.clear();
    }
}

} // verus!
