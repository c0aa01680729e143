//! Snake-playing agents evolved by neuro-evolution of augmenting topologies:
//! the board and its rules, the network genomes and their mutations, and
//! the population bookkeeping.

pub mod vec2;
pub mod config;
pub mod rng;
pub mod grid;
pub mod neuron;
pub mod link;
pub mod graph;
pub mod network;
pub mod specie;
pub mod popmanager;
