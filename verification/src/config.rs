use vstd::prelude::*;

verus! {

/// The settings of a run that the verified parts of the library read.
pub struct Config {}

#[allow(non_upper_case_globals)]
impl Config {
    /// Whether the population is divided into species.
    pub const use_species: bool = true;
    /// Whether the species are visited in a fresh random order for each network.
    pub const shuffle_species_order: bool = true;
    /// The number of species the compatibility threshold steers towards.
    pub const target_num_species: usize = 20;
    /// A species stagnant for more than this many generations is removed.
    pub const stagnation_threshold: usize = 25;
    /// How many of the best networks go unchanged into the next generation.
    pub const species_elitistm_num: usize = 1;
    /// How many of the best networks go unchanged into the next generation
    /// where the population is not divided into species.
    pub const global_elitistm_num: usize = 0;
    /// Whether the networks kept as elites are mutated too.
    pub const mutate_elites: bool = false;
    /// How many links each network of the first generation starts with.
    pub const num_start_links: usize = 1;
    /// The number of input neurons, the first ids of every network.
    pub const input_count: usize = 17;
    /// The number of output neurons, numbered right after the inputs.
    pub const output_count: usize = 4;
    /// How many networks a generation holds.
    pub const population_size: usize = 100;
    /// Whether a mutation repeated in a later generation gets its earlier innovation number.
    pub const global_change_map: bool = true;
    /// Whether, where two parents share a gene, the offspring takes one of them at random.
    pub const randomly_choose_matching_genes: bool = true;
    /// The board's width in cells, walls included.
    pub const grid_width: usize = 15;
    /// The board's height in cells, walls included.
    pub const grid_height: usize = 15;
}

} // verus!
