use snake_neat::config::Config;
use snake_neat::network::{Mutation, Network};
use snake_neat::link::Link;
use snake_neat::neuron::{Neuron, NeuronType, ZERO_BITS};
use snake_neat::popmanager::{share_leftovers, PopManager, BASE_DELTA_T_BITS};
use snake_neat::specie::Specie;

#[test]
fn a_new_population_is_empty() {
    let p = PopManager::new();
    assert_eq!(p.innovation_count, 0);
    assert_eq!(p.net_count, 0);
    assert_eq!(p.specie_count, 0);
    assert!(p.species.is_empty());
    assert!(p.networks.is_empty());
    assert_eq!(p.generation, 0);
    assert_eq!(p.delta_t, BASE_DELTA_T_BITS);
    assert_eq!(f32::from_bits(p.delta_t), 3.0);
}

#[test]
fn add_makes_the_first_generation() {
    let mut p = PopManager::new();
    let drawn = p.add();
    assert_eq!(p.networks.len(), Config::population_size);
    assert_eq!(p.net_count, Config::population_size);
    assert_eq!(drawn.len(), Config::population_size * Config::num_start_links);
    for (k, net) in p.networks.iter().enumerate() {
        assert_eq!(net.id, k);
        assert_eq!(net.fitness, None);
        assert_eq!(net.neurons.len(), 21);
        for (i, n) in net.neurons.iter().enumerate() {
            assert_eq!(n.id, i);
            let kind = if i < 17 { NeuronType::Input } else { NeuronType::Output };
            assert_eq!(n.kind, kind);
        }
        assert_eq!(net.links.len(), 1);
        let l = net.links[0];
        assert!(l.from < 17 && l.to >= 17 && l.to < 21);
        assert!(l.enabled);
        assert_eq!(l.weight, ZERO_BITS);
        assert_eq!(p.change_map.get(&(Mutation::add_link, l.from, l.to)), Some(l.id));
        assert!(l.id < p.innovation_count);
        assert_eq!(drawn[k], (k, 0));
    }
    assert!(p.innovation_count <= Config::population_size);
}

fn specie(id: usize, stagnant: usize, members: Vec<usize>) -> Specie {
    let mut s = Specie::new(Network::new(id), id);
    s.stagnant_counter = stagnant;
    s.members = members;
    s
}

#[test]
fn specie_new_starts_from_the_representative() {
    let mut rep = Network::new(3);
    rep.fitness = Some(7);
    let s = Specie::new(rep, 11);
    assert_eq!(s.id, 11);
    assert_eq!(s.age, 0);
    assert_eq!(s.stagnant_counter, 0);
    assert_eq!((s.best_fitness, s.avg_fitness, s.highest_best_fitness), (7, 7, 7));
    assert!(s.members.is_empty());
    assert_eq!(s.representative.id, 3);
    let t = Specie::new(Network::new(4), 12);
    assert_eq!(t.best_fitness, 0);
}

#[test]
fn clear_members_forgets_the_members_only() {
    let mut s = specie(2, 5, vec![1, 2, 3]);
    s.clear_members();
    assert!(s.members.is_empty());
    assert_eq!((s.id, s.stagnant_counter), (2, 5));
}

#[test]
fn stagnant_species_are_dropped() {
    let mut p = PopManager::new();
    p.species.push(specie(0, 0, vec![]));
    p.species.push(specie(1, Config::stagnation_threshold, vec![]));
    p.species.push(specie(2, Config::stagnation_threshold - 1, vec![]));
    p.handle_age_stagnation();
    let ids: Vec<usize> = p.species.iter().map(|s| s.id).collect();
    assert_eq!(ids, vec![0, 2]);
    assert_eq!(p.species[0].age, 1);
    assert_eq!(p.species[0].stagnant_counter, 1);
    assert_eq!(p.species[1].stagnant_counter, Config::stagnation_threshold);
}

#[test]
fn leftovers_go_to_the_largest_remainders() {
    let r = share_leftovers(vec![3, 2, 0], &vec![2, 0, 1], 7);
    assert_eq!(r, vec![4, 2, 1]);
    let r = share_leftovers(vec![5, 4], &vec![1, 0], 9);
    assert_eq!(r, vec![5, 4]);
    let r = share_leftovers(vec![0, 0, 0], &vec![1, 2, 0], 3);
    assert_eq!(r, vec![1, 1, 1]);
}

#[test]
fn shares_add_up_to_the_population() {
    let floors = vec![30, 21, 17, 9, 0, 12];
    let order = vec![4, 1, 5, 0, 3, 2];
    let r = share_leftovers(floors, &order, 93);
    assert_eq!(r.iter().sum::<usize>(), 93);
    assert_eq!(r, vec![31, 22, 17, 9, 1, 13]);
}

fn population_of(n: usize) -> PopManager {
    let mut p = PopManager::new();
    for i in 0..n {
        let mut net = Network::new(i);
        net.fitness = Some(i as u32);
        p.networks.push(net);
    }
    p.net_count = n;
    p
}

#[test]
fn join_species_adds_to_a_species_or_founds_one() {
    let mut p = population_of(3);
    p.join_species(0, None);
    assert_eq!(p.species.len(), 1);
    assert_eq!(p.species[0].id, 0);
    assert_eq!(p.species[0].members, vec![0]);
    assert_eq!(p.species[0].representative.id, 0);
    assert_eq!(p.specie_count, 1);
    p.join_species(1, Some(0));
    assert_eq!(p.species[0].members, vec![0, 1]);
    assert_eq!(p.specie_count, 1);
    p.join_species(2, None);
    assert_eq!(p.species.len(), 2);
    assert_eq!(p.species[1].id, 1);
    assert_eq!(p.species[1].best_fitness, 2);
    assert_eq!(p.specie_count, 2);
}

#[test]
fn empty_species_are_removed_in_order() {
    let mut p = PopManager::new();
    p.species.push(specie(0, 0, vec![1]));
    p.species.push(specie(1, 0, vec![]));
    p.species.push(specie(2, 0, vec![0, 2]));
    p.remove_empty_species();
    let ids: Vec<usize> = p.species.iter().map(|s| s.id).collect();
    assert_eq!(ids, vec![0, 2]);
    p.clear_species_members();
    assert!(p.species.iter().all(|s| s.members.is_empty()));
    assert_eq!(p.species.len(), 2);
}

#[test]
fn representatives_are_the_first_members() {
    let mut p = population_of(4);
    p.species.push(specie(0, 0, vec![2, 0]));
    p.species.push(specie(1, 0, vec![3]));
    p.set_species_representatives();
    assert_eq!(p.species[0].representative.id, 2);
    assert_eq!(p.species[1].representative.id, 3);
    assert_eq!(p.species[0].members, vec![2, 0]);
}

fn check_partition(p: &PopManager) {
    let n = p.networks.len();
    let mut seen = vec![0usize; n];
    for s in &p.species {
        assert!(!s.members.is_empty());
        for w in s.members.windows(2) {
            assert!(w[0] < w[1]);
        }
        for &m in &s.members {
            seen[m] += 1;
        }
    }
    assert!(seen.iter().all(|c| *c == 1));
}

#[test]
fn speciation_with_nothing_close_gives_one_species_each() {
    let mut p = population_of(5);
    p.speciate_population(|_a: &Network, _b: &Network| false);
    assert_eq!(p.species.len(), 5);
    assert_eq!(p.specie_count, 5);
    check_partition(&p);
    for s in &p.species {
        assert_eq!(s.members.len(), 1);
        assert_eq!(s.representative.id, s.members[0]);
    }
}

#[test]
fn speciation_with_everything_close_gives_one_species() {
    let mut p = population_of(6);
    p.speciate_population(|_a: &Network, _b: &Network| true);
    assert_eq!(p.species.len(), 1);
    assert_eq!(p.species[0].members, vec![0, 1, 2, 3, 4, 5]);
    assert_eq!(p.specie_count, 1);
    check_partition(&p);
}

#[test]
fn speciation_keeps_old_species_and_drops_empty_ones() {
    let mut p = population_of(6);
    // One old species whose representative is network 0 (even ids are
    // close to it), one whose representative nothing is close to.
    p.species.push(specie(0, 3, vec![5]));
    p.species.push(specie(1, 3, vec![4]));
    p.specie_count = 2;
    p.species[1].representative = Network::new(99);
    p.speciate_population(|a: &Network, b: &Network| b.id != 99 && a.id % 2 == b.id % 2);
    check_partition(&p);
    assert!(p.species.iter().all(|s| s.id != 1));
    let old = p.species.iter().find(|s| s.id == 0).expect("species 0 stays");
    assert_eq!(old.members, vec![0, 2, 4]);
    assert_eq!(old.stagnant_counter, 3);
    assert_eq!(p.species.len(), 2);
    assert_eq!(p.specie_count, 3);
}

#[test]
fn speciation_visits_species_in_shuffled_order() {
    let mut orders = Vec::new();
    for _ in 0..40 {
        let mut p = population_of(6);
        p.speciate_population(|_a: &Network, _b: &Network| false);
        let ids: Vec<usize> = p.species.iter().map(|s| s.id).collect();
        orders.push(ids);
    }
    assert!(orders.iter().any(|o| o.windows(2).any(|w| w[0] > w[1])));
}

fn io_net(id: usize, links: &[(usize, usize, usize)]) -> Network {
    let mut n = Network::new(id);
    for i in 0..21 {
        let kind = if i < 17 { NeuronType::Input } else { NeuronType::Output };
        n.insert_neuron(Neuron { id: i, activation: ZERO_BITS, bias: ZERO_BITS, kind });
    }
    for &(lid, from, to) in links {
        n.links.push(Link { id: lid, from, to, weight: ZERO_BITS, enabled: true });
    }
    n.fitness = Some(id as u32);
    n
}

#[test]
fn species_add_offspring_keeps_elites_and_fills_the_shares() {
    let mut p = PopManager::new();
    p.networks.push(io_net(0, &[(0, 0, 17)]));
    p.networks.push(io_net(1, &[(0, 0, 17), (1, 1, 18)]));
    p.networks.push(io_net(2, &[(2, 2, 19)]));
    p.net_count = 3;
    p.species.push(specie(0, 0, vec![0, 1]));
    p.species.push(specie(1, 0, vec![2]));
    p.species_add_offspring(&vec![2, 1], |_a: &Network, _b: &Network| (true, true, false));
    assert_eq!(p.networks.len(), 1 + 3);
    assert_eq!(p.networks[0].id, 0);
    assert_eq!(p.networks[0].fitness, Some(0));
    for child in &p.networks[1..] {
        assert_eq!(child.fitness, None);
        assert!(child.id <= 2 || (child.id >= 3 && child.id < p.net_count));
    }
    assert!(p.net_count >= 3 && p.net_count <= 6);
    // The one offspring of the one-member species is a copy of it.
    let last = &p.networks[3];
    assert_eq!(last.id, 2);
    assert_eq!(last.links.len(), 1);
    assert_eq!(last.links[0].id, 2);
    // Offspring of species 0 carry only genes of networks 0 and 1.
    for child in &p.networks[1..3] {
        assert!(child.links.iter().all(|l| l.id == 0 || l.id == 1));
    }
}

#[test]
fn species_add_offspring_leaves_an_empty_population() {
    let mut p = PopManager::new();
    p.species_add_offspring(&vec![], |_a: &Network, _b: &Network| (true, true, false));
    assert!(p.networks.is_empty());
    assert_eq!(p.net_count, 0);
}

#[test]
fn simple_add_offspring_fills_the_population_with_crosses() {
    let mut p = PopManager::new();
    p.networks.push(io_net(0, &[(0, 0, 17)]));
    p.networks.push(io_net(1, &[(1, 1, 18)]));
    p.networks.push(io_net(2, &[(2, 2, 19)]));
    p.net_count = 3;
    p.simple_add_offspring(|_a: &Network, _b: &Network| (true, false));
    assert_eq!(p.networks.len(), Config::population_size);
    assert!(p.net_count >= 3 && p.net_count <= 3 + Config::population_size);
    for child in &p.networks {
        if child.id >= 3 {
            assert_eq!(child.fitness, None);
            assert!(child.id < p.net_count);
        } else {
            // A network crossed with itself is copied as it is.
            assert_eq!(child.fitness, Some(child.id as u32));
        }
        assert!(child.links.iter().all(|l| l.id <= 2));
        assert_eq!(child.neurons.len(), 21);
    }
}
