use snake_neat::link::Link;
use snake_neat::network::{ChangeMap, Mutation, Network};
use snake_neat::neuron::{Neuron, NeuronType, HALF_BITS, ONE_BITS, ZERO_BITS};

fn neuron(id: usize, kind: NeuronType) -> Neuron {
    Neuron { id, activation: ZERO_BITS, bias: ZERO_BITS, kind }
}

fn link(id: usize, from: usize, to: usize, enabled: bool) -> Link {
    Link { id, from, to, weight: ONE_BITS, enabled }
}

/// A network with inputs 0 and 1, output 2 and hidden neuron 3.
fn small_network(id: usize) -> Network {
    let mut n = Network::new(id);
    n.insert_neuron(neuron(0, NeuronType::Input));
    n.insert_neuron(neuron(1, NeuronType::Input));
    n.insert_neuron(neuron(2, NeuronType::Output));
    n.insert_neuron(neuron(3, NeuronType::Hidden));
    n
}

#[test]
fn new_network_is_empty() {
    let n = Network::new(7);
    assert_eq!(n.id, 7);
    assert!(n.neurons.is_empty());
    assert!(n.links.is_empty());
    assert_eq!(n.fitness, None);
}

#[test]
fn insert_neuron_replaces_a_neuron_with_the_same_id() {
    let mut n = small_network(0);
    assert_eq!(n.neurons.len(), 4);
    n.insert_neuron(Neuron { id: 3, activation: HALF_BITS, bias: ZERO_BITS, kind: NeuronType::Hidden });
    assert_eq!(n.neurons.len(), 4);
    assert_eq!(n.get_neuron(3).activation, HALF_BITS);
    assert_eq!(n.get_neuron(2).kind, NeuronType::Output);
}

#[test]
fn get_link_finds_the_first_link_with_the_id() {
    let mut n = small_network(0);
    n.links.push(link(4, 0, 2, true));
    n.links.push(link(9, 1, 2, false));
    assert_eq!(n.get_link(9).map(|l| l.from), Some(1));
    assert!(n.get_link(5).is_none());
}

#[test]
fn cycle_follows_links_forward_from_the_target() {
    let mut n = small_network(0);
    n.links.push(link(0, 0, 3, true));
    n.links.push(link(1, 3, 2, false));
    assert!(n.cycle(2, 0));
    assert!(n.cycle(3, 0));
    assert!(!n.cycle(0, 2));
    assert!(!n.cycle(1, 0));
    assert!(!n.cycle(0, 0));
}

#[test]
fn add_link_between_numbers_a_new_mutation() {
    let mut n = small_network(0);
    let mut count: usize = 10;
    let mut map = ChangeMap::new();
    let r = n.add_link_between(0, 2, &mut count, &mut map);
    assert_eq!(r, Some(0));
    assert_eq!(n.links.len(), 1);
    assert_eq!(n.links[0].id, 10);
    assert_eq!(n.links[0].from, 0);
    assert_eq!(n.links[0].to, 2);
    assert_eq!(n.links[0].weight, ZERO_BITS);
    assert!(n.links[0].enabled);
    assert_eq!(count, 11);
    assert_eq!(map.get(&(Mutation::add_link, 0, 2)), Some(10));
}

#[test]
fn the_same_link_mutation_gets_the_same_number() {
    let mut a = small_network(0);
    let mut b = small_network(1);
    let mut count: usize = 0;
    let mut map = ChangeMap::new();
    a.add_link_between(1, 3, &mut count, &mut map);
    a.add_link_between(0, 2, &mut count, &mut map);
    let r = b.add_link_between(0, 2, &mut count, &mut map);
    assert_eq!(r, Some(0));
    assert_eq!(b.links[0].id, a.links[1].id);
    assert_eq!(b.links[0].id, 1);
    assert_eq!(count, 2);
}

#[test]
fn add_link_between_refuses_a_cycle() {
    let mut n = small_network(0);
    let mut count: usize = 0;
    let mut map = ChangeMap::new();
    n.add_link_between(0, 3, &mut count, &mut map);
    n.add_link_between(3, 2, &mut count, &mut map);
    let r = n.add_link_between(2, 0, &mut count, &mut map);
    assert_eq!(r, None);
    assert_eq!(n.links.len(), 2);
    assert_eq!(count, 2);
    assert!(!map.contains_key(&(Mutation::add_link, 2, 0)));
}

#[test]
fn an_existing_link_is_enabled_again() {
    let mut n = small_network(0);
    n.links.push(link(5, 3, 2, false));
    let mut count: usize = 8;
    let mut map = ChangeMap::new();
    let r = n.add_link_between(3, 2, &mut count, &mut map);
    assert_eq!(r, None);
    assert_eq!(n.links.len(), 1);
    assert!(n.links[0].enabled);
    assert_eq!(n.links[0].id, 5);
    assert_eq!(count, 8);
    assert!(!map.contains_key(&(Mutation::add_link, 3, 2)));
}

#[test]
fn add_link_joins_a_source_to_a_target() {
    let mut n = small_network(0);
    let mut count: usize = 0;
    let mut map = ChangeMap::new();
    let r = n.add_link(&mut count, &mut map);
    if let Some(p) = r {
        let l = n.links[p];
        assert!(l.from != 2);
        assert!(l.to == 2 || l.to == 3);
        assert_eq!(map.get(&(Mutation::add_link, l.from, l.to)), Some(l.id));
    } else {
        assert!(n.links.iter().all(|l| l.enabled));
    }
}

#[test]
fn add_link_without_targets_changes_nothing() {
    let mut n = Network::new(0);
    n.insert_neuron(neuron(0, NeuronType::Input));
    let mut count: usize = 4;
    let mut map = ChangeMap::new();
    assert_eq!(n.add_link(&mut count, &mut map), None);
    assert!(n.links.is_empty());
    assert_eq!(count, 4);
}

#[test]
fn remove_and_toggle_act_on_the_only_link() {
    let mut n = small_network(0);
    n.links.push(link(0, 0, 2, true));
    n.toggle_link();
    assert!(!n.links[0].enabled);
    n.toggle_link();
    assert!(n.links[0].enabled);
    n.remove_link();
    assert!(n.links.is_empty());
    n.remove_link();
    n.toggle_link();
    assert!(n.links.is_empty());
}

#[test]
fn add_hidden_neuron_splits_an_enabled_link() {
    let mut n = small_network(0);
    n.links.push(link(0, 0, 2, true));
    let mut count: usize = 20;
    let mut map = ChangeMap::new();
    n.add_hidden_neuron(&mut count, &mut map);
    assert_eq!(count, 23);
    assert_eq!(map.get(&(Mutation::add_neuron, 0, 2)), Some(20));
    assert!(!n.links[0].enabled);
    assert_eq!(n.links.len(), 3);
    assert_eq!((n.links[1].id, n.links[1].from, n.links[1].to), (21, 0, 20));
    assert_eq!(n.links[1].weight, ONE_BITS);
    assert_eq!((n.links[2].id, n.links[2].from, n.links[2].to), (22, 20, 2));
    assert_eq!(n.links[2].weight, ONE_BITS);
    assert_eq!(n.get_neuron(20).kind, NeuronType::Hidden);
    assert_eq!(n.get_neuron(20).activation, HALF_BITS);

    // The same split elsewhere reuses the remembered number.
    let mut m = small_network(1);
    m.links.push(link(0, 0, 2, true));
    m.add_hidden_neuron(&mut count, &mut map);
    assert_eq!(count, 23);
    assert_eq!(m.links[1].id, 21);
}

#[test]
fn add_hidden_neuron_needs_an_enabled_link() {
    let mut n = small_network(0);
    n.links.push(link(0, 0, 2, false));
    let mut count: usize = 20;
    let mut map = ChangeMap::new();
    n.add_hidden_neuron(&mut count, &mut map);
    assert_eq!(count, 20);
    assert_eq!(n.links.len(), 1);
    assert_eq!(n.neurons.len(), 4);
}

#[test]
fn remove_hidden_neuron_drops_its_links() {
    let mut n = small_network(0);
    n.links.push(link(0, 0, 3, true));
    n.links.push(link(1, 3, 2, true));
    n.links.push(link(2, 1, 2, true));
    n.remove_hidden_neuron();
    assert_eq!(n.neurons.len(), 3);
    assert!(n.neurons.iter().all(|x| x.id != 3));
    assert_eq!(n.links.len(), 1);
    assert_eq!(n.links[0].id, 2);
    n.remove_hidden_neuron();
    assert_eq!(n.neurons.len(), 3);
}

#[test]
fn set_up_intial_links_joins_every_input_to_every_output() {
    let mut n = Network::new(0);
    n.insert_neuron(neuron(0, NeuronType::Input));
    n.insert_neuron(neuron(1, NeuronType::Input));
    n.insert_neuron(neuron(2, NeuronType::Output));
    n.insert_neuron(neuron(3, NeuronType::Output));
    n.set_up_intial_links();
    let got: Vec<(usize, usize, usize)> = n.links.iter().map(|l| (l.id, l.from, l.to)).collect();
    assert_eq!(got, vec![(4, 0, 2), (5, 0, 3), (6, 1, 2), (7, 1, 3)]);
    assert!(n.links.iter().all(|l| l.enabled && l.weight == ZERO_BITS));
}

#[test]
fn compare_genes_counts_excess_and_disjoint() {
    let mut a = small_network(0);
    let mut b = small_network(1);
    for id in [0usize, 1, 2, 5] {
        a.links.push(link(id, 0, 2, true));
    }
    for id in [0usize, 1, 3] {
        b.links.push(link(id, 0, 2, true));
    }
    let c = a.compare_genes(&b);
    assert_eq!(c.excess, 1);
    assert_eq!(c.disjoint, 2);
    assert_eq!(c.genome_size, 4);
    let mut shared = c.shared.clone();
    shared.sort();
    assert_eq!(shared, vec![0, 1]);
}

#[test]
fn compare_genes_of_empty_genomes() {
    let a = small_network(0);
    let b = small_network(1);
    let c = a.compare_genes(&b);
    assert_eq!((c.excess, c.disjoint, c.genome_size), (0, 0, 1));
    assert!(c.shared.is_empty());
}

#[test]
fn topological_sort_orders_sources_first() {
    let mut n = small_network(0);
    n.links.push(link(0, 0, 3, true));
    n.links.push(link(1, 3, 2, true));
    n.links.push(link(2, 1, 2, true));
    assert_eq!(n.topological_sort(), vec![1, 0, 3, 2]);
}

#[test]
fn clone_network_copies_everything() {
    let mut n = small_network(4);
    n.links.push(link(0, 0, 2, true));
    n.fitness = Some(ONE_BITS);
    let c = n.clone_network();
    assert_eq!(c.id, 4);
    assert_eq!(c.neurons.len(), 4);
    assert_eq!(c.links.len(), 1);
    assert_eq!(c.fitness, Some(ONE_BITS));
}

/// A network with the 17 inputs and 4 outputs and the given links.
fn io_network(id: usize, links: &[(usize, usize, usize, bool)]) -> Network {
    let mut n = Network::new(id);
    for i in 0..17 {
        n.insert_neuron(neuron(i, NeuronType::Input));
    }
    for i in 17..21 {
        n.insert_neuron(neuron(i, NeuronType::Output));
    }
    for &(lid, from, to, enabled) in links {
        n.links.push(link(lid, from, to, enabled));
    }
    n
}

#[test]
fn crossover_of_a_network_with_itself_is_a_copy() {
    let n = io_network(4, &[(0, 0, 17, true)]);
    let mut count: usize = 9;
    let child = n.crossover(&n, &mut count, true, false);
    assert_eq!(count, 9);
    assert_eq!(child.id, 4);
    assert_eq!(child.links.len(), 1);
    assert_eq!(child.neurons.len(), 21);
}

#[test]
fn crossover_takes_genes_from_the_dominant_parent() {
    let a = io_network(1, &[(0, 0, 17, true), (1, 1, 18, true), (4, 2, 19, true)]);
    let b = io_network(2, &[(0, 0, 17, true), (2, 3, 20, true)]);
    let mut count: usize = 9;
    let child = a.crossover(&b, &mut count, true, false);
    assert_eq!(count, 10);
    assert_eq!(child.id, 9);
    assert_eq!(child.fitness, None);
    let mut ids: Vec<usize> = child.links.iter().map(|l| l.id).collect();
    ids.sort();
    assert_eq!(ids, vec![0, 1, 4]);
    assert_eq!(child.neurons.len(), 21);
    assert!(child.links.iter().all(|l| l.enabled));
}

#[test]
fn crossover_of_equally_fit_parents_takes_all_genes() {
    let a = io_network(1, &[(0, 0, 17, true), (1, 1, 18, true)]);
    let b = io_network(2, &[(0, 0, 17, true), (2, 3, 20, true)]);
    let mut count: usize = 0;
    let child = b.crossover(&a, &mut count, false, true);
    let mut ids: Vec<usize> = child.links.iter().map(|l| l.id).collect();
    ids.sort();
    assert_eq!(ids, vec![0, 1, 2]);
    assert_eq!(child.id, 0);
    assert_eq!(count, 1);
}

#[test]
fn set_inputs_and_get_outputs_use_the_io_neurons() {
    let mut n = Network::new(0);
    for i in 0..17 {
        n.insert_neuron(neuron(i, NeuronType::Input));
    }
    for i in 17..21 {
        n.insert_neuron(Neuron { id: i, activation: i as u32, bias: ZERO_BITS, kind: NeuronType::Output });
    }
    let inputs: Vec<u32> = (100..117).collect();
    n.set_inputs(inputs);
    assert_eq!(n.get_neuron(0).activation, 100);
    assert_eq!(n.get_neuron(16).activation, 116);
    assert_eq!(n.get_outputs(), vec![17, 18, 19, 20]);
}

#[test]
fn get_neuron_mut_changes_the_neuron_in_place() {
    let mut n = small_network(0);
    n.get_neuron_mut(3).bias = ONE_BITS;
    assert_eq!(n.get_neuron(3).bias, ONE_BITS);
    assert_eq!(n.neurons.len(), 4);
}

#[test]
fn change_map_keeps_the_last_value_per_key() {
    let mut m = ChangeMap::new();
    assert!(!m.contains_key(&(Mutation::add_link, 1, 2)));
    m.insert((Mutation::add_link, 1, 2), 5);
    m.insert((Mutation::add_neuron, 1, 2), 6);
    m.insert((Mutation::add_link, 1, 2), 7);
    assert_eq!(m.get(&(Mutation::add_link, 1, 2)), Some(7));
    assert_eq!(m.get(&(Mutation::add_neuron, 1, 2)), Some(6));
    m.clear();
    assert_eq!(m.get(&(Mutation::add_link, 1, 2)), None);
}

#[test]
fn add_link_draws_different_pairs() {
    let mut seen = std::collections::HashSet::new();
    for _ in 0..100 {
        let mut n = io_network(0, &[]);
        let mut count: usize = 0;
        let mut map = ChangeMap::new();
        let p = n.add_link(&mut count, &mut map).expect("an input and an output can always be linked");
        seen.insert((n.links[p].from, n.links[p].to));
        assert!(n.links[p].from < 17 && (17..21).contains(&n.links[p].to));
    }
    assert!(seen.len() > 1);
}

#[test]
fn mutations_keep_links_between_neurons() {
    let mut n = io_network(0, &[]);
    let mut count: usize = 21;
    let mut map = ChangeMap::new();
    for round in 0..300 {
        match round % 6 {
            0 | 1 => {
                n.add_link(&mut count, &mut map);
            }
            2 => n.add_hidden_neuron(&mut count, &mut map),
            3 => n.toggle_link(),
            4 => {
                if round % 12 == 4 {
                    n.remove_hidden_neuron();
                } else {
                    n.remove_link();
                }
            }
            _ => {}
        }
        for l in &n.links {
            assert!(n.neurons.iter().any(|x| x.id == l.from));
            assert!(n.neurons.iter().any(|x| x.id == l.to));
        }
        let order = n.topological_sort();
        assert_eq!(order.len(), n.neurons.len());
        let mut sorted = order.clone();
        sorted.sort();
        sorted.dedup();
        assert_eq!(sorted.len(), order.len());
    }
}

#[test]
fn add_hidden_neuron_never_overwrites_a_neuron() {
    let mut n = small_network(0);
    n.links.push(link(0, 0, 2, true));
    // The counter names the output neuron 2: the split still happens, and
    // the new neuron takes the next id after the largest, 4.
    let mut count: usize = 2;
    let mut map = ChangeMap::new();
    n.add_hidden_neuron(&mut count, &mut map);
    assert_eq!(count, 5);
    assert_eq!(map.get(&(Mutation::add_neuron, 0, 2)), Some(2));
    assert_eq!(n.neurons.len(), 5);
    assert_eq!(n.get_neuron(2).kind, NeuronType::Output);
    assert_eq!(n.get_neuron(4).kind, NeuronType::Hidden);
    assert!(!n.links[0].enabled);
    assert_eq!((n.links[1].id, n.links[1].from, n.links[1].to), (3, 0, 4));
    assert_eq!((n.links[2].id, n.links[2].from, n.links[2].to), (4, 4, 2));
}

#[test]
fn splitting_a_link_again_makes_another_neuron() {
    let mut n = small_network(0);
    n.links.push(link(0, 0, 2, true));
    let mut count: usize = 20;
    let mut map = ChangeMap::new();
    n.add_hidden_neuron(&mut count, &mut map);
    n.links[0].enabled = true;
    n.links[1].enabled = false;
    n.links[2].enabled = false;
    n.add_hidden_neuron(&mut count, &mut map);
    assert_eq!(count, 23);
    assert_eq!(n.neurons.len(), 6);
    assert_eq!(n.get_neuron(21).kind, NeuronType::Hidden);
    assert_eq!((n.links[3].id, n.links[3].from, n.links[3].to), (21, 0, 21));
    assert_eq!((n.links[4].id, n.links[4].from, n.links[4].to), (22, 21, 2));
}
