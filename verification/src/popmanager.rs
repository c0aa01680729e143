use vstd::prelude::*;
use crate::config::Config;
use crate::graph::{lemma_no_out_no_reach, reaches};
use crate::link::Link;
use crate::network::{first_between, first_if, gene_from_parents, gene_ids, has_kind, has_neuron, io_count, is_endpoint, link_ids, parent_neuron, touches, id_of_kind, lemma_has_neuron_ids, link_added, links_closed, neuron_ids, same_network, ChangeMap, Mutation, Network};
use crate::neuron::{Neuron, NeuronType, ZERO_BITS};
use crate::specie::Specie;
use crate::rng::random_below;

verus! {

/// The neurons every network of the first generation starts with: the
/// inputs, numbered from 0, then the outputs, all with activation and
/// bias 0.0.
pub open spec fn base_neurons() -> Seq<Neuron> {
    Seq::new(
        (Config::input_count + Config::output_count) as nat,
        |i: int|
            Neuron {
                id: i as usize,
                activation: ZERO_BITS,
                bias: ZERO_BITS,
                kind: if i < Config::input_count { NeuronType::Input } else { NeuronType::Output },
            },
    )
}

/// Link `l` runs from an input to an output, is enabled, weighs 0.0 and
/// carries the innovation number `map` holds for it.
pub open spec fn first_link(l: Link, map: Map<(Mutation, usize, usize), usize>) -> bool {
    &&& l.from < Config::input_count
    &&& Config::input_count <= l.to < Config::input_count + Config::output_count
    &&& l.enabled
    &&& l.weight == ZERO_BITS
    &&& map.contains_key((Mutation::add_link, l.from, l.to))
    &&& map[(Mutation::add_link, l.from, l.to)] == l.id
}

/// `n` is a network of the first generation numbered `id`: the base
/// neurons and its starting links, each as `first_link` describes.
pub open spec fn first_generation(n: Network, id: usize, map: Map<(Mutation, usize, usize), usize>) -> bool {
    &&& n.id == id
    &&& n.fitness is None
    &&& n.neurons@ == base_neurons()
    &&& n.links@.len() == Config::num_start_links
    &&& forall|k: int| 0 <= k < n.links@.len() ==> first_link(#[trigger] n.links@[k], map)
}

/// A network of the first generation has every link joined to its
/// neurons, so it can be sorted for computing.
pub proof fn lemma_first_generation_closed(n: Network, id: usize, map: Map<(Mutation, usize, usize), usize>)
    requires
        first_generation(n, id, map),
    ensures
        links_closed(n),
{
    assert forall|k: int| 0 <= k < n.links@.len() implies has_neuron(n.neurons@, (#[trigger] n.links@[k]).from) && has_neuron(
        n.neurons@,
        n.links@[k].to,
    ) by {
        let l = n.links@[k];
        assert(first_link(l, map));
        assert(neuron_ids(n.neurons@)[l.from as int] == l.from);
        assert(neuron_ids(n.neurons@)[l.to as int] == l.to);
        lemma_has_neuron_ids(n.neurons@, l.from);
        lemma_has_neuron_ids(n.neurons@, l.to);
    }
}

/// A link stays a first link when the map of mutations gains an entry.
proof fn lemma_first_link_map_grows(
    l: Link,
    map0: Map<(Mutation, usize, usize), usize>,
    map1: Map<(Mutation, usize, usize), usize>,
    count0: usize,
)
    requires
        first_link(l, map0),
        map1 == map0 || exists|key: (Mutation, usize, usize)| !map0.contains_key(key) && map1 == map0.insert(key, count0),
    ensures
        first_link(l, map1),
{
    if map1 != map0 {
        let key = choose|key: (Mutation, usize, usize)| !map0.contains_key(key) && map1 == map0.insert(key, count0);
        assert(key != (Mutation::add_link, l.from, l.to));
    }
}

/// Adding a link to a network that holds only the base neurons and no
/// links adds one from an input to an output, numbered as the map of
/// mutations says; the map only gains an entry.
proof fn lemma_first_generation_step(
    ns: Seq<Neuron>,
    links0: Seq<Link>,
    map0: Map<(Mutation, usize, usize), usize>,
    count0: usize,
    count1: usize,
    map1: Map<(Mutation, usize, usize), usize>,
    links1: Seq<Link>,
    added: Option<usize>,
)
    requires
        ns == base_neurons(),
        exists|input: usize, output: usize|
            #[trigger] id_of_kind(ns, input, NeuronType::Input, NeuronType::Hidden)
                && #[trigger] id_of_kind(ns, output, NeuronType::Output, NeuronType::Hidden)
                && link_added(links0, count0, map0, input, output, links1, count1, map1, added),
        links0.len() == 0,
    ensures
        links1.len() == links0.len() + 1,
        added == Some(links0.len() as usize),
        count1 <= count0 + 1,
        map1 == map0 || exists|key: (Mutation, usize, usize)| !map0.contains_key(key) && map1 == map0.insert(key, count0),
        forall|k: int| 0 <= k < links0.len() ==> #[trigger] links1[k] == links0[k],
        first_link(links1[links0.len() as int], map1),
{
    let (input, output) = choose|input: usize, output: usize|
        #[trigger] id_of_kind(ns, input, NeuronType::Input, NeuronType::Hidden)
            && #[trigger] id_of_kind(ns, output, NeuronType::Output, NeuronType::Hidden)
            && link_added(links0, count0, map0, input, output, links1, count1, map1, added);
    let ji = choose|j: int| 0 <= j < ns.len() && #[trigger] ns[j].id == input && (ns[j].kind == NeuronType::Input || ns[j].kind == NeuronType::Hidden);
    let jo = choose|j: int| 0 <= j < ns.len() && #[trigger] ns[j].id == output && (ns[j].kind == NeuronType::Output || ns[j].kind == NeuronType::Hidden);
    assert(input < Config::input_count);
    assert(Config::input_count <= output < Config::input_count + Config::output_count);
    assert forall|k: int| 0 <= k < links0.len() implies (#[trigger] links0[k]).from != output by {}
    lemma_no_out_no_reach(links0, output, input);
    assert(first_between(links0, input, output, 0) == 0);
    let key = (Mutation::add_link, input, output);
    if !map0.contains_key(key) {
        assert(map1 == map0.insert(key, count0));
    }
}

/// A species a generation older: one more generation both of age and of
/// stagnation.
pub open spec fn aged(s: Specie) -> Specie {
    Specie { age: (s.age + 1) as u16, stagnant_counter: (s.stagnant_counter + 1) as usize, ..s }
}

/// The population and what it remembers across generations. The
/// compatibility threshold `delta_t` is a single-precision number held as
/// its bit pattern.
pub struct PopManager {
    pub innovation_count: usize,
    pub change_map: ChangeMap,
    pub net_count: usize,
    pub specie_count: usize,
    pub species: Vec<Specie>,
    pub networks: Vec<Network>,
    pub generation: usize,
    pub delta_t: u32,
}

/// The bit pattern of 3.0, the compatibility threshold species start with.
pub const BASE_DELTA_T_BITS: u32 = 0x4040_0000;

impl PopManager {
    /// An empty population at generation 0.
    pub fn new() -> (p: PopManager)
        ensures
            p.innovation_count == 0,
            p.change_map@ == Map::<(Mutation, usize, usize), usize>::empty(),
            p.net_count == 0,
            p.specie_count == 0,
            p.species@.len() == 0,
            p.networks@.len() == 0,
            p.generation == 0,
            p.delta_t == BASE_DELTA_T_BITS,
    {
        PopManager {
            innovation_count: 0,
            change_map: ChangeMap::new(),
            net_count: 0,
            specie_count: 0,
            species: Vec::new(),
            networks: Vec::new(),
            generation: 0,
            delta_t: BASE_DELTA_T_BITS,
        }
    }

    /// Ages every species by a generation and drops those that have
    /// stagnated for too long.
    pub fn handle_age_stagnation(&mut self)
        requires
            forall|k: int| 0 <= k < old(self).species@.len() ==> (#[trigger] old(self).species@[k]).age < u16::MAX
                && old(self).species@[k].stagnant_counter < usize::MAX,
        ensures
            final(self).species@ == old(self).species@.map_values(|s: Specie| aged(s)).filter(
                |s: Specie| s.stagnant_counter <= Config::stagnation_threshold,
            ),
            final(self).networks == old(self).networks,
            final(self).innovation_count == old(self).innovation_count,
            final(self).net_count == old(self).net_count,
            final(self).specie_count == old(self).specie_count,
            final(self).generation == old(self).generation,
            final(self).delta_t == old(self).delta_t,
            final(self).change_map@ == old(self).change_map@,
    {
        let mut rest: Vec<Specie> = Vec::new();
        std::mem::swap(&mut rest, &mut self.species);
        let ghost all = rest@;
        let total = rest.len();
        let ghost keep = |s: Specie| s.stagnant_counter <= Config::stagnation_threshold;
        assert(keep == (|s: Specie| s.stagnant_counter <= Config::stagnation_threshold));
        let mut done: usize = 0;
        while rest.len() > 0
            invariant
                done + rest@.len() == all.len(),
                all.len() == total,
                keep == (|s: Specie| s.stagnant_counter <= Config::stagnation_threshold),
                rest@ == all.subrange(done as int, all.len() as int),
                self.species@ == all.take(done as int).map_values(|s: Specie| aged(s)).filter(keep),
                forall|k: int| 0 <= k < all.len() ==> (#[trigger] all[k]).age < u16::MAX && all[k].stagnant_counter < usize::MAX,
                self.networks == old(self).networks,
                self.innovation_count == old(self).innovation_count,
                self.net_count == old(self).net_count,
                self.specie_count == old(self).specie_count,
                self.generation == old(self).generation,
                self.delta_t == old(self).delta_t,
                self.change_map == old(self).change_map,
            decreases rest@.len(),
        {
            let mut s = rest.remove(0);
            proof {
                assert(s == all[done as int]);
            }
            s.stagnant_counter = s.stagnant_counter + 1;
            s.age = s.age + 1;
            proof {
                reveal_with_fuel(Seq::<_>::filter, 1);
                let m0 = all.take(done as int).map_values(|s: Specie| aged(s));
                let m1 = all.take(done + 1).map_values(|s: Specie| aged(s));
                assert(m1 == m0.push(aged(all[done as int])));
                assert(m1.drop_last() == m0);
                assert(aged(all[done as int]) == s);
                assert(m1.last() == s);
                assert(m1.filter(keep) == (if keep(s) { m0.filter(keep).push(s) } else { m0.filter(keep) }));
                assert(rest@ == all.subrange(done + 1, all.len() as int));
            }
            let ghost before = self.species@;
            if s.stagnant_counter <= Config::stagnation_threshold {
                self.species.push(s);
                proof {
                    assert(keep(s));
                    assert(self.species@ == before.push(s));
                }
            } else {
                proof {
                    assert(!keep(s));
                }
            }
            proof {
                let m1 = all.take(done + 1).map_values(|s: Specie| aged(s));
                assert(self.species@ == m1.filter(keep));
            }
            done = done + 1;
        }
        proof {
            assert(all.take(all.len() as int) == all);
        }
    }

    /// Adds a first generation of networks: each has the base neurons, is
    /// given its number from `net_count`, and gets its starting links as
    /// `add_link` adds them. The answer lists, as (network, link) positions,
    /// the new links, whose weights are left at 0.0 for the caller to draw.
    pub fn add(&mut self) -> (drawn: Vec<(usize, usize)>)
        requires
            old(self).change_map.values_below(old(self).innovation_count),
            old(self).innovation_count + Config::population_size * Config::num_start_links < usize::MAX,
            old(self).net_count + Config::population_size <= usize::MAX,
            old(self).networks@.len() + Config::population_size <= usize::MAX,
        ensures
            final(self).change_map.values_below(final(self).innovation_count),
            final(self).networks@.len() == old(self).networks@.len() + Config::population_size,
            forall|k: int| 0 <= k < old(self).networks@.len() ==> #[trigger] final(self).networks@[k] == old(self).networks@[k],
            forall|k: int| 0 <= k < Config::population_size ==> first_generation(
                #[trigger] final(self).networks@[old(self).networks@.len() + k],
                (old(self).net_count + k) as usize,
                final(self).change_map@,
            ),
            final(self).net_count == old(self).net_count + Config::population_size,
            drawn@.len() == Config::population_size * Config::num_start_links,
            forall|j: int| 0 <= j < drawn@.len() ==> #[trigger] drawn@[j] == (
                (old(self).networks@.len() + j / Config::num_start_links as int) as usize,
                (j % Config::num_start_links as int) as usize,
            ),
            final(self).species == old(self).species,
            final(self).specie_count == old(self).specie_count,
            final(self).generation == old(self).generation,
            final(self).delta_t == old(self).delta_t,
    {
        let mut base_net = Network::new(0);
        let mut i: usize = 0;
        while i < Config::input_count
            invariant
                i <= Config::input_count,
                base_net.wf(),
                base_net.id == 0,
                base_net.fitness is None,
                base_net.links@.len() == 0,
                base_net.neurons@ == base_neurons().take(i as int),
            decreases Config::input_count - i,
        {
            proof {
                crate::network::lemma_has_neuron_ids(base_net.neurons@, i);
                assert(!crate::network::neuron_ids(base_net.neurons@).contains(i));
            }
            base_net.insert_neuron(Neuron { id: i, activation: ZERO_BITS, bias: ZERO_BITS, kind: NeuronType::Input });
            proof {
                assert(base_net.neurons@ =~= base_neurons().take(i + 1));
            }
            i = i + 1;
        }
        while i < Config::input_count + Config::output_count
            invariant
                Config::input_count <= i <= Config::input_count + Config::output_count,
                base_net.wf(),
                base_net.id == 0,
                base_net.fitness is None,
                base_net.links@.len() == 0,
                base_net.neurons@ == base_neurons().take(i as int),
            decreases Config::input_count + Config::output_count - i,
        {
            proof {
                crate::network::lemma_has_neuron_ids(base_net.neurons@, i);
                assert(!crate::network::neuron_ids(base_net.neurons@).contains(i));
            }
            base_net.insert_neuron(Neuron { id: i, activation: ZERO_BITS, bias: ZERO_BITS, kind: NeuronType::Output });
            proof {
                assert(base_net.neurons@ =~= base_neurons().take(i + 1));
            }
            i = i + 1;
        }
        proof {
            assert(base_net.neurons@ =~= base_neurons());
            assert(has_kind(base_net.neurons@, NeuronType::Input, NeuronType::Hidden)) by {
                assert(base_net.neurons@[0].kind == NeuronType::Input);
            }
            assert(has_kind(base_net.neurons@, NeuronType::Output, NeuronType::Hidden)) by {
                assert(base_net.neurons@[Config::input_count as int].kind == NeuronType::Output);
            }
        }
        let mut drawn: Vec<(usize, usize)> = Vec::new();
        let ghost n0 = self.networks@.len();
        let ghost c0 = self.net_count;
        let ghost ic0 = self.innovation_count;
        let mut made: usize = 0;
        while made < Config::population_size
            invariant
                made <= Config::population_size,
                base_net.neurons@ == base_neurons(),
                base_net.links@.len() == 0,
                base_net.fitness is None,
                has_kind(base_net.neurons@, NeuronType::Input, NeuronType::Hidden),
                has_kind(base_net.neurons@, NeuronType::Output, NeuronType::Hidden),
                self.change_map.values_below(self.innovation_count),
                self.innovation_count <= ic0 + made * Config::num_start_links,
                ic0 + Config::population_size * Config::num_start_links < usize::MAX,
                self.net_count == c0 + made,
                c0 + Config::population_size <= usize::MAX,
                n0 + Config::population_size <= usize::MAX,
                self.networks@.len() == n0 + made,
                n0 == old(self).networks@.len(),
                c0 == old(self).net_count,
                forall|k: int| 0 <= k < n0 ==> #[trigger] self.networks@[k] == old(self).networks@[k],
                forall|k: int| 0 <= k < made ==> first_generation(#[trigger] self.networks@[n0 + k], (c0 + k) as usize, self.change_map@),
                drawn@.len() == made * Config::num_start_links,
                forall|j: int| 0 <= j < drawn@.len() ==> #[trigger] drawn@[j] == (
                    (n0 + j / Config::num_start_links as int) as usize,
                    (j % Config::num_start_links as int) as usize,
                ),
                self.species == old(self).species,
                self.specie_count == old(self).specie_count,
                self.generation == old(self).generation,
                self.delta_t == old(self).delta_t,
            decreases Config::population_size - made,
        {
            let mut net = base_net.clone_network();
            let mut s: usize = 0;
            while s < Config::num_start_links
                invariant
                    s <= Config::num_start_links,
                    made < Config::population_size,
                    net.neurons@ == base_neurons(),
                    has_kind(net.neurons@, NeuronType::Input, NeuronType::Hidden),
                    has_kind(net.neurons@, NeuronType::Output, NeuronType::Hidden),
                    net.fitness is None,
                    net.links@.len() == s,
                    forall|k: int| 0 <= k < net.links@.len() ==> first_link(#[trigger] net.links@[k], self.change_map@),
                    self.change_map.values_below(self.innovation_count),
                    self.innovation_count <= ic0 + made * Config::num_start_links + s,
                    ic0 + Config::population_size * Config::num_start_links < usize::MAX,
                    self.networks@.len() == n0 + made,
                    n0 + Config::population_size <= usize::MAX,
                    forall|k: int| 0 <= k < made ==> first_generation(#[trigger] self.networks@[n0 + k], (c0 + k) as usize, self.change_map@),
                    drawn@.len() == made * Config::num_start_links + s,
                    forall|j: int| 0 <= j < drawn@.len() ==> #[trigger] drawn@[j] == (
                        (n0 + j / Config::num_start_links as int) as usize,
                        (j % Config::num_start_links as int) as usize,
                    ),
                    self.species == old(self).species,
                    self.specie_count == old(self).specie_count,
                    self.generation == old(self).generation,
                    self.delta_t == old(self).delta_t,
                    self.net_count == c0 + made,
                    forall|k: int| 0 <= k < n0 ==> #[trigger] self.networks@[k] == old(self).networks@[k],
                decreases Config::num_start_links - s,
            {
                assert(made * Config::num_start_links + s < Config::population_size * Config::num_start_links) by (nonlinear_arith)
                    requires made < Config::population_size, s < Config::num_start_links;
                let ghost links0 = net.links@;
                let ghost map0 = self.change_map@;
                let ghost count0 = self.innovation_count;
                let added = net.add_link(&mut self.innovation_count, &mut self.change_map);
                proof {
                    lemma_first_generation_step(net.neurons@, links0, map0, count0, self.innovation_count, self.change_map@, net.links@, added);
                    assert forall|k: int| 0 <= k < net.links@.len() implies first_link(#[trigger] net.links@[k], self.change_map@) by {
                        if k < links0.len() {
                            assert(net.links@[k] == links0[k]);
                            lemma_first_link_map_grows(links0[k], map0, self.change_map@, count0);
                        }
                    }
                    assert forall|k: int| 0 <= k < made implies first_generation(#[trigger] self.networks@[n0 + k], (c0 + k) as usize, self.change_map@) by {
                        let n = self.networks@[n0 + k];
                        assert(first_generation(n, (c0 + k) as usize, map0));
                        assert forall|m: int| 0 <= m < n.links@.len() implies first_link(#[trigger] n.links@[m], self.change_map@) by {
                            lemma_first_link_map_grows(n.links@[m], map0, self.change_map@, count0);
                        }
                    }
                }
                let p = match added {
                    Some(p) => p,
                    None => 0,
                };
                let ghost d0 = drawn@;
                drawn.push((self.networks.len(), p));
                proof {
                    let j = d0.len() as int;
                    assert(j == made * Config::num_start_links + s);
                    assert(j / Config::num_start_links as int == made as int && j % Config::num_start_links as int == s as int) by (nonlinear_arith)
                        requires j == made * Config::num_start_links + s, 0 <= s < Config::num_start_links, Config::num_start_links > 0;
                    assert forall|jj: int| 0 <= jj < drawn@.len() implies #[trigger] drawn@[jj] == (
                        (n0 + jj / Config::num_start_links as int) as usize,
                        (jj % Config::num_start_links as int) as usize,
                    ) by {
                        if jj < d0.len() {
                            assert(drawn@[jj] == d0[jj]);
                        }
                    }
                }
                s = s + 1;
            }
            net.id = self.net_count;
            self.net_count = self.net_count + 1;
            let ghost nets0 = self.networks@;
            self.networks.push(net);
            proof {
                assert(self.networks@[n0 + made] == net);
                assert forall|k: int| 0 <= k < made + 1 implies first_generation(#[trigger] self.networks@[n0 + k], (c0 + k) as usize, self.change_map@) by {
                    if k < made {
                        assert(self.networks@[n0 + k] == nets0[n0 + k]);
                    }
                }
                assert forall|k: int| 0 <= k < n0 implies #[trigger] self.networks@[k] == old(self).networks@[k] by {
                    assert(self.networks@[k] == nets0[k]);
                }
                assert((made + 1) * Config::num_start_links == made * Config::num_start_links + Config::num_start_links) by (nonlinear_arith);
            }
            made = made + 1;
        }
        drawn
    }
}


/// The sum of the numbers in `s`.
pub open spec fn total(s: Seq<usize>) -> int
    decreases s.len(),
{
    if s.len() == 0 {
        0
    } else {
        total(s.drop_last()) + s.last()
    }
}

/// Raising one entry by one raises the sum by one.
proof fn lemma_total_bump(s: Seq<usize>, i: int)
    requires
        0 <= i < s.len(),
        s[i] < usize::MAX,
    ensures
        total(s.update(i, (s[i] + 1) as usize)) == total(s) + 1,
    decreases s.len(),
{
    let t = s.update(i, (s[i] + 1) as usize);
    if i == s.len() - 1 {
        assert(t.drop_last() == s.drop_last());
    } else {
        lemma_total_bump(s.drop_last(), i);
        assert(t.drop_last() == s.drop_last().update(i, (s[i] + 1) as usize));
    }
}

/// The sum of numbers each at most `b` is at most `b` times their count.
proof fn lemma_total_bound(s: Seq<usize>)
    ensures
        0 <= total(s) <= s.len() * usize::MAX,
    decreases s.len(),
{
    if s.len() > 0 {
        lemma_total_bound(s.drop_last());
        assert(total(s) <= s.len() * usize::MAX) by (nonlinear_arith)
            requires
                total(s) == total(s.drop_last()) + s.last(),
                total(s.drop_last()) <= s.drop_last().len() * usize::MAX,
                s.drop_last().len() == s.len() - 1,
                s.last() <= usize::MAX;
    }
}

/// The offspring each species gets when `floors` holds the whole parts of
/// their shares and `by_remainder` lists the species from the largest
/// fractional part down: the places still free, `pop_size` less the sum of
/// `floors`, go one each to the first species of `by_remainder`.
pub open spec fn shares(floors: Seq<usize>, by_remainder: Seq<usize>, pop_size: int) -> Seq<int> {
    let leftovers = pop_size - total(floors);
    Seq::new(
        floors.len(),
        |j: int| floors[j] + if by_remainder.take(leftovers).contains(j as usize) { 1int } else { 0int },
    )
}

/// Hands out the places of a generation left after the whole parts of the
/// species' shares: one each, in the order of `by_remainder`, until the
/// places come to `pop_size`.
pub fn share_leftovers(floors: Vec<usize>, by_remainder: &Vec<usize>, pop_size: usize) -> (r: Vec<usize>)
    requires
        total(floors@) <= pop_size,
        pop_size - total(floors@) <= by_remainder@.len(),
        by_remainder@.no_duplicates(),
        forall|k: int| 0 <= k < by_remainder@.len() ==> #[trigger] by_remainder@[k] < floors@.len(),
    ensures
        r@.len() == floors@.len(),
        forall|j: int| 0 <= j < r@.len() ==> #[trigger] r@[j] == shares(floors@, by_remainder@, pop_size as int)[j],
        total(r@) == pop_size,
{
    let ghost f0 = floors@;
    let mut sum: usize = 0;
    let mut i: usize = 0;
    while i < floors.len()
        invariant
            i <= floors@.len(),
            floors@ == f0,
            sum == total(f0.take(i as int)),
            total(f0) <= pop_size,
        decreases floors@.len() - i,
    {
        proof {
            assert(f0.take(i + 1).drop_last() == f0.take(i as int));
            lemma_total_prefix(f0, i + 1);
        }
        sum = sum + floors[i];
        i = i + 1;
    }
    proof {
        assert(f0.take(f0.len() as int) == f0);
    }
    let leftovers = pop_size - sum;
    let mut r = floors;
    let mut k: usize = 0;
    while k < leftovers
        invariant
            k <= leftovers,
            leftovers == pop_size - total(f0),
            leftovers <= by_remainder@.len(),
            by_remainder@.no_duplicates(),
            forall|m: int| 0 <= m < by_remainder@.len() ==> #[trigger] by_remainder@[m] < f0.len(),
            r@.len() == f0.len(),
            forall|j: int| 0 <= j < r@.len() ==> #[trigger] r@[j] == f0[j] + if by_remainder@.take(k as int).contains(j as usize) { 1int } else { 0int },
            total(r@) == total(f0) + k,
            total(f0) <= pop_size,
        decreases leftovers - k,
    {
        let j = by_remainder[k];
        proof {
            assert(!by_remainder@.take(k as int).contains(j)) by {
                if by_remainder@.take(k as int).contains(j) {
                    let m = choose|m: int| 0 <= m < k && by_remainder@.take(k as int)[m] == j;
                    assert(by_remainder@[m] == by_remainder@[k as int]);
                }
            }
            assert(r@[j as int] == f0[j as int]);
            lemma_total_bound(f0);
            assert(f0[j as int] <= total(f0)) by {
                lemma_entry_below_total(f0, j as int);
            }
        }
        let ghost r0 = r@;
        r[j] = r[j] + 1;
        proof {
            lemma_total_bump(r0, j as int);
            assert(r@ == r0.update(j as int, (r0[j as int] + 1) as usize));
            assert forall|jj: int| 0 <= jj < r@.len() implies #[trigger] r@[jj] == f0[jj] + if by_remainder@.take(k + 1).contains(jj as usize) { 1int } else { 0int } by {
                let before = by_remainder@.take(k as int);
                let after = by_remainder@.take(k + 1);
                assert(after == before.push(j));
                if jj == j as int {
                    assert(after.contains(j)) by {
                        assert(after[k as int] == j);
                    }
                } else {
                    assert(jj < r.len());
                    assert(after[k as int] == j);
                    assert(after.contains(jj as usize) == before.contains(jj as usize)) by {
                        if after.contains(jj as usize) {
                            let m = choose|m: int| 0 <= m < after.len() && after[m] == jj as usize;
                            assert(m < k);
                            assert(before[m] == jj as usize);
                        }
                        if before.contains(jj as usize) {
                            let m = choose|m: int| 0 <= m < before.len() && before[m] == jj as usize;
                            assert(after[m] == jj as usize);
                        }
                    }
                }
            }
        }
        k = k + 1;
    }
    r
}

/// The sum of a prefix one longer adds the next entry.
proof fn lemma_total_prefix(s: Seq<usize>, n: int)
    requires
        0 < n <= s.len(),
    ensures
        total(s.take(n)) == total(s.take(n - 1)) + s[n - 1],
        total(s.take(n)) <= total(s),
    decreases s.len() - n,
{
    assert(s.take(n).drop_last() == s.take(n - 1));
    if n < s.len() {
        lemma_total_prefix(s, n + 1);
    } else {
        assert(s.take(n) == s);
    }
}

/// No entry is more than the sum.
proof fn lemma_entry_below_total(s: Seq<usize>, j: int)
    requires
        0 <= j < s.len(),
    ensures
        s[j] <= total(s),
    decreases s.len(),
{
    lemma_total_bound(s.drop_last());
    if j < s.len() - 1 {
        lemma_entry_below_total(s.drop_last(), j);
    }
}


/// Species `a` is species `b` but for its members.
pub open spec fn same_but_members(a: Specie, b: Specie) -> bool {
    &&& a.id == b.id
    &&& a.age == b.age
    &&& a.stagnant_counter == b.stagnant_counter
    &&& a.best_fitness == b.best_fitness
    &&& a.highest_best_fitness == b.highest_best_fitness
    &&& a.avg_fitness == b.avg_fitness
    &&& a.representative == b.representative
}

impl PopManager {
    /// Empties every species of its members, as a new round of speciation
    /// begins; nothing else changes.
    pub fn clear_species_members(&mut self)
        ensures
            final(self).species@.len() == old(self).species@.len(),
            forall|k: int| 0 <= k < final(self).species@.len() ==> {
                &&& (#[trigger] final(self).species@[k]).members@.len() == 0
                &&& same_but_members(final(self).species@[k], old(self).species@[k])
            },
            final(self).networks == old(self).networks,
            final(self).innovation_count == old(self).innovation_count,
            final(self).net_count == old(self).net_count,
            final(self).specie_count == old(self).specie_count,
            final(self).generation == old(self).generation,
            final(self).delta_t == old(self).delta_t,
            final(self).change_map@ == old(self).change_map@,
    {
        let mut k: usize = 0;
        while k < self.species.len()
            invariant
                k <= self.species@.len(),
                self.species@.len() == old(self).species@.len(),
                forall|m: int| 0 <= m < k ==> (#[trigger] self.species@[m]).members@.len() == 0,
                forall|m: int| 0 <= m < self.species@.len() ==> same_but_members(#[trigger] self.species@[m], old(self).species@[m]),
                self.networks == old(self).networks,
                self.innovation_count == old(self).innovation_count,
                self.net_count == old(self).net_count,
                self.specie_count == old(self).specie_count,
                self.generation == old(self).generation,
                self.delta_t == old(self).delta_t,
                self.change_map == old(self).change_map,
            decreases self.species@.len() - k,
        {
            self.species[k].clear_members();
            k = k + 1;
        }
    }

    /// Places network `i` in the species `found`, the first whose
    /// representative is close enough to it; with none found, a new
    /// species is made with a copy of the network as its representative,
    /// numbered from `specie_count`, and the network as its one member.
    pub fn join_species(&mut self, i: usize, found: Option<usize>)
        requires
            i < old(self).networks@.len(),
            old(self).specie_count < usize::MAX,
            found matches Some(k) ==> k < old(self).species@.len(),
        ensures
            match found {
                Some(k) => {
                    &&& final(self).species@.len() == old(self).species@.len()
                    &&& final(self).species@[k as int].members@ == old(self).species@[k as int].members@.push(i)
                    &&& same_but_members(final(self).species@[k as int], old(self).species@[k as int])
                    &&& forall|m: int| 0 <= m < old(self).species@.len() && m != k ==> #[trigger] final(self).species@[m] == old(self).species@[m]
                    &&& final(self).specie_count == old(self).specie_count
                },
                None => {
                    let s = final(self).species@.last();
                    &&& final(self).species@.len() == old(self).species@.len() + 1
                    &&& forall|m: int| 0 <= m < old(self).species@.len() ==> #[trigger] final(self).species@[m] == old(self).species@[m]
                    &&& s.id == old(self).specie_count
                    &&& s.members@ == seq![i]
                    &&& same_network(s.representative, old(self).networks@[i as int])
                    &&& s.age == 0
                    &&& s.stagnant_counter == 0
                    &&& s.best_fitness == (match old(self).networks@[i as int].fitness { Some(f) => f, None => 0u32 })
                    &&& s.avg_fitness == s.best_fitness
                    &&& s.highest_best_fitness == s.best_fitness
                    &&& final(self).specie_count == old(self).specie_count + 1
                },
            },
            final(self).networks == old(self).networks,
            final(self).innovation_count == old(self).innovation_count,
            final(self).net_count == old(self).net_count,
            final(self).generation == old(self).generation,
            final(self).delta_t == old(self).delta_t,
            final(self).change_map@ == old(self).change_map@,
    {
        match found {
            Some(k) => {
                self.species[k].members.push(i);
            },
            None => {
                let rep = self.networks[i].clone_network();
                let mut new_specie = Specie::new(rep, self.specie_count);
                self.specie_count = self.specie_count + 1;
                new_specie.members.push(i);
                self.species.push(new_specie);
            },
        }
    }

    /// Drops the species left without members.
    pub fn remove_empty_species(&mut self)
        ensures
            final(self).species@ == with_members(old(self).species@),
            final(self).networks == old(self).networks,
            final(self).innovation_count == old(self).innovation_count,
            final(self).net_count == old(self).net_count,
            final(self).specie_count == old(self).specie_count,
            final(self).generation == old(self).generation,
            final(self).delta_t == old(self).delta_t,
            final(self).change_map@ == old(self).change_map@,
    {
        let mut rest: Vec<Specie> = Vec::new();
        std::mem::swap(&mut rest, &mut self.species);
        let ghost all = rest@;
        let total_len = rest.len();
        let ghost keep = |s: Specie| s.members@.len() > 0;
        assert(keep == (|s: Specie| s.members@.len() > 0));
        let mut done: usize = 0;
        while rest.len() > 0
            invariant
                done + rest@.len() == all.len(),
                all.len() == total_len,
                keep == (|s: Specie| s.members@.len() > 0),
                rest@ == all.subrange(done as int, all.len() as int),
                self.species@ == all.take(done as int).filter(keep),
                self.networks == old(self).networks,
                self.innovation_count == old(self).innovation_count,
                self.net_count == old(self).net_count,
                self.specie_count == old(self).specie_count,
                self.generation == old(self).generation,
                self.delta_t == old(self).delta_t,
                self.change_map == old(self).change_map,
            decreases rest@.len(),
        {
            let s = rest.remove(0);
            proof {
                reveal_with_fuel(Seq::<_>::filter, 1);
                assert(s == all[done as int]);
                assert(all.take(done + 1).drop_last() == all.take(done as int));
                assert(all.take(done + 1).last() == s);
                assert(rest@ == all.subrange(done + 1, all.len() as int));
            }
            if s.members.len() > 0 {
                self.species.push(s);
            }
            done = done + 1;
        }
        proof {
            assert(all.take(all.len() as int) == all);
        }
    }

    /// Makes each species' first member its representative, by copy. The
    /// members are to be ordered best first beforehand.
    pub fn set_species_representatives(&mut self)
        requires
            forall|k: int| 0 <= k < old(self).species@.len() ==> (#[trigger] old(self).species@[k]).members@.len() > 0
                && old(self).species@[k].members@[0] < old(self).networks@.len(),
        ensures
            final(self).species@.len() == old(self).species@.len(),
            forall|k: int| 0 <= k < final(self).species@.len() ==> {
                let s = #[trigger] final(self).species@[k];
                let o = old(self).species@[k];
                &&& s.members == o.members
                &&& same_network(s.representative, old(self).networks@[o.members@[0] as int])
                &&& s.id == o.id
                &&& s.age == o.age
                &&& s.stagnant_counter == o.stagnant_counter
                &&& s.best_fitness == o.best_fitness
                &&& s.highest_best_fitness == o.highest_best_fitness
                &&& s.avg_fitness == o.avg_fitness
            },
            final(self).networks == old(self).networks,
            final(self).innovation_count == old(self).innovation_count,
            final(self).net_count == old(self).net_count,
            final(self).specie_count == old(self).specie_count,
            final(self).generation == old(self).generation,
            final(self).delta_t == old(self).delta_t,
            final(self).change_map@ == old(self).change_map@,
    {
        let mut k: usize = 0;
        while k < self.species.len()
            invariant
                k <= self.species@.len(),
                self.species@.len() == old(self).species@.len(),
                forall|m: int| 0 <= m < self.species@.len() ==> {
                    let s = #[trigger] self.species@[m];
                    let o = old(self).species@[m];
                    &&& s.members == o.members
                    &&& s.id == o.id
                    &&& s.age == o.age
                    &&& s.stagnant_counter == o.stagnant_counter
                    &&& s.best_fitness == o.best_fitness
                    &&& s.highest_best_fitness == o.highest_best_fitness
                    &&& s.avg_fitness == o.avg_fitness
                    &&& (m < k ==> same_network(s.representative, old(self).networks@[o.members@[0] as int]))
                },
                forall|m: int| 0 <= m < old(self).species@.len() ==> (#[trigger] old(self).species@[m]).members@.len() > 0
                    && old(self).species@[m].members@[0] < old(self).networks@.len(),
                self.networks == old(self).networks,
                self.innovation_count == old(self).innovation_count,
                self.net_count == old(self).net_count,
                self.specie_count == old(self).specie_count,
                self.generation == old(self).generation,
                self.delta_t == old(self).delta_t,
                self.change_map == old(self).change_map,
            decreases self.species@.len() - k,
        {
            proof {
                assert(self.species@[k as int].members == old(self).species@[k as int].members);
            }
            let first = self.species[k].members[0];
            let rep = self.networks[first].clone_network();
            self.species[k].representative = rep;
            k = k + 1;
        }
    }
}


/// The species of `a` that have members, in their order.
pub open spec fn with_members(a: Seq<Specie>) -> Seq<Specie> {
    a.filter(|s: Specie| s.members@.len() > 0)
}

/// Every member of every species is a position below `n`.
pub open spec fn members_below(sp: Seq<Specie>, n: int) -> bool {
    forall|k: int, m: int| 0 <= k < sp.len() && 0 <= m < sp[k].members@.len() ==> #[trigger] sp[k].members@[m] < n
}

/// Each species lists its members in increasing order.
pub open spec fn members_ascending(sp: Seq<Specie>) -> bool {
    forall|k: int, m1: int, m2: int|
        0 <= k < sp.len() && 0 <= m1 < m2 < sp[k].members@.len() ==> #[trigger] sp[k].members@[m1] < #[trigger] sp[k].members@[m2]
}

/// No position is a member of two species.
pub open spec fn species_disjoint(sp: Seq<Specie>) -> bool {
    forall|k1: int, k2: int, j: usize|
        0 <= k1 < sp.len() && 0 <= k2 < sp.len() && k1 != k2 && #[trigger] sp[k1].members@.contains(j)
            ==> !#[trigger] sp[k2].members@.contains(j)
}

/// Position `j` is a member of some species.
pub open spec fn held(sp: Seq<Specie>, j: usize) -> bool {
    exists|k: int| 0 <= k < sp.len() && #[trigger] sp[k].members@.contains(j)
}

/// Every position below `n` is a member of some species.
pub open spec fn all_placed(sp: Seq<Specie>, n: int) -> bool {
    forall|j: usize| j < n ==> #[trigger] held(sp, j)
}

/// The species split the positions `0..n` among themselves: each
/// position is a member of exactly one species, every species has a
/// member, and members are listed in increasing order.
pub open spec fn is_partition(sp: Seq<Specie>, n: int) -> bool {
    &&& members_below(sp, n)
    &&& members_ascending(sp)
    &&& species_disjoint(sp)
    &&& all_placed(sp, n)
    &&& forall|k: int| 0 <= k < sp.len() ==> (#[trigger] sp[k]).members@.len() > 0
}

/// The placement facts, apart from every species having a member, as
/// they stand when the first `n` positions have been placed.
pub open spec fn placed_so_far(sp: Seq<Specie>, n: int) -> bool {
    &&& members_below(sp, n)
    &&& members_ascending(sp)
    &&& species_disjoint(sp)
    &&& all_placed(sp, n)
}

/// Rearranging the species keeps the placement facts.
proof fn lemma_rearranged_keeps(a: Seq<Specie>, b: Seq<Specie>, n: int)
    requires
        placed_so_far(a, n),
        crate::rng::rearranged(a, b),
    ensures
        placed_so_far(b, n),
{
    let p = choose|p: Seq<int>|
        crate::rng::is_permutation(p, a.len() as int) && b.len() == a.len() && forall|k: int| 0 <= k < b.len() ==> #[trigger] b[k] == a[p[k]];
    assert forall|k: int, m: int| 0 <= k < b.len() && 0 <= m < b[k].members@.len() implies #[trigger] b[k].members@[m] < n by {
        assert(b[k] == a[p[k]]);
        assert(a[p[k]].members@[m] < n);
    }
    assert forall|k: int, m1: int, m2: int|
        0 <= k < b.len() && 0 <= m1 < m2 < b[k].members@.len() implies #[trigger] b[k].members@[m1] < #[trigger] b[k].members@[m2] by {
        assert(b[k] == a[p[k]]);
        assert(a[p[k]].members@[m1] < a[p[k]].members@[m2]);
    }
    assert forall|k1: int, k2: int, j: usize|
        0 <= k1 < b.len() && 0 <= k2 < b.len() && k1 != k2 && #[trigger] b[k1].members@.contains(j)
            implies !#[trigger] b[k2].members@.contains(j) by {
        assert(b[k1] == a[p[k1]]);
        assert(b[k2] == a[p[k2]]);
        assert(p[k1] != p[k2]);
        assert(a[p[k1]].members@.contains(j));
    }
    assert forall|j: usize| j < n implies #[trigger] held(b, j) by {
        assert(held(a, j));
        let ka = choose|k: int| 0 <= k < a.len() && #[trigger] a[k].members@.contains(j);
        assert(p.contains(ka));
        let kb = choose|k: int| 0 <= k < p.len() && p[k] == ka;
        assert(b[kb] == a[ka]);
        assert(b[kb].members@.contains(j));
    }
}

/// Dropping the species without members keeps members in bounds, in
/// order and apart; what is left has members, and came from `a`.
proof fn lemma_filter_keeps_apart(a: Seq<Specie>, n: int)
    requires
        members_below(a, n),
        members_ascending(a),
        species_disjoint(a),
    ensures
        members_below(with_members(a), n),
        members_ascending(with_members(a)),
        species_disjoint(with_members(a)),
        forall|k: int|
            0 <= k < with_members(a).len() ==> (#[trigger] with_members(a)[k]).members@.len() > 0 && a.contains(with_members(a)[k]),
    decreases a.len(),
{
    let keep = |s: Specie| s.members@.len() > 0;
    let b = a.filter(keep);
    reveal_with_fuel(Seq::<_>::filter, 1);
    if a.len() > 0 {
        let a0 = a.drop_last();
        let x = a.last();
        assert forall|k: int| 0 <= k < a0.len() implies #[trigger] a0[k] == a[k] by {}
        lemma_filter_keeps_apart(a0, n);
        let b0 = a0.filter(keep);
        assert(b == if keep(x) { b0.push(x) } else { b0 });
        assert forall|k: int| 0 <= k < b.len() implies (#[trigger] b[k]).members@.len() > 0 && a.contains(b[k]) by {
            if k < b0.len() {
                assert(b[k] == b0[k]);
                let q = choose|q: int| 0 <= q < a0.len() && a0[q] == b0[k];
                assert(a[q] == b[k]);
            } else {
                assert(b[k] == x);
                assert(a[a.len() - 1] == x);
            }
        }
        assert forall|k: int, m: int| 0 <= k < b.len() && 0 <= m < b[k].members@.len() implies #[trigger] b[k].members@[m] < n by {
            let q = choose|q: int| 0 <= q < a.len() && a[q] == b[k];
            assert(a[q].members@[m] < n);
        }
        assert forall|k: int, m1: int, m2: int|
            0 <= k < b.len() && 0 <= m1 < m2 < b[k].members@.len() implies #[trigger] b[k].members@[m1] < #[trigger] b[k].members@[m2] by {
            let q = choose|q: int| 0 <= q < a.len() && a[q] == b[k];
            assert(a[q].members@[m1] < a[q].members@[m2]);
        }
        assert forall|k1: int, k2: int, j: usize|
            0 <= k1 < b.len() && 0 <= k2 < b.len() && k1 != k2 && #[trigger] b[k1].members@.contains(j)
                implies !#[trigger] b[k2].members@.contains(j) by {
            if k1 < b0.len() && k2 < b0.len() {
                assert(b[k1] == b0[k1]);
                assert(b[k2] == b0[k2]);
                assert(b0[k1].members@.contains(j));
            } else if k1 < b0.len() {
                assert(b[k1] == b0[k1]);
                let q = choose|q: int| 0 <= q < a0.len() && a0[q] == b0[k1];
                assert(b[k2] == x);
                assert(a[q].members@.contains(j));
                assert(a[a.len() - 1] == x);
            } else {
                assert(b[k2] == b0[k2]);
                let q = choose|q: int| 0 <= q < a0.len() && a0[q] == b0[k2];
                assert(b[k1] == x);
                assert(a[a.len() - 1] == x);
                if a[q].members@.contains(j) {
                    assert(a[a.len() - 1].members@.contains(j));
                }
            }
        }
    }
}

/// Dropping the species without members from species that place the
/// positions `0..n` leaves a partition of them.
proof fn lemma_filter_keeps(a: Seq<Specie>, n: int)
    requires
        placed_so_far(a, n),
    ensures
        is_partition(with_members(a), n),
{
    let keep = |s: Specie| s.members@.len() > 0;
    let b = a.filter(keep);
    lemma_filter_keeps_apart(a, n);
    assert forall|j: usize| j < n implies #[trigger] held(b, j) by {
        assert(held(a, j));
        let ka = choose|k: int| 0 <= k < a.len() && #[trigger] a[k].members@.contains(j);
        assert(keep(a[ka]));
        a.lemma_filter_contains(keep, ka);
        let kb = choose|k: int| 0 <= k < b.len() && b[k] == a[ka];
        assert(b[kb].members@.contains(j));
    }
}

/// Adding position `i` to one species, or as the one member of a new
/// species at the end, keeps the placement facts, now for `0..i + 1`.
proof fn lemma_join_keeps(a: Seq<Specie>, b: Seq<Specie>, i: usize, found: Option<usize>)
    requires
        placed_so_far(a, i as int),
        match found {
            Some(k) => {
                &&& k < a.len()
                &&& b.len() == a.len()
                &&& b[k as int].members@ == a[k as int].members@.push(i)
                &&& forall|m: int| 0 <= m < a.len() && m != k ==> #[trigger] b[m] == a[m]
            },
            None => {
                &&& b.len() == a.len() + 1
                &&& forall|m: int| 0 <= m < a.len() ==> #[trigger] b[m] == a[m]
                &&& b.last().members@ == seq![i]
            },
        },
    ensures
        placed_so_far(b, i + 1),
{
    let t: int = match found {
        Some(k) => k as int,
        None => a.len() as int,
    };
    assert forall|m: int| 0 <= m < b.len() && m != t implies #[trigger] b[m] == a[m] by {}
    assert(b[t].members@ == if t < a.len() { a[t].members@.push(i) } else { seq![i] });
    assert forall|k: int, j: usize| 0 <= k < a.len() && #[trigger] a[k].members@.contains(j) implies j < i by {
        let m = choose|m: int| 0 <= m < a[k].members@.len() && a[k].members@[m] == j;
        assert(a[k].members@[m] < i);
    }
    assert forall|k: int, j: usize| 0 <= k < b.len() implies (#[trigger] b[k].members@.contains(j)) == (if k == t {
        j == i || (t < a.len() && a[k].members@.contains(j))
    } else {
        a[k].members@.contains(j)
    }) by {
        if k == t {
            if t < a.len() {
                let old_m = a[k].members@;
                assert(b[k].members@ == old_m.push(i));
                if b[k].members@.contains(j) && j != i {
                    let m = choose|m: int| 0 <= m < b[k].members@.len() && b[k].members@[m] == j;
                    assert(m < old_m.len());
                    assert(old_m[m] == j);
                }
                if old_m.contains(j) {
                    let m = choose|m: int| 0 <= m < old_m.len() && old_m[m] == j;
                    assert(b[k].members@[m] == j);
                }
                if j == i {
                    assert(b[k].members@[old_m.len() as int] == i);
                }
            } else {
                if j == i {
                    assert(b[k].members@[0] == i);
                }
            }
        }
    }
    assert forall|k: int, m: int| 0 <= k < b.len() && 0 <= m < b[k].members@.len() implies #[trigger] b[k].members@[m] < i + 1 by {
        if k == t {
            if t < a.len() && m < a[k].members@.len() {
                assert(b[k].members@[m] == a[k].members@[m]);
            }
        }
    }
    assert forall|k: int, m1: int, m2: int|
        0 <= k < b.len() && 0 <= m1 < m2 < b[k].members@.len() implies #[trigger] b[k].members@[m1] < #[trigger] b[k].members@[m2] by {
        if k == t && t < a.len() {
            let old_m = a[k].members@;
            assert(b[k].members@[m1] == old_m[m1]);
            assert(old_m[m1] < i);
            if m2 < old_m.len() {
                assert(b[k].members@[m2] == old_m[m2]);
            }
        }
    }
    assert forall|k1: int, k2: int, j: usize|
        0 <= k1 < b.len() && 0 <= k2 < b.len() && k1 != k2 && #[trigger] b[k1].members@.contains(j)
            implies !#[trigger] b[k2].members@.contains(j) by {
        if k1 != t && k2 != t {
            assert(a[k1].members@.contains(j));
        } else if k1 == t {
            if j == i {
                assert(!a[k2].members@.contains(i));
            } else {
                assert(a[k1].members@.contains(j));
            }
        } else {
            assert(a[k1].members@.contains(j));
            assert(j < i);
            if t < a.len() {
                assert(!a[k2].members@.contains(j));
            }
        }
    }
    assert forall|j: usize| j < i + 1 implies #[trigger] held(b, j) by {
        if j == i {
            assert(b[t].members@.contains(j));
        } else {
            assert(held(a, j));
            let k = choose|k: int| 0 <= k < a.len() && #[trigger] a[k].members@.contains(j);
            assert(b[k].members@.contains(j));
        }
    }
}

/// Species `s` is one of the species `old`, but for its members.
pub open spec fn kept_species(s: Specie, old: Seq<Specie>) -> bool {
    exists|j: int| 0 <= j < old.len() && same_but_members(s, #[trigger] old[j])
}

/// Species `s` was founded by its first member, one of `nets`: it is
/// numbered from `c0` up to `c`, holds a copy of the founder as its
/// representative, starts with age and stagnation 0, and takes the
/// founder's fitness (0.0 where it has none) as every fitness figure.
pub open spec fn founded_species(s: Specie, nets: Seq<Network>, c0: int, c: int) -> bool {
    &&& c0 <= s.id < c
    &&& s.members@.len() > 0
    &&& s.members@[0] < nets.len()
    &&& same_network(s.representative, nets[s.members@[0] as int])
    &&& s.age == 0
    &&& s.stagnant_counter == 0
    &&& s.best_fitness == (match nets[s.members@[0] as int].fitness { Some(f) => f, None => 0u32 })
    &&& s.avg_fitness == s.best_fitness
    &&& s.highest_best_fitness == s.best_fitness
}

/// Every member of `s` from position `from` on is one of `nets` that
/// `close` found near enough to the representative.
pub open spec fn members_admitted<F: Fn(&Network, &Network) -> bool>(s: Specie, nets: Seq<Network>, close: F, from: int) -> bool {
    forall|m: int|
        from <= m < s.members@.len() ==> #[trigger] s.members@[m] < nets.len() && close.ensures(
            (&nets[s.members@[m] as int], &s.representative),
            true,
        )
}

/// Species `s` is either one of `old`, all of whose members `close` found
/// near enough, or one founded in this round, all of whose members but the
/// founder `close` found near enough.
pub open spec fn species_origin<F: Fn(&Network, &Network) -> bool>(
    s: Specie,
    old: Seq<Specie>,
    nets: Seq<Network>,
    c0: int,
    c: int,
    close: F,
) -> bool {
    ||| kept_species(s, old) && members_admitted(s, nets, close, 0)
    ||| founded_species(s, nets, c0, c) && members_admitted(s, nets, close, 1)
}

/// Every species of `sp` has an origin as `species_origin` describes.
pub open spec fn all_origins<F: Fn(&Network, &Network) -> bool>(
    sp: Seq<Specie>,
    old: Seq<Specie>,
    nets: Seq<Network>,
    c0: int,
    c: int,
    close: F,
) -> bool {
    forall|k: int| 0 <= k < sp.len() ==> species_origin(#[trigger] sp[k], old, nets, c0, c, close)
}

/// Rearranging the species keeps their origins.
proof fn lemma_origins_rearranged<F: Fn(&Network, &Network) -> bool>(
    a: Seq<Specie>,
    b: Seq<Specie>,
    old: Seq<Specie>,
    nets: Seq<Network>,
    c0: int,
    c: int,
    close: F,
)
    requires
        all_origins(a, old, nets, c0, c, close),
        crate::rng::rearranged(a, b),
    ensures
        all_origins(b, old, nets, c0, c, close),
{
    let p = choose|p: Seq<int>|
        crate::rng::is_permutation(p, a.len() as int) && b.len() == a.len() && forall|k: int| 0 <= k < b.len() ==> #[trigger] b[k] == a[p[k]];
    assert forall|k: int| 0 <= k < b.len() implies species_origin(#[trigger] b[k], old, nets, c0, c, close) by {
        assert(b[k] == a[p[k]]);
        assert(species_origin(a[p[k]], old, nets, c0, c, close));
    }
}

/// Adding network `i`, found near enough, to one species, or founding a
/// new species numbered `c` with it, keeps the origins.
proof fn lemma_origins_join<F: Fn(&Network, &Network) -> bool>(
    a: Seq<Specie>,
    b: Seq<Specie>,
    old: Seq<Specie>,
    nets: Seq<Network>,
    c0: int,
    c: int,
    close: F,
    i: usize,
    found: Option<usize>,
)
    requires
        all_origins(a, old, nets, c0, c, close),
        c0 <= c,
        i < nets.len(),
        match found {
            Some(k) => {
                &&& k < a.len()
                &&& b.len() == a.len()
                &&& b[k as int].members@ == a[k as int].members@.push(i)
                &&& same_but_members(b[k as int], a[k as int])
                &&& forall|m: int| 0 <= m < a.len() && m != k ==> #[trigger] b[m] == a[m]
                &&& close.ensures((&nets[i as int], &a[k as int].representative), true)
            },
            None => {
                &&& b.len() == a.len() + 1
                &&& forall|m: int| 0 <= m < a.len() ==> #[trigger] b[m] == a[m]
                &&& b.last().id == c
                &&& b.last().members@ == seq![i]
                &&& same_network(b.last().representative, nets[i as int])
                &&& b.last().age == 0
                &&& b.last().stagnant_counter == 0
                &&& b.last().best_fitness == (match nets[i as int].fitness { Some(f) => f, None => 0u32 })
                &&& b.last().avg_fitness == b.last().best_fitness
                &&& b.last().highest_best_fitness == b.last().best_fitness
            },
        },
    ensures
        all_origins(b, old, nets, c0, if found is Some { c } else { c + 1 }, close),
{
    let c2 = if found is Some { c } else { c + 1 };
    assert forall|k: int| 0 <= k < b.len() implies species_origin(#[trigger] b[k], old, nets, c0, c2, close) by {
        if k < a.len() && (found is None || k != found->0) {
            assert(b[k] == a[k]);
            assert(species_origin(a[k], old, nets, c0, c, close));
        } else if found is Some {
            let s = a[k];
            assert(species_origin(s, old, nets, c0, c, close));
            assert(b[k].members@ == s.members@.push(i));
            let from: int = if kept_species(s, old) && members_admitted(s, nets, close, 0) { 0 } else { 1 };
            assert(members_admitted(s, nets, close, from));
            assert forall|m: int| from <= m < b[k].members@.len() implies #[trigger] b[k].members@[m] < nets.len() && close.ensures(
                (&nets[b[k].members@[m] as int], &b[k].representative),
                true,
            ) by {
                if m < s.members@.len() {
                    assert(b[k].members@[m] == s.members@[m]);
                    assert(s.members@[m] < nets.len());
                } else {
                    assert(b[k].members@[m] == i);
                }
            }
            if from == 0 {
                let j = choose|j: int| 0 <= j < old.len() && same_but_members(s, #[trigger] old[j]);
                assert(same_but_members(b[k], old[j]));
            } else {
                assert(founded_species(s, nets, c0, c));
                assert(b[k].members@[0] == s.members@[0]);
                assert(founded_species(b[k], nets, c0, c2));
            }
        } else {
            assert(k == a.len());
            assert(b[k] == b.last());
            assert(founded_species(b[k], nets, c0, c2));
        }
    }
}

/// Dropping species keeps the origins of those left.
proof fn lemma_origins_filter<F: Fn(&Network, &Network) -> bool>(
    a: Seq<Specie>,
    old: Seq<Specie>,
    nets: Seq<Network>,
    c0: int,
    c: int,
    close: F,
)
    requires
        all_origins(a, old, nets, c0, c, close),
        placed_so_far(a, nets.len() as int),
    ensures
        all_origins(with_members(a), old, nets, c0, c, close),
{
    lemma_filter_keeps_apart(a, nets.len() as int);
    let b = with_members(a);
    assert forall|k: int| 0 <= k < b.len() implies species_origin(#[trigger] b[k], old, nets, c0, c, close) by {
        assert(a.contains(b[k]));
        let q = choose|q: int| 0 <= q < a.len() && a[q] == b[k];
        assert(species_origin(a[q], old, nets, c0, c, close));
    }
}

/// Before the species without members are dropped, `pre` holds each old
/// species (members apart) and each species founded in this round, once:
/// `slot` gives the place of each, `j` for the old species `j` and
/// `old.len() + t` for the species founded `t`-th, which is numbered
/// `c0 + t` and was founded as `founded_species` says.
pub open spec fn slots_filled(pre: Seq<Specie>, old: Seq<Specie>, nets: Seq<Network>, c0: int, c: int, slot: Seq<int>) -> bool {
    &&& slot.len() == pre.len()
    &&& pre.len() == old.len() + (c - c0)
    &&& crate::rng::is_permutation(slot, pre.len() as int)
    &&& forall|k: int| 0 <= k < pre.len() && slot[k] < old.len() ==> same_but_members(#[trigger] pre[k], old[slot[k]])
    &&& forall|k: int|
        0 <= k < pre.len() && slot[k] >= old.len() ==> (#[trigger] pre[k]).id == c0 + slot[k] - old.len() && founded_species(
            pre[k],
            nets,
            c0,
            c,
        )
}

/// Each species of `pre` founded in this round was founded only after
/// `close` had found its founder not near enough to every old species and
/// to every species founded before it; and its founder comes after theirs.
pub open spec fn founders_rejected<F: Fn(&Network, &Network) -> bool>(
    pre: Seq<Specie>,
    slot: Seq<int>,
    old: Seq<Specie>,
    nets: Seq<Network>,
    close: F,
) -> bool {
    &&& forall|k: int, j: int|
        0 <= k < pre.len() && slot[k] >= old.len() && 0 <= j < old.len() ==> close.ensures(
            (&nets[(#[trigger] pre[k]).members@[0] as int], &(#[trigger] old[j]).representative),
            false,
        )
    &&& forall|k: int, k2: int|
        0 <= k < pre.len() && 0 <= k2 < pre.len() && old.len() <= slot[k2] < slot[k] ==> close.ensures(
            (&nets[(#[trigger] pre[k]).members@[0] as int], &(#[trigger] pre[k2]).representative),
            false,
        ) && pre[k2].members@[0] < pre[k].members@[0]
}

/// Rearranging the species carries their places along.
proof fn lemma_slots_rearranged<F: Fn(&Network, &Network) -> bool>(
    a: Seq<Specie>,
    b: Seq<Specie>,
    old: Seq<Specie>,
    nets: Seq<Network>,
    c0: int,
    c: int,
    close: F,
    slot: Seq<int>,
) -> (slot2: Seq<int>)
    requires
        slots_filled(a, old, nets, c0, c, slot),
        founders_rejected(a, slot, old, nets, close),
        crate::rng::rearranged(a, b),
    ensures
        slots_filled(b, old, nets, c0, c, slot2),
        founders_rejected(b, slot2, old, nets, close),
{
    let p = choose|p: Seq<int>|
        crate::rng::is_permutation(p, a.len() as int) && b.len() == a.len() && forall|k: int| 0 <= k < b.len() ==> #[trigger] b[k] == a[p[k]];
    let slot2 = Seq::new(b.len(), |k: int| slot[p[k]]);
    let n = a.len() as int;
    assert forall|k: int| 0 <= k < n implies 0 <= #[trigger] slot2[k] < n by {
        assert(0 <= p[k] < n);
    }
    assert(slot2.no_duplicates()) by {
        assert forall|x: int, y: int| 0 <= x < slot2.len() && 0 <= y < slot2.len() && x != y implies slot2[x] != slot2[y] by {
            assert(0 <= p[x] < n && 0 <= p[y] < n);
            assert(p[x] != p[y]);
        }
    }
    assert forall|v: int| 0 <= v < n implies #[trigger] slot2.contains(v) by {
        assert(slot.contains(v));
        let k0 = choose|k0: int| 0 <= k0 < slot.len() && slot[k0] == v;
        assert(p.contains(k0));
        let m = choose|m: int| 0 <= m < p.len() && p[m] == k0;
        assert(slot2[m] == v);
    }
    assert forall|k: int| 0 <= k < b.len() && slot2[k] < old.len() implies same_but_members(#[trigger] b[k], old[slot2[k]]) by {
        assert(b[k] == a[p[k]]);
        assert(0 <= p[k] < n);
        assert(same_but_members(a[p[k]], old[slot[p[k]]]));
    }
    assert forall|k: int| 0 <= k < b.len() && slot2[k] >= old.len() implies (#[trigger] b[k]).id == c0 + slot2[k] - old.len()
        && founded_species(b[k], nets, c0, c) by {
        assert(b[k] == a[p[k]]);
        assert(0 <= p[k] < n);
        assert(a[p[k]].id == c0 + slot[p[k]] - old.len());
    }
    assert forall|k: int, j: int| 0 <= k < b.len() && slot2[k] >= old.len() && 0 <= j < old.len() implies close.ensures(
        (&nets[(#[trigger] b[k]).members@[0] as int], &(#[trigger] old[j]).representative),
        false,
    ) by {
        assert(b[k] == a[p[k]]);
        assert(0 <= p[k] < n);
        assert(close.ensures((&nets[a[p[k]].members@[0] as int], &old[j].representative), false));
    }
    assert forall|k: int, k2: int| 0 <= k < b.len() && 0 <= k2 < b.len() && old.len() <= slot2[k2] < slot2[k] implies close.ensures(
        (&nets[(#[trigger] b[k]).members@[0] as int], &(#[trigger] b[k2]).representative),
        false,
    ) && b[k2].members@[0] < b[k].members@[0] by {
        assert(b[k] == a[p[k]]);
        assert(b[k2] == a[p[k2]]);
        assert(0 <= p[k] < n && 0 <= p[k2] < n);
        assert(close.ensures((&nets[a[p[k]].members@[0] as int], &a[p[k2]].representative), false));
    }
    slot2
}

/// Adding network `i` to a species keeps the places; founding a new
/// species with it, after `close` found it near enough to none of the
/// species present, gives the new species the next place.
proof fn lemma_slots_join<F: Fn(&Network, &Network) -> bool>(
    a: Seq<Specie>,
    b: Seq<Specie>,
    old: Seq<Specie>,
    nets: Seq<Network>,
    c0: int,
    c: int,
    close: F,
    slot: Seq<int>,
    i: usize,
    found: Option<usize>,
) -> (slot2: Seq<int>)
    requires
        slots_filled(a, old, nets, c0, c, slot),
        founders_rejected(a, slot, old, nets, close),
        members_below(a, i as int),
        c0 <= c,
        i < nets.len(),
        match found {
            Some(k) => {
                &&& k < a.len()
                &&& b.len() == a.len()
                &&& b[k as int].members@ == a[k as int].members@.push(i)
                &&& same_but_members(b[k as int], a[k as int])
                &&& forall|m: int| 0 <= m < a.len() && m != k ==> #[trigger] b[m] == a[m]
            },
            None => {
                &&& b.len() == a.len() + 1
                &&& forall|m: int| 0 <= m < a.len() ==> #[trigger] b[m] == a[m]
                &&& b.last().id == c
                &&& b.last().members@ == seq![i]
                &&& same_network(b.last().representative, nets[i as int])
                &&& b.last().age == 0
                &&& b.last().stagnant_counter == 0
                &&& b.last().best_fitness == (match nets[i as int].fitness { Some(f) => f, None => 0u32 })
                &&& b.last().avg_fitness == b.last().best_fitness
                &&& b.last().highest_best_fitness == b.last().best_fitness
                &&& forall|m: int| 0 <= m < a.len() ==> close.ensures((&nets[i as int], &(#[trigger] a[m]).representative), false)
            },
        },
    ensures
        slots_filled(b, old, nets, c0, if found is Some { c } else { c + 1 }, slot2),
        founders_rejected(b, slot2, old, nets, close),
{
    let c2 = if found is Some { c } else { c + 1 };
    let n = a.len() as int;
    let slot2 = if found is Some { slot } else { slot.push(n) };
    let t: int = match found {
        Some(k) => k as int,
        None => n,
    };
    assert forall|m: int| 0 <= m < b.len() && m != t implies #[trigger] b[m] == a[m] by {}
    // The founders of species other than `t` are unchanged.
    assert forall|m: int| 0 <= m < n && slot[m] >= old.len() implies (#[trigger] b[m]).members@[0] == a[m].members@[0]
        && b[m].representative == a[m].representative by {
        if m == t {
            assert(a[m].members@.len() > 0);
            assert(b[m].members@[0] == a[m].members@[0]);
        }
    }
    assert forall|m: int| 0 <= m < n implies (#[trigger] b[m]).representative == a[m].representative by {}
    if found is None {
        assert forall|v: int| 0 <= v < n + 1 implies 0 <= #[trigger] slot2[v] < n + 1 by {}
        assert(slot2.no_duplicates()) by {
            assert forall|x: int, y: int| 0 <= x < slot2.len() && 0 <= y < slot2.len() && x != y implies slot2[x] != slot2[y] by {
                if x < n && y < n {
                } else if x == n {
                    assert(slot[y] < n);
                } else {
                    assert(slot[x] < n);
                }
            }
        }
        assert forall|v: int| 0 <= v < n + 1 implies #[trigger] slot2.contains(v) by {
            if v < n {
                assert(slot.contains(v));
                let k0 = choose|k0: int| 0 <= k0 < slot.len() && slot[k0] == v;
                assert(slot2[k0] == v);
            } else {
                assert(slot2[n] == v);
            }
        }
    }
    assert forall|k: int| 0 <= k < b.len() && slot2[k] < old.len() implies same_but_members(#[trigger] b[k], old[slot2[k]]) by {
        assert(k < n);
        assert(same_but_members(a[k], old[slot[k]]));
    }
    assert forall|k: int| 0 <= k < b.len() && slot2[k] >= old.len() implies (#[trigger] b[k]).id == c0 + slot2[k] - old.len()
        && founded_species(b[k], nets, c0, c2) by {
        if k < n {
            assert(a[k].id == c0 + slot[k] - old.len() && founded_species(a[k], nets, c0, c));
            assert(b[k].members@[0] == a[k].members@[0]);
        } else {
            assert(b[k] == b.last());
        }
    }
    assert forall|k: int, j: int| 0 <= k < b.len() && slot2[k] >= old.len() && 0 <= j < old.len() implies close.ensures(
        (&nets[(#[trigger] b[k]).members@[0] as int], &(#[trigger] old[j]).representative),
        false,
    ) by {
        if k < n {
            assert(close.ensures((&nets[a[k].members@[0] as int], &old[j].representative), false));
        } else {
            assert(slot.contains(j));
            let m = choose|m: int| 0 <= m < slot.len() && slot[m] == j;
            assert(same_but_members(a[m], old[j]));
            assert(close.ensures((&nets[i as int], &a[m].representative), false));
            assert(b[k].members@[0] == i);
        }
    }
    assert forall|k: int, k2: int| 0 <= k < b.len() && 0 <= k2 < b.len() && old.len() <= slot2[k2] < slot2[k] implies close.ensures(
        (&nets[(#[trigger] b[k]).members@[0] as int], &(#[trigger] b[k2]).representative),
        false,
    ) && b[k2].members@[0] < b[k].members@[0] by {
        if k < n && k2 < n {
            assert(close.ensures((&nets[a[k].members@[0] as int], &a[k2].representative), false));
            assert(a[k2].members@[0] < a[k].members@[0]);
        } else if k == n {
            assert(k2 < n);
            assert(b[k].members@[0] == i);
            assert(close.ensures((&nets[i as int], &a[k2].representative), false));
            assert(founded_species(a[k2], nets, c0, c));
            assert(a[k2].members@[0] < i);
        } else {
            assert(slot2[k2] == n);
            assert(slot[k] < n);
        }
    }
    slot2
}

impl PopManager {
    /// The first species, in their present order, whose representative
    /// `close` finds near enough to network `i`; `close` found every species
    /// before it, or every species where none is found, not near enough.
    fn first_close<F: Fn(&Network, &Network) -> bool>(&self, i: usize, close: &F) -> (r: Option<usize>)
        requires
            i < self.networks@.len(),
            forall|a: &Network, b: &Network| #[trigger] close.requires((a, b)),
        ensures
            r matches Some(k) ==> k < self.species@.len() && close.ensures(
                (&self.networks@[i as int], &self.species@[k as int].representative),
                true,
            ),
            forall|m: int|
                0 <= m < (match r {
                    Some(k) => k as int,
                    None => self.species@.len() as int,
                }) ==> close.ensures((&self.networks@[i as int], &(#[trigger] self.species@[m]).representative), false),
    {
        let mut k: usize = 0;
        while k < self.species.len()
            invariant
                k <= self.species@.len(),
                i < self.networks@.len(),
                forall|a: &Network, b: &Network| #[trigger] close.requires((a, b)),
                forall|m: int| 0 <= m < k ==> close.ensures((&self.networks@[i as int], &(#[trigger] self.species@[m]).representative), false),
            decreases self.species@.len() - k,
        {
            if close(&self.networks[i], &self.species[k].representative) {
                return Some(k);
            }
            k = k + 1;
        }
        None
    }

    /// Sorts the networks into species. Every species is emptied; then
    /// each network in turn, with the species shuffled first where
    /// `Config::shuffle_species_order` asks for it, joins the first species
    /// whose representative `close` finds near enough to it, or else
    /// founds a new species with itself as representative. Species left
    /// without members are dropped. The species then split the networks
    /// among themselves; each is an old species or one founded in this
    /// round, and `close` found every member near enough to its
    /// representative, the founder of a new species apart. Every old species
    /// that received a member is kept; a network founds a species only where
    /// `close` found it near enough to no species present then, and new
    /// species are numbered from `specie_count` in the order of founding.
    pub fn speciate_population<F: Fn(&Network, &Network) -> bool>(&mut self, close: F)
        requires
            forall|a: &Network, b: &Network| #[trigger] close.requires((a, b)),
            old(self).specie_count + old(self).networks@.len() <= usize::MAX,
        ensures
            is_partition(final(self).species@, final(self).networks@.len() as int),
            all_origins(
                final(self).species@,
                old(self).species@,
                final(self).networks@,
                old(self).specie_count as int,
                final(self).specie_count as int,
                close,
            ),
            exists|pre: Seq<Specie>, slot: Seq<int>|
                #![trigger slots_filled(pre, old(self).species@, final(self).networks@, old(self).specie_count as int, final(self).specie_count as int, slot)]
                final(self).species@ == with_members(pre) && slots_filled(
                    pre,
                    old(self).species@,
                    final(self).networks@,
                    old(self).specie_count as int,
                    final(self).specie_count as int,
                    slot,
                ) && founders_rejected(pre, slot, old(self).species@, final(self).networks@, close),
            old(self).specie_count <= final(self).specie_count <= old(self).specie_count + old(self).networks@.len(),
            final(self).networks == old(self).networks,
            final(self).innovation_count == old(self).innovation_count,
            final(self).net_count == old(self).net_count,
            final(self).generation == old(self).generation,
            final(self).delta_t == old(self).delta_t,
            final(self).change_map@ == old(self).change_map@,
    {
        self.clear_species_members();
        proof {
            assert forall|k: int, j: usize| 0 <= k < self.species@.len() implies !#[trigger] self.species@[k].members@.contains(j) by {
                assert(self.species@[k].members@.len() == 0);
            }
            assert forall|k: int| 0 <= k < self.species@.len() implies species_origin(
                #[trigger] self.species@[k],
                old(self).species@,
                self.networks@,
                old(self).specie_count as int,
                self.specie_count as int,
                close,
            ) by {
                assert(same_but_members(self.species@[k], old(self).species@[k]));
                assert(kept_species(self.species@[k], old(self).species@));
            }
        }
        let ghost mut slot: Seq<int> = Seq::new(self.species@.len(), |k: int| k);
        proof {
            assert forall|v: int| 0 <= v < slot.len() implies #[trigger] slot.contains(v) by {
                assert(slot[v] == v);
            }
            assert forall|k: int| 0 <= k < self.species@.len() && slot[k] < old(self).species@.len() implies same_but_members(
                #[trigger] self.species@[k],
                old(self).species@[slot[k]],
            ) by {}
        }
        let n = self.networks.len();
        let mut i: usize = 0;
        while i < n
            invariant
                i <= n,
                n == self.networks@.len(),
                placed_so_far(self.species@, i as int),
                all_origins(self.species@, old(self).species@, self.networks@, old(self).specie_count as int, self.specie_count as int, close),
                slots_filled(self.species@, old(self).species@, self.networks@, old(self).specie_count as int, self.specie_count as int, slot),
                founders_rejected(self.species@, slot, old(self).species@, self.networks@, close),
                old(self).specie_count <= self.specie_count <= old(self).specie_count + i,
                old(self).specie_count + n <= usize::MAX,
                forall|a: &Network, b: &Network| #[trigger] close.requires((a, b)),
                self.networks == old(self).networks,
                self.innovation_count == old(self).innovation_count,
                self.net_count == old(self).net_count,
                self.generation == old(self).generation,
                self.delta_t == old(self).delta_t,
                self.change_map@ == old(self).change_map@,
            decreases n - i,
        {
            if Config::shuffle_species_order {
                let ghost before = self.species@;
                crate::rng::shuffle_in_place(&mut self.species);
                proof {
                    lemma_rearranged_keeps(before, self.species@, i as int);
                    lemma_origins_rearranged(
                        before,
                        self.species@,
                        old(self).species@,
                        self.networks@,
                        old(self).specie_count as int,
                        self.specie_count as int,
                        close,
                    );
                    slot = lemma_slots_rearranged(
                        before,
                        self.species@,
                        old(self).species@,
                        self.networks@,
                        old(self).specie_count as int,
                        self.specie_count as int,
                        close,
                        slot,
                    );
                }
            }
            let found = self.first_close(i, &close);
            let ghost before = self.species@;
            let ghost c_before = self.specie_count;
            self.join_species(i, found);
            proof {
                lemma_join_keeps(before, self.species@, i, found);
                lemma_origins_join(
                    before,
                    self.species@,
                    old(self).species@,
                    self.networks@,
                    old(self).specie_count as int,
                    c_before as int,
                    close,
                    i,
                    found,
                );
                slot = lemma_slots_join(
                    before,
                    self.species@,
                    old(self).species@,
                    self.networks@,
                    old(self).specie_count as int,
                    c_before as int,
                    close,
                    slot,
                    i,
                    found,
                );
            }
            i = i + 1;
        }
        let ghost before = self.species@;
        self.remove_empty_species();
        proof {
            assert(slots_filled(before, old(self).species@, self.networks@, old(self).specie_count as int, self.specie_count as int, slot));
            lemma_filter_keeps(before, n as int);
            lemma_origins_filter(
                before,
                old(self).species@,
                self.networks@,
                old(self).specie_count as int,
                self.specie_count as int,
                close,
            );
        }
    }
}


/// A network fit to breed: distinct neuron ids, every link joined to its
/// neurons, and all input and output neurons present.
pub open spec fn breedable(n: Network) -> bool {
    &&& n.wf()
    &&& links_closed(n)
    &&& forall|id: usize| id < io_count() ==> #[trigger] has_neuron(n.neurons@, id)
}

/// Network `c` is what `crossover` makes of the dominant parent `d` and
/// the recessive parent `r` (of distinct ids), `ties` saying whether the
/// two were equally fit.
pub open spec fn crossed(c: Network, d: Network, r: Network, ties: bool) -> bool {
    &&& c.wf()
    &&& links_closed(c)
    &&& link_ids(c.links@).no_duplicates()
    &&& forall|k: int| 0 <= k < c.links@.len() ==> gene_from_parents(#[trigger] c.links@[k], d.links@, r.links@, ties)
    &&& forall|id: usize| #[trigger] gene_ids(d.links@).contains(id) ==> link_ids(c.links@).contains(id)
    &&& ties ==> forall|id: usize| #[trigger] gene_ids(r.links@).contains(id) ==> link_ids(c.links@).contains(id)
    &&& forall|k: int| 0 <= k < c.neurons@.len() ==> #[trigger] c.neurons@[k] == parent_neuron(d, r, c.neurons@[k].id)
    &&& forall|id: usize| (#[trigger] has_neuron(c.neurons@, id)) == (id < io_count() || is_endpoint(c.links@, id))
}

/// Network `c`, not yet evaluated, is what breeding `a` and `b` makes on
/// the answer `ans` = (cross, first fitter, ties): `a` is crossed with `b`
/// where `cross` holds and with itself otherwise, `a` dominant where
/// `first fitter` holds; crossing a network with itself copies it.
pub open spec fn bred_as(c: Network, a: Network, b: Network, ans: (bool, bool, bool)) -> bool {
    let o = if ans.0 { b } else { a };
    &&& c.fitness is None
    &&& if a.id == o.id {
        c.id == a.id && c.neurons@ == a.neurons@ && c.links@ == a.links@
    } else {
        crossed(c, first_if(a, o, ans.1), first_if(o, a, ans.1), ans.2)
    }
}

/// Network `c` was bred from two members of species `s` of the networks
/// `nets`, on an answer `decide` gave for those two.
pub open spec fn bred_in<D: Fn(&Network, &Network) -> (bool, bool, bool)>(c: Network, s: Specie, nets: Seq<Network>, decide: D) -> bool {
    exists|m1: int, m2: int, ans: (bool, bool, bool)|
        #![trigger bred_as(c, nets[s.members@[m1] as int], nets[s.members@[m2] as int], ans)]
        0 <= m1 < s.members@.len() && 0 <= m2 < s.members@.len() && decide.ensures(
            (&nets[s.members@[m1] as int], &nets[s.members@[m2] as int]),
            ans,
        ) && bred_as(c, nets[s.members@[m1] as int], nets[s.members@[m2] as int], ans)
}

/// Where the offspring of species `k` begin in the next generation: after
/// the elites and the offspring of the species before it.
pub open spec fn block_start(proportions: Seq<usize>, k: int) -> int {
    Config::species_elitistm_num + total(proportions.take(k))
}

/// The `j`-th offspring of species `k` in the next generation `next`.
pub open spec fn offspring_at(next: Seq<Network>, proportions: Seq<usize>, k: int, j: int) -> Network {
    next[block_start(proportions, k) + j]
}

/// The species' member positions all name networks, and every species
/// that is to breed has a member.
pub open spec fn members_usable(sp: Seq<Specie>, n: int, proportions: Seq<usize>) -> bool {
    &&& forall|k: int, m: int| 0 <= k < sp.len() && 0 <= m < sp[k].members@.len() ==> #[trigger] sp[k].members@[m] < n
    &&& forall|k: int| 0 <= k < sp.len() && proportions[k] > 0 ==> (#[trigger] sp[k]).members@.len() > 0
}

impl PopManager {
    /// Breeds one offspring from two members of species `k` drawn at
    /// random: `decide` says, for the two, whether to cross them (else the
    /// first is copied), whether the first is the fitter and whether the
    /// two are equally fit.
    fn breed_one<D: Fn(&Network, &Network) -> (bool, bool, bool)>(&self, k: usize, decide: &D, count: &mut usize) -> (child: Network)
        requires
            k < self.species@.len(),
            self.species@[k as int].members@.len() > 0,
            forall|m: int| 0 <= m < self.species@[k as int].members@.len() ==> #[trigger] self.species@[k as int].members@[m] < self.networks@.len(),
            forall|q: int| 0 <= q < self.networks@.len() ==> breedable(#[trigger] self.networks@[q]),
            *old(count) < usize::MAX,
            forall|a: &Network, b: &Network| #[trigger] decide.requires((a, b)),
        ensures
            bred_in(child, self.species@[k as int], self.networks@, *decide),
            *final(count) == *old(count) || (*final(count) == *old(count) + 1 && child.id == *old(count)),
    {
        let ghost s = self.species@[k as int];
        let m1 = random_below(self.species[k].members.len());
        let m2 = random_below(self.species[k].members.len());
        let p1 = self.species[k].members[m1];
        let p2 = self.species[k].members[m2];
        let a = &self.networks[p1];
        let b = &self.networks[p2];
        let (cross, first_fitter, ties) = decide(a, b);
        let other = if cross { b } else { a };
                proof {
            assert(breedable(*a) && breedable(*other));
            assert forall|id: usize| (id < io_count() || is_endpoint(a.links@, id) || is_endpoint(other.links@, id)) implies has_neuron(
                a.neurons@,
                id,
            ) || has_neuron(other.neurons@, id) by {
                if is_endpoint(a.links@, id) {
                    let q = choose|q: int| 0 <= q < a.links@.len() && #[trigger] touches(a.links@[q], id);
                    assert(has_neuron(a.neurons@, a.links@[q].from) && has_neuron(a.neurons@, a.links@[q].to));
                } else if is_endpoint(other.links@, id) {
                    let q = choose|q: int| 0 <= q < other.links@.len() && #[trigger] touches(other.links@[q], id);
                    assert(has_neuron(other.neurons@, other.links@[q].from) && has_neuron(other.neurons@, other.links@[q].to));
                }
            }
        }
        let mut child = a.crossover(other, count, first_fitter, ties);
        child.fitness = None;
        proof {
            let ans = (cross, first_fitter, ties);
            assert(s.members@[m1 as int] == p1);
            assert(s.members@[m2 as int] == p2);
            assert(decide.ensures((a, b), ans));
            assert(bred_as(child, *a, *b, ans));
            assert(bred_as(child, self.networks@[s.members@[m1 as int] as int], self.networks@[s.members@[m2 as int] as int], ans));
        }
        child
    }

    /// Makes the next generation from species whose shares of offspring
    /// are `proportions`: first copies of the best networks, unchanged, as
    /// elites; then, species by species, as many offspring as its share,
    /// each bred from two of its members drawn at random as `decide` says
    /// (see `breed_one`), numbered from `net_count` where they are new, and
    /// not yet evaluated. An empty population stays as it is.
    pub fn species_add_offspring<D: Fn(&Network, &Network) -> (bool, bool, bool)>(&mut self, proportions: &Vec<usize>, decide: D)
        requires
            old(self).networks@.len() == 0 || old(self).networks@.len() >= Config::species_elitistm_num,
            proportions@.len() == old(self).species@.len(),
            members_usable(old(self).species@, old(self).networks@.len() as int, proportions@),
            forall|q: int| 0 <= q < old(self).networks@.len() ==> breedable(#[trigger] old(self).networks@[q]),
            old(self).net_count + total(proportions@) < usize::MAX,
            forall|a: &Network, b: &Network| #[trigger] decide.requires((a, b)),
        ensures
            old(self).networks@.len() == 0 ==> final(self).networks@ == old(self).networks@ && final(self).net_count
                == old(self).net_count,
            old(self).networks@.len() > 0 ==> {
                &&& final(self).networks@.len() == Config::species_elitistm_num + total(proportions@)
                &&& forall|q: int| 0 <= q < Config::species_elitistm_num ==> same_network(#[trigger] final(self).networks@[q], old(self).networks@[q])
                &&& forall|k: int, j: int| 0 <= k < proportions@.len() && 0 <= j < proportions@[k] ==> bred_in(
                    #[trigger] offspring_at(final(self).networks@, proportions@, k, j),
                    old(self).species@[k],
                    old(self).networks@,
                    decide,
                )
                &&& old(self).net_count <= final(self).net_count <= old(self).net_count + total(proportions@)
            },
            final(self).species == old(self).species,
            final(self).innovation_count == old(self).innovation_count,
            final(self).specie_count == old(self).specie_count,
            final(self).generation == old(self).generation,
            final(self).delta_t == old(self).delta_t,
            final(self).change_map@ == old(self).change_map@,
    {
        if self.networks.len() == 0 {
            return;
        }
        let ghost nets = self.networks@;
        let ghost props = proportions@;
        let mut next: Vec<Network> = Vec::new();
        let mut q: usize = 0;
        while q < Config::species_elitistm_num
            invariant
                q <= Config::species_elitistm_num,
                Config::species_elitistm_num <= nets.len(),
                nets == self.networks@,
                next@.len() == q,
                forall|e: int| 0 <= e < q ==> same_network(#[trigger] next@[e], nets[e]),
            decreases Config::species_elitistm_num - q,
        {
            let n = self.networks[q].clone_network();
            next.push(n);
            q = q + 1;
        }
        let mut count: usize = self.net_count;
        let mut k: usize = 0;
        proof {
            lemma_total_mono(props, 0, props.len() as int);
            assert(props.take(props.len() as int) == props);
        }
        while k < proportions.len()
            invariant
                k <= props.len(),
                props == proportions@,
                props.len() == self.species@.len(),
                nets == self.networks@,
                self.species == old(self).species,
                self.net_count == old(self).net_count,
                members_usable(self.species@, nets.len() as int, props),
                forall|x: int| 0 <= x < nets.len() ==> breedable(#[trigger] nets[x]),
                forall|a: &Network, b: &Network| #[trigger] decide.requires((a, b)),
                self.net_count + total(props) < usize::MAX,
                next@.len() == block_start(props, k as int),
                forall|e: int| 0 <= e < Config::species_elitistm_num ==> same_network(#[trigger] next@[e], nets[e]),
                forall|kk: int, j: int| 0 <= kk < k && 0 <= j < props[kk] ==> bred_in(
                    #[trigger] offspring_at(next@, props, kk, j),
                    self.species@[kk],
                    nets,
                    decide,
                ),
                self.net_count <= count <= self.net_count + total(props.take(k as int)),
                total(props.take(k as int)) <= total(props),
            decreases props.len() - k,
        {
            proof {
                lemma_total_prefix(props, k + 1);
                lemma_total_mono(props, k + 1, props.len() as int);
                assert(props.take(props.len() as int) == props);
            }
            let quota = proportions[k];
            let mut j: usize = 0;
            while j < quota
                invariant
                    j <= quota,
                    k < props.len(),
                    quota == props[k as int],
                    props == proportions@,
                    props.len() == self.species@.len(),
                    nets == self.networks@,
                    self.species == old(self).species,
                    self.net_count == old(self).net_count,
                    members_usable(self.species@, nets.len() as int, props),
                    forall|x: int| 0 <= x < nets.len() ==> breedable(#[trigger] nets[x]),
                    forall|a: &Network, b: &Network| #[trigger] decide.requires((a, b)),
                    self.net_count + total(props) < usize::MAX,
                    next@.len() == block_start(props, k as int) + j,
                    forall|e: int| 0 <= e < Config::species_elitistm_num ==> same_network(#[trigger] next@[e], nets[e]),
                    forall|kk: int, jj: int| 0 <= kk < k && 0 <= jj < props[kk] ==> bred_in(
                        #[trigger] offspring_at(next@, props, kk, jj),
                        self.species@[kk],
                        nets,
                        decide,
                    ),
                    forall|jj: int| 0 <= jj < j ==> bred_in(
                        #[trigger] offspring_at(next@, props, k as int, jj),
                        self.species@[k as int],
                        nets,
                        decide,
                    ),
                    self.net_count <= count <= self.net_count + total(props.take(k as int)) + j,
                    total(props.take(k + 1)) == total(props.take(k as int)) + props[k as int],
                    total(props.take(k + 1)) <= total(props),
                decreases quota - j,
            {
                proof {
                    assert(self.species@[k as int].members@.len() > 0);
                    assert forall|m: int| 0 <= m < self.species@[k as int].members@.len() implies #[trigger] self.species@[k as int].members@[m]
                        < self.networks@.len() by {}
                }
                let child = self.breed_one(k, &decide, &mut count);
                let ghost before = next@;
                next.push(child);
                proof {
                    assert(next@ == before.push(child));
                    assert forall|e: int| 0 <= e < Config::species_elitistm_num implies same_network(#[trigger] next@[e], nets[e]) by {
                        assert(next@[e] == before[e]);
                    }
                    assert forall|kk: int, jj: int| 0 <= kk < k && 0 <= jj < props[kk] implies bred_in(
                        #[trigger] offspring_at(next@, props, kk, jj),
                        self.species@[kk],
                        nets,
                        decide,
                    ) by {
                        lemma_total_prefix(props, kk + 1);
                        lemma_total_mono(props, kk + 1, k as int);
                        let idx = block_start(props, kk) + jj;
                        lemma_total_bound(props.take(kk));
                        assert(idx < before.len());
                        assert(next@[idx] == before[idx]);
                        assert(offspring_at(next@, props, kk, jj) == offspring_at(before, props, kk, jj));
                    }
                    assert forall|jj: int| 0 <= jj < j + 1 implies bred_in(
                        #[trigger] offspring_at(next@, props, k as int, jj),
                        self.species@[k as int],
                        nets,
                        decide,
                    ) by {
                        if jj < j {
                            let idx = block_start(props, k as int) + jj;
                            lemma_total_bound(props.take(k as int));
                            assert(idx < before.len());
                            assert(next@[idx] == before[idx]);
                            assert(offspring_at(next@, props, k as int, jj) == offspring_at(before, props, k as int, jj));
                        } else {
                            assert(offspring_at(next@, props, k as int, jj) == child);
                        }
                    }
                }
                j = j + 1;
            }
            k = k + 1;
        }
        proof {
            assert(props.take(props.len() as int) == props);
        }
        self.networks = next;
        self.net_count = count;
    }
}

/// Network `c` is what `crossover` makes of `a` and `b` on the answer
/// `ans` = (first fitter, ties): a copy of `a` where the two are one
/// network, else their offspring, not yet evaluated.
pub open spec fn crossed_as(c: Network, a: Network, b: Network, ans: (bool, bool)) -> bool {
    if a.id == b.id {
        same_network(c, a)
    } else {
        c.fitness is None && crossed(c, first_if(a, b, ans.0), first_if(b, a, ans.0), ans.1)
    }
}

/// Network `c` was bred by crossing two of the networks `nets`, on an
/// answer `decide` gave for those two.
pub open spec fn bred_among<D: Fn(&Network, &Network) -> (bool, bool)>(c: Network, nets: Seq<Network>, decide: D) -> bool {
    exists|p1: int, p2: int, ans: (bool, bool)|
        #![trigger crossed_as(c, nets[p1], nets[p2], ans)]
        0 <= p1 < nets.len() && 0 <= p2 < nets.len() && decide.ensures((&nets[p1], &nets[p2]), ans) && crossed_as(
            c,
            nets[p1],
            nets[p2],
            ans,
        )
}

impl PopManager {
    /// Makes the next generation of a population not divided into
    /// species: first copies of the best networks, unchanged, as elites;
    /// then, up to the population size, offspring each crossed from two
    /// networks drawn at random, `decide` saying for the two whether the
    /// first is the fitter and whether they are equally fit; new offspring
    /// are numbered from `net_count`. An empty population stays as it is.
    pub fn simple_add_offspring<D: Fn(&Network, &Network) -> (bool, bool)>(&mut self, decide: D)
        requires
            old(self).networks@.len() == 0 || old(self).networks@.len() >= Config::global_elitistm_num,
            forall|q: int| 0 <= q < old(self).networks@.len() ==> breedable(#[trigger] old(self).networks@[q]),
            old(self).net_count + Config::population_size < usize::MAX,
            forall|a: &Network, b: &Network| #[trigger] decide.requires((a, b)),
        ensures
            old(self).networks@.len() == 0 ==> final(self).networks@ == old(self).networks@ && final(self).net_count
                == old(self).net_count,
            old(self).networks@.len() > 0 ==> {
                &&& final(self).networks@.len() == (if Config::global_elitistm_num >= Config::population_size {
                    Config::global_elitistm_num
                } else {
                    Config::population_size
                })
                &&& forall|q: int| 0 <= q < Config::global_elitistm_num ==> same_network(#[trigger] final(self).networks@[q], old(self).networks@[q])
                &&& forall|q: int|
                    Config::global_elitistm_num <= q < final(self).networks@.len() ==> bred_among(
                        #[trigger] final(self).networks@[q],
                        old(self).networks@,
                        decide,
                    )
                &&& old(self).net_count <= final(self).net_count <= old(self).net_count + Config::population_size
            },
            final(self).species == old(self).species,
            final(self).innovation_count == old(self).innovation_count,
            final(self).specie_count == old(self).specie_count,
            final(self).generation == old(self).generation,
            final(self).delta_t == old(self).delta_t,
            final(self).change_map@ == old(self).change_map@,
    {
        if self.networks.len() == 0 {
            return;
        }
        let ghost nets = self.networks@;
        let mut next: Vec<Network> = Vec::new();
        let mut q: usize = 0;
        while q < Config::global_elitistm_num
            invariant
                q <= Config::global_elitistm_num,
                Config::global_elitistm_num <= nets.len(),
                nets == self.networks@,
                next@.len() == q,
                forall|e: int| 0 <= e < q ==> same_network(#[trigger] next@[e], nets[e]),
            decreases Config::global_elitistm_num - q,
        {
            let n = self.networks[q].clone_network();
            next.push(n);
            q = q + 1;
        }
        let mut count: usize = self.net_count;
        while next.len() < Config::population_size
            invariant
                nets == self.networks@,
                nets.len() > 0,
                self.net_count == old(self).net_count,
                self.species == old(self).species,
                forall|x: int| 0 <= x < nets.len() ==> breedable(#[trigger] nets[x]),
                forall|a: &Network, b: &Network| #[trigger] decide.requires((a, b)),
                self.net_count + Config::population_size < usize::MAX,
                Config::global_elitistm_num <= next@.len(),
                next@.len() <= (if Config::global_elitistm_num >= Config::population_size {
                    Config::global_elitistm_num
                } else {
                    Config::population_size
                }),
                forall|e: int| 0 <= e < Config::global_elitistm_num ==> same_network(#[trigger] next@[e], nets[e]),
                forall|x: int| Config::global_elitistm_num <= x < next@.len() ==> bred_among(#[trigger] next@[x], nets, decide),
                self.net_count <= count <= self.net_count + (next@.len() - Config::global_elitistm_num),
            decreases Config::population_size - next@.len(),
        {
            let p1 = random_below(self.networks.len());
            let p2 = random_below(self.networks.len());
            let a = &self.networks[p1];
            let b = &self.networks[p2];
            let (first_fitter, ties) = decide(a, b);
            proof {
                assert(breedable(*a) && breedable(*b));
                assert forall|id: usize| (id < io_count() || is_endpoint(a.links@, id) || is_endpoint(b.links@, id)) implies has_neuron(
                    a.neurons@,
                    id,
                ) || has_neuron(b.neurons@, id) by {
                    if is_endpoint(a.links@, id) {
                        let t = choose|t: int| 0 <= t < a.links@.len() && #[trigger] touches(a.links@[t], id);
                        assert(has_neuron(a.neurons@, a.links@[t].from) && has_neuron(a.neurons@, a.links@[t].to));
                    } else if is_endpoint(b.links@, id) {
                        let t = choose|t: int| 0 <= t < b.links@.len() && #[trigger] touches(b.links@[t], id);
                        assert(has_neuron(b.neurons@, b.links@[t].from) && has_neuron(b.neurons@, b.links@[t].to));
                    }
                }
            }
            let child = a.crossover(b, &mut count, first_fitter, ties);
            let ghost before = next@;
            proof {
                let ans = (first_fitter, ties);
                assert(crossed_as(child, *a, *b, ans));
                assert(crossed_as(child, nets[p1 as int], nets[p2 as int], ans));
                assert(bred_among(child, nets, decide));
            }
            next.push(child);
            proof {
                assert forall|e: int| 0 <= e < Config::global_elitistm_num implies same_network(#[trigger] next@[e], nets[e]) by {
                    assert(next@[e] == before[e]);
                }
                assert forall|x: int| Config::global_elitistm_num <= x < next@.len() implies bred_among(#[trigger] next@[x], nets, decide) by {
                    if x < before.len() {
                        assert(next@[x] == before[x]);
                    }
                }
            }
        }
        self.networks = next;
        self.net_count = count;
    }
}

/// The sum of a prefix grows with its length.
proof fn lemma_total_mono(s: Seq<usize>, a: int, b: int)
    requires
        0 <= a <= b <= s.len(),
    ensures
        total(s.take(a)) <= total(s.take(b)),
    decreases b - a,
{
    if a < b {
        lemma_total_prefix(s, b);
        lemma_total_mono(s, a, b - 1);
    }
}

} // verus!
