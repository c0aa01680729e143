use vstd::prelude::*;
use crate::graph::{acyclic, lemma_reach_with_edge, lemma_reaches_trans, lemma_search_all, lemma_sort_by_degree_contains, succs, pushed_front, search_step, search, search_all, out_degree, insert_by_degree, sort_by_degree, unseen_sources, lemma_unseen_sources_push, lemma_unseen_sources_bound, lemma_insert_by_degree_at, lemma_pushed_front_len, is_target, has_edge, lemma_closed_holds_reach, lemma_edge_reaches, lemma_reaches_extend, lemma_unseen_targets_shrink, reaches, unseen_targets};
use crate::link::Link;
use crate::config::Config;
use crate::neuron::{Neuron, NeuronType, HALF_BITS, ONE_BITS, ZERO_BITS};
use crate::rng::{choose_item, random_below};

verus! {

/// The kinds of change a mutation makes to a network.
#[allow(non_camel_case_types)]
#[derive(Eq, Hash, PartialEq, Debug, Clone, Copy, Structural)]
pub enum Mutation {
    add_neuron,
    remove_neuron,
    add_link,
    remove_link,
    reset_link,
    nudge_link,
    toggle_link,
    none,
}

/// The key under which a mutation's innovation number is remembered: the
/// kind of mutation and the two neurons it concerned.
pub type ChangeKey = (Mutation, usize, usize);

/// The map from `entries` in which a later entry overrides an earlier one
/// with the same key.
pub open spec fn entries_map(s: Seq<(ChangeKey, usize)>) -> Map<ChangeKey, usize>
    decreases s.len(),
{
    if s.len() == 0 {
        Map::empty()
    } else {
        entries_map(s.drop_last()).insert(s.last().0, s.last().1)
    }
}

/// Looking a key up in `entries_map(s)` finds the last entry with that key.
proof fn lemma_entries_lookup(s: Seq<(ChangeKey, usize)>, key: ChangeKey, j: int)
    requires
        -1 <= j < s.len(),
        j >= 0 ==> s[j].0 == key,
        forall|m: int| j < m < s.len() ==> #[trigger] s[m].0 != key,
    ensures
        j >= 0 ==> entries_map(s).contains_key(key) && entries_map(s)[key] == s[j].1,
        j < 0 ==> !entries_map(s).contains_key(key),
    decreases s.len(),
{
    if s.len() > 0 {
        if j == s.len() - 1 {
        } else {
            assert forall|m: int| j < m < s.drop_last().len() implies #[trigger] s.drop_last()[m].0 != key by {
                assert(s[m].0 != key);
            }
            lemma_entries_lookup(s.drop_last(), key, j);
            assert(s.last().0 != key);
        }
    }
}

/// The innovation numbers given to mutations so far, so that the same
/// mutation made again, in any network, gets the same number.
pub struct ChangeMap {
    entries: Vec<(ChangeKey, usize)>,
}

impl View for ChangeMap {
    type V = Map<ChangeKey, usize>;

    closed spec fn view(&self) -> Map<ChangeKey, usize> {
        entries_map(self.entries@)
    }
}

impl ChangeMap {
    /// An empty map.
    pub fn new() -> (m: ChangeMap)
        ensures
            m@ == Map::<ChangeKey, usize>::empty(),
    {
        ChangeMap { entries: Vec::new() }
    }

    /// Every number the map holds lies below `bound`.
    pub open spec fn values_below(&self, bound: usize) -> bool {
        forall|k: ChangeKey| #[trigger] self@.contains_key(k) ==> self@[k] < bound
    }

    /// The number remembered for `key`, if any.
    pub fn get(&self, key: &ChangeKey) -> (r: Option<usize>)
        ensures
            r == (if self@.contains_key(*key) { Some(self@[*key]) } else { None }),
    {
        let mut i: usize = self.entries.len();
        while i > 0
            invariant
                i <= self.entries@.len(),
                forall|m: int| i <= m < self.entries@.len() ==> #[trigger] self.entries@[m].0 != *key,
            decreases i,
        {
            let e = self.entries[i - 1];
            if e.0.0 == key.0 && e.0.1 == key.1 && e.0.2 == key.2 {
                proof {
                    lemma_entries_lookup(self.entries@, *key, i - 1);
                }
                return Some(e.1);
            }
            i = i - 1;
        }
        proof {
            lemma_entries_lookup(self.entries@, *key, -1);
        }
        None
    }

    /// Whether a number is remembered for `key`.
    pub fn contains_key(&self, key: &ChangeKey) -> (r: bool)
        ensures
            r == self@.contains_key(*key),
    {
        self.get(key).is_some()
    }

    /// Remembers `value` for `key`, replacing what was there.
    pub fn insert(&mut self, key: ChangeKey, value: usize)
        ensures
            final(self)@ == old(self)@.insert(key, value),
    {
        let ghost e0 = self.entries@;
        self.entries.push((key, value));
        assert(self.entries@.drop_last() == e0);
    }

    /// Forgets everything.
    pub fn clear(&mut self)
        ensures
            final(self)@ == Map::<ChangeKey, usize>::empty(),
    {
        self.entries.clear();
    }
}

/// The first position at or after `i` at which `ids` holds `id`, or the
/// length of `ids` where none does.
pub open spec fn first_pos(ids: Seq<usize>, id: usize, i: int) -> int
    decreases ids.len() - i,
{
    if i < 0 || i >= ids.len() {
        ids.len() as int
    } else if ids[i] == id {
        i
    } else {
        first_pos(ids, id, i + 1)
    }
}

/// What `first_pos` finds.
pub proof fn lemma_first_pos(ids: Seq<usize>, id: usize, i: int)
    requires
        0 <= i <= ids.len(),
    ensures
        i <= first_pos(ids, id, i) <= ids.len(),
        first_pos(ids, id, i) < ids.len() ==> ids[first_pos(ids, id, i)] == id,
        forall|j: int| i <= j < first_pos(ids, id, i) ==> #[trigger] ids[j] != id,
    decreases ids.len() - i,
{
    if i < ids.len() && ids[i] != id {
        lemma_first_pos(ids, id, i + 1);
    }
}

/// The ids of the neurons, in order.
pub open spec fn neuron_ids(ns: Seq<Neuron>) -> Seq<usize> {
    ns.map_values(|n: Neuron| n.id)
}

/// The ids of the links, in order.
pub open spec fn link_ids(ls: Seq<Link>) -> Seq<usize> {
    ls.map_values(|l: Link| l.id)
}

/// The position of the first link from `a` to `b` at or after `i`, or
/// the number of links.
pub open spec fn first_between(ls: Seq<Link>, a: usize, b: usize, i: int) -> int
    decreases ls.len() - i,
{
    if i < 0 || i >= ls.len() {
        ls.len() as int
    } else if ls[i].from == a && ls[i].to == b {
        i
    } else {
        first_between(ls, a, b, i + 1)
    }
}

/// What `first_between` finds.
pub proof fn lemma_first_between(ls: Seq<Link>, a: usize, b: usize, i: int)
    requires
        0 <= i <= ls.len(),
    ensures
        i <= first_between(ls, a, b, i) <= ls.len(),
        first_between(ls, a, b, i) < ls.len() ==> ls[first_between(ls, a, b, i)].from == a && ls[first_between(ls, a, b, i)].to == b,
        forall|j: int| i <= j < first_between(ls, a, b, i) ==> !((#[trigger] ls[j]).from == a && ls[j].to == b),
    decreases ls.len() - i,
{
    if i < ls.len() && !(ls[i].from == a && ls[i].to == b) {
        lemma_first_between(ls, a, b, i + 1);
    }
}

/// The position of the first neuron with id `id`, or the number of neurons.
pub open spec fn neuron_pos(ns: Seq<Neuron>, id: usize) -> int {
    first_pos(neuron_ids(ns), id, 0)
}

/// Some neuron has id `id`.
pub open spec fn has_neuron(ns: Seq<Neuron>, id: usize) -> bool {
    neuron_pos(ns, id) < ns.len()
}

/// The position of the first link with id `id`, or the number of links.
pub open spec fn link_pos(ls: Seq<Link>, id: usize) -> int {
    first_pos(link_ids(ls), id, 0)
}

/// The outcome of asking for a link from `input` to `output` in a network
/// whose links were `links`, with the innovation counter at `count` and the
/// mutations remembered in `map`; `links2`, `count2`, `map2` are what they
/// become and `r` is what is answered.
///
/// Where a link from `input` to `output` exists already, the first such
/// link is enabled again and nothing else changes. Where a link back from
/// `output` to `input` exists already, nothing changes. Otherwise an enabled
/// link with weight 0.0 is added, under the innovation number remembered for
/// this mutation or under a fresh one, and its position is answered.
pub open spec fn link_added(
    links: Seq<Link>,
    count: usize,
    map: Map<ChangeKey, usize>,
    input: usize,
    output: usize,
    links2: Seq<Link>,
    count2: usize,
    map2: Map<ChangeKey, usize>,
    r: Option<usize>,
) -> bool {
    let p = first_between(links, input, output, 0);
    let key = (Mutation::add_link, input, output);
    if p < links.len() {
        &&& links2 == links.update(p, Link { enabled: true, ..links[p] })
        &&& count2 == count
        &&& map2 == map
        &&& r is None
    } else if reaches(links, output, input) {
        &&& links2 == links
        &&& count2 == count
        &&& map2 == map
        &&& r is None
    } else {
        let id = if map.contains_key(key) { map[key] } else { count };
        &&& links2 == links.push(Link { id: id, from: input, to: output, weight: ZERO_BITS, enabled: true })
        &&& count2 == (if map.contains_key(key) { count } else { (count + 1) as usize })
        &&& map2 == (if map.contains_key(key) { map } else { map.insert(key, count) })
        &&& r == Some(links.len() as usize)
    }
}

/// Some neuron of kind `a` or `b` has id `id`.
pub open spec fn id_of_kind(ns: Seq<Neuron>, id: usize, a: NeuronType, b: NeuronType) -> bool {
    exists|j: int| 0 <= j < ns.len() && #[trigger] ns[j].id == id && (ns[j].kind == a || ns[j].kind == b)
}

/// Some neuron is of kind `a` or `b`.
pub open spec fn has_kind(ns: Seq<Neuron>, a: NeuronType, b: NeuronType) -> bool {
    exists|j: int| 0 <= j < ns.len() && (#[trigger] ns[j].kind == a || ns[j].kind == b)
}

/// The neurons `ns` with `n` put in place of the neuron with its id, or
/// after the others where none has it.
pub open spec fn with_neuron(ns: Seq<Neuron>, n: Neuron) -> Seq<Neuron> {
    if has_neuron(ns, n.id) {
        ns.update(neuron_pos(ns, n.id), n)
    } else {
        ns.push(n)
    }
}

/// The id a new hidden neuron put into link `i` of `net` takes: the one
/// remembered for splitting a link between the same two neurons, or else
/// the counter `count`.
pub open spec fn split_id(net: Network, count: usize, map: Map<ChangeKey, usize>, i: int) -> usize {
    let l = net.links@[i];
    let key = (Mutation::add_neuron, l.from, l.to);
    if map.contains_key(key) { map[key] } else { count }
}

/// The largest neuron id of `ns`, or 0 where there is none.
pub open spec fn max_neuron_id(ns: Seq<Neuron>) -> int
    decreases ns.len(),
{
    if ns.len() == 0 {
        0
    } else if max_neuron_id(ns.drop_last()) < ns.last().id {
        ns.last().id as int
    } else {
        max_neuron_id(ns.drop_last())
    }
}

/// No neuron id exceeds `max_neuron_id`.
pub proof fn lemma_max_neuron_id(ns: Seq<Neuron>)
    ensures
        0 <= max_neuron_id(ns),
        forall|k: int| 0 <= k < ns.len() ==> (#[trigger] ns[k]).id <= max_neuron_id(ns),
    decreases ns.len(),
{
    if ns.len() > 0 {
        lemma_max_neuron_id(ns.drop_last());
        assert forall|k: int| 0 <= k < ns.len() implies (#[trigger] ns[k]).id <= max_neuron_id(ns) by {
            if k < ns.len() - 1 {
                assert(ns[k] == ns.drop_last()[k]);
            }
        }
    }
}

/// A position holding the largest neuron id, for a nonempty `ns`.
pub open spec fn max_id_at(ns: Seq<Neuron>) -> int
    decreases ns.len(),
{
    if ns.len() <= 1 {
        0
    } else if max_neuron_id(ns.drop_last()) < ns.last().id {
        ns.len() - 1
    } else {
        max_id_at(ns.drop_last())
    }
}

/// The largest neuron id of a nonempty `ns` is the id at `max_id_at`.
pub proof fn lemma_max_id_at(ns: Seq<Neuron>)
    requires
        ns.len() > 0,
    ensures
        0 <= max_id_at(ns) < ns.len(),
        ns[max_id_at(ns)].id == max_neuron_id(ns),
    decreases ns.len(),
{
    if ns.len() > 1 {
        lemma_max_id_at(ns.drop_last());
        lemma_max_neuron_id(ns.drop_last());
    } else {
        assert(max_neuron_id(ns.drop_last()) == 0);
    }
}

/// The id of the new hidden neuron put into link `i` of `net`: the number
/// the split is given (`split_id`) where no neuron has it yet, else one
/// more than the largest neuron id, so that it is always new.
pub open spec fn new_neuron_id(net: Network, count: usize, map: Map<ChangeKey, usize>, i: int) -> usize {
    let base = split_id(net, count, map, i);
    if has_neuron(net.neurons@, base) {
        (max_neuron_id(net.neurons@) + 1) as usize
    } else {
        base
    }
}

/// The network `net2`, with counter `count2` and remembered mutations
/// `map2`, is `net` (with `count` and `map`) after a new hidden neuron was
/// put into link `i`: the neuron, with an id (`new_neuron_id`) that no
/// neuron of `net` has, is added after the others; the link is disabled,
/// and links from its source to the new neuron (weight 1.0) and from the
/// new neuron to its target (the old weight) are added, numbered right
/// after the split's number (`split_id`). A split not met before takes its
/// number from the counter, which moves on by 3, and is remembered.
pub open spec fn neuron_split(
    net: Network,
    count: usize,
    map: Map<ChangeKey, usize>,
    i: int,
    net2: Network,
    count2: usize,
    map2: Map<ChangeKey, usize>,
) -> bool {
    let l = net.links@[i];
    let key = (Mutation::add_neuron, l.from, l.to);
    let base = split_id(net, count, map, i);
    let nid = new_neuron_id(net, count, map, i);
    &&& !has_neuron(net.neurons@, nid)
    &&& count2 == (if map.contains_key(key) { count } else { (count + 3) as usize })
    &&& map2 == (if map.contains_key(key) { map } else { map.insert(key, count) })
    &&& net2.neurons@ == net.neurons@.push(Neuron { id: nid, activation: HALF_BITS, bias: ZERO_BITS, kind: NeuronType::Hidden })
    &&& net2.links@ == net.links@.update(i, Link { enabled: false, ..l }).push(
        Link { id: (base + 1) as usize, from: l.from, to: nid, weight: ONE_BITS, enabled: true },
    ).push(Link { id: (base + 2) as usize, from: nid, to: l.to, weight: l.weight, enabled: true })
    &&& net2.id == net.id
    &&& net2.fitness == net.fitness
}

/// Splitting link `i` of `net` puts a new hidden neuron between the link's
/// ends: the link is disabled and every other old link is kept as it was;
/// the first new link leads from the link's source into the new neuron with
/// weight 1.0, and the second from the new neuron to the link's target with
/// the split link's weight, so that the signal passing through is the same.
pub proof fn lemma_split_links(
    net: Network,
    count: usize,
    map: Map<ChangeKey, usize>,
    i: int,
    net2: Network,
    count2: usize,
    map2: Map<ChangeKey, usize>,
)
    requires
        0 <= i < net.links@.len(),
        neuron_split(net, count, map, i, net2, count2, map2),
    ensures
        net2.neurons@.len() == net.neurons@.len() + 1,
        net2.links@.len() == net.links@.len() + 2,
        ({
            let l = net.links@[i];
            let h = net2.neurons@.last();
            let into = net2.links@[net.links@.len() as int];
            let out = net2.links@[(net.links@.len() + 1) as int];
            &&& h.kind == NeuronType::Hidden
            &&& !has_neuron(net.neurons@, h.id)
            &&& forall|k: int| 0 <= k < net.neurons@.len() ==> #[trigger] net2.neurons@[k] == net.neurons@[k]
            &&& !net2.links@[i].enabled
            &&& net2.links@[i].from == l.from && net2.links@[i].to == l.to && net2.links@[i].weight == l.weight
            &&& forall|k: int| 0 <= k < net.links@.len() && k != i ==> #[trigger] net2.links@[k] == net.links@[k]
            &&& into.from == l.from && into.to == h.id && into.weight == ONE_BITS && into.enabled
            &&& out.from == h.id && out.to == l.to && out.weight == l.weight && out.enabled
        }),
{
}

/// The links that neither start nor end at neuron `id` are exactly the
/// ones kept, enabled or not, in their order: each such link stays, and
/// nothing else does.
pub proof fn lemma_links_avoiding_keeps(ls: Seq<Link>, id: usize)
    ensures
        forall|k: int| 0 <= k < ls.len() && ls[k].from != id && ls[k].to != id ==> links_avoiding(ls, id).contains(#[trigger] ls[k]),
        forall|k: int|
            0 <= k < links_avoiding(ls, id).len() ==> (#[trigger] links_avoiding(ls, id)[k]).from != id && links_avoiding(ls, id)[k].to
                != id && ls.contains(links_avoiding(ls, id)[k]),
        (forall|k: int| 0 <= k < ls.len() ==> (#[trigger] ls[k]).from != id && ls[k].to != id) ==> links_avoiding(ls, id) == ls,
    decreases ls.len(),
{
    let keep = |l: Link| l.from != id && l.to != id;
    reveal_with_fuel(Seq::<_>::filter, 1);
    ls.filter_lemma(keep);
    assert forall|k: int| 0 <= k < links_avoiding(ls, id).len() implies ls.contains(#[trigger] links_avoiding(ls, id)[k]) by {
        assert(links_avoiding(ls, id).contains(links_avoiding(ls, id)[k]));
        ls.lemma_filter_contains_rev(keep, links_avoiding(ls, id)[k]);
    }
    if ls.len() > 0 {
        lemma_links_avoiding_keeps(ls.drop_last(), id);
        if forall|k: int| 0 <= k < ls.len() ==> (#[trigger] ls[k]).from != id && ls[k].to != id {
            assert forall|k: int| 0 <= k < ls.drop_last().len() implies (#[trigger] ls.drop_last()[k]).from != id
                && ls.drop_last()[k].to != id by {
                assert(ls.drop_last()[k] == ls[k]);
            }
            assert(ls[ls.len() - 1].from != id && ls[ls.len() - 1].to != id);
            assert(ls.drop_last().push(ls.last()) == ls);
        }
    }
}

/// The ids of the neurons of kind `k`, in order.
pub open spec fn ids_of(ns: Seq<Neuron>, k: NeuronType) -> Seq<usize> {
    ns.filter(|n: Neuron| n.kind == k).map_values(|n: Neuron| n.id)
}

/// Enabled links of weight 0.0 from neuron `a` to each of `outs` in turn,
/// numbered from `start`.
pub open spec fn link_row(a: usize, outs: Seq<usize>, start: int) -> Seq<Link> {
    Seq::new(
        outs.len(),
        |k: int| Link { id: (start + k) as usize, from: a, to: outs[k], weight: ZERO_BITS, enabled: true },
    )
}

/// Enabled links of weight 0.0 from each of `ins` in turn to each of
/// `outs` in turn, numbered from `start`.
pub open spec fn link_grid(ins: Seq<usize>, outs: Seq<usize>, start: int) -> Seq<Link>
    decreases ins.len(),
{
    if ins.len() == 0 {
        Seq::empty()
    } else {
        link_grid(ins.drop_last(), outs, start) + link_row(ins.last(), outs, start + (ins.len() - 1) * outs.len())
    }
}

/// The innovation numbers the links carry.
pub open spec fn gene_ids(ls: Seq<Link>) -> Set<usize> {
    link_ids(ls).to_set()
}

/// The largest innovation number among the links, or 0 where there are none.
pub open spec fn max_gene(ls: Seq<Link>) -> int
    decreases ls.len(),
{
    if ls.len() == 0 {
        0
    } else if max_gene(ls.drop_last()) < ls.last().id {
        ls.last().id as int
    } else {
        max_gene(ls.drop_last())
    }
}

/// The largest innovation number is at least every link's number and, where
/// there are links, is the number of one of them, whatever their order.
pub proof fn lemma_max_gene_is_largest(ls: Seq<Link>)
    ensures
        forall|k: int| 0 <= k < ls.len() ==> (#[trigger] ls[k]).id <= max_gene(ls),
        ls.len() > 0 ==> exists|k: int| 0 <= k < ls.len() && (#[trigger] ls[k]).id == max_gene(ls),
        ls.len() == 0 ==> max_gene(ls) == 0,
    decreases ls.len(),
{
    if ls.len() > 0 {
        let l0 = ls.drop_last();
        lemma_max_gene_is_largest(l0);
        assert forall|k: int| 0 <= k < ls.len() implies (#[trigger] ls[k]).id <= max_gene(ls) by {
            if k < ls.len() - 1 {
                assert(ls[k] == l0[k]);
            }
        }
        if max_gene(l0) < ls.last().id {
            assert(ls[ls.len() - 1].id == max_gene(ls));
        } else if l0.len() > 0 {
            let k = choose|k: int| 0 <= k < l0.len() && (#[trigger] l0[k]).id == max_gene(l0);
            assert(ls[k] == l0[k]);
        } else {
            assert(max_gene(l0) == 0);
            assert(ls[0].id == max_gene(ls));
        }
    }
}

/// The innovation numbers that exactly one of two genomes carries and that
/// lie above (`above`) or not above (`!above`) the cutoff.
pub open spec fn unmatched_genes(a: Set<usize>, b: Set<usize>, cutoff: int, above: bool) -> Set<usize> {
    Set::new(|id: usize| a.contains(id) != b.contains(id) && ((id > cutoff) == above))
}

/// How two genomes differ, counted over their innovation numbers: the
/// basis of their compatibility distance.
pub struct GeneComparison {
    /// Numbers carried by one genome only, above the smaller of the two
    /// genomes' largest numbers.
    pub excess: usize,
    /// Numbers carried by one genome only, not above that cutoff.
    pub disjoint: usize,
    /// The number of distinct numbers of the larger genome, at least 1.
    pub genome_size: usize,
    /// The numbers both genomes carry, each once.
    pub shared: Vec<usize>,
}

/// `a` where `first` holds, else `b`: of two parents, the dominant one
/// where `first` says whether `a` is the fitter.
pub open spec fn first_if(a: Network, b: Network, first: bool) -> Network {
    if first { a } else { b }
}

/// `a` and `b` hold the same id, neurons, links and fitness.
pub open spec fn same_network(a: Network, b: Network) -> bool {
    &&& a.id == b.id
    &&& a.neurons@ == b.neurons@
    &&& a.links@ == b.links@
    &&& a.fitness == b.fitness
}

/// Every link starts and ends at a neuron of the network.
pub open spec fn links_closed(net: Network) -> bool {
    forall|k: int| 0 <= k < net.links@.len() ==> has_neuron(net.neurons@, (#[trigger] net.links@[k]).from) && has_neuron(
        net.neurons@,
        net.links@[k].to,
    )
}

/// The order in which a network's neurons are computed: a depth-first
/// search from each neuron in turn, taken in order of out-degree, each
/// search's neurons in the reverse of the order it found them, and the
/// whole reversed.
pub open spec fn compute_order(net: Network) -> Seq<usize> {
    search_all(net.links@, sort_by_degree(net.links@, neuron_ids(net.neurons@))).1.reverse()
}

/// A link between two distinct neurons added where the links form no
/// cycle leaves them without one: the link is refused wherever it would
/// close a cycle.
pub proof fn lemma_add_link_keeps_acyclic(
    links: Seq<Link>,
    count: usize,
    map: Map<ChangeKey, usize>,
    input: usize,
    output: usize,
    links2: Seq<Link>,
    count2: usize,
    map2: Map<ChangeKey, usize>,
    r: Option<usize>,
)
    requires
        acyclic(links),
        input != output,
        link_added(links, count, map, input, output, links2, count2, map2, r),
    ensures
        acyclic(links2),
{
    let p = first_between(links, input, output, 0);
    lemma_first_between(links, input, output, 0);
    if p < links.len() {
        assert forall|i: int| 0 <= i < links2.len() implies has_edge(links, (#[trigger] links2[i]).from, links2[i].to)
            || (links2[i].from == input && links2[i].to == output) by {
            assert(links2[i].from == links[i].from && links2[i].to == links[i].to);
        }
        assert(has_edge(links, input, output)) by {
            assert(links[p].from == input && links[p].to == output);
        }
        lemma_edge_reaches(links, input, output);
        assert forall|x: usize| !#[trigger] reaches(links2, x, x) by {
            if reaches(links2, x, x) {
                lemma_reach_with_edge(links, links2, input, output, x, x);
                assert(!reaches(links, x, x));
                if x == input {
                    lemma_reaches_trans(links, x, output, x);
                } else if x == output {
                    lemma_reaches_trans(links, x, input, x);
                } else {
                    lemma_reaches_trans(links, x, input, output);
                    lemma_reaches_trans(links, x, output, x);
                }
            }
        }
    } else if !reaches(links, output, input) {
        assert forall|i: int| 0 <= i < links2.len() implies has_edge(links, (#[trigger] links2[i]).from, links2[i].to)
            || (links2[i].from == input && links2[i].to == output) by {
            if i < links.len() {
                assert(links2[i] == links[i]);
            }
        }
        assert forall|x: usize| !#[trigger] reaches(links2, x, x) by {
            if reaches(links2, x, x) {
                lemma_reach_with_edge(links, links2, input, output, x, x);
                assert(!reaches(links, x, x));
                if x == input {
                    assert(reaches(links, output, x));
                } else if x == output {
                    assert(reaches(links, x, input));
                } else {
                    lemma_reaches_trans(links, output, x, input);
                }
            }
        }
    }
}

/// No two links join the same two neurons in the same direction.
pub open spec fn distinct_pairs(links: Seq<Link>) -> bool {
    forall|i: int, j: int|
        0 <= i < j < links.len() ==> !((#[trigger] links[i]).from == (#[trigger] links[j]).from && links[i].to == links[j].to)
}

/// Adding a link never doubles a link: where the two neurons are already
/// linked, that link is enabled instead.
pub proof fn lemma_link_added_keeps_pairs_distinct(
    links: Seq<Link>,
    count: usize,
    map: Map<ChangeKey, usize>,
    input: usize,
    output: usize,
    links2: Seq<Link>,
    count2: usize,
    map2: Map<ChangeKey, usize>,
    r: Option<usize>,
)
    requires
        distinct_pairs(links),
        link_added(links, count, map, input, output, links2, count2, map2, r),
    ensures
        distinct_pairs(links2),
{
    let p = first_between(links, input, output, 0);
    lemma_first_between(links, input, output, 0);
    assert forall|i: int, j: int| 0 <= i < j < links2.len() implies !((#[trigger] links2[i]).from == (#[trigger] links2[j]).from
        && links2[i].to == links2[j].to) by {
        if p < links.len() {
            assert(links2[i].from == links[i].from && links2[i].to == links[i].to);
            assert(links2[j].from == links[j].from && links2[j].to == links[j].to);
        } else if reaches(links, output, input) {
        } else if j < links.len() {
            assert(links2[i] == links[i] && links2[j] == links[j]);
        } else {
            assert(links2[i] == links[i]);
            assert(links2[j].from == input && links2[j].to == output);
        }
    }
}

/// The same link mutation, made first in one network and later in another
/// while the map of mutations still holds what the first made, gives both
/// new links (each the last link of its network) the same innovation number.
pub proof fn lemma_same_mutation_same_number(
    input: usize,
    output: usize,
    links_a: Seq<Link>,
    count_a: usize,
    map_a: Map<ChangeKey, usize>,
    links_a2: Seq<Link>,
    count_a2: usize,
    map_a2: Map<ChangeKey, usize>,
    ra: Option<usize>,
    links_b: Seq<Link>,
    count_b: usize,
    map_b: Map<ChangeKey, usize>,
    links_b2: Seq<Link>,
    count_b2: usize,
    map_b2: Map<ChangeKey, usize>,
    rb: Option<usize>,
)
    requires
        link_added(links_a, count_a, map_a, input, output, links_a2, count_a2, map_a2, ra),
        link_added(links_b, count_b, map_b, input, output, links_b2, count_b2, map_b2, rb),
        ra is Some,
        rb is Some,
        forall|k: ChangeKey| #[trigger] map_a2.contains_key(k) ==> map_b.contains_key(k) && map_b[k] == map_a2[k],
    ensures
        links_a2.last().id == links_b2.last().id,
{
    let key = (Mutation::add_link, input, output);
    let id_a = if map_a.contains_key(key) { map_a[key] } else { count_a };
    let id_b = if map_b.contains_key(key) { map_b[key] } else { count_b };
    assert(map_a2.contains_key(key) && map_a2[key] == id_a);
    assert(map_b.contains_key(key) && map_b[key] == id_a);
    assert(id_b == id_a);
    assert(links_a2.last().id == id_a);
    assert(links_b2.last().id == id_b);
}

/// Splitting a link between the same two neurons, first in one network and
/// later in another while the map of mutations still holds what the first
/// split made, gives both splits the same number, and so both pairs of new
/// links the same innovation numbers; where neither network has a neuron
/// with that number, both new neurons take it as their id.
pub proof fn lemma_same_split_same_number(
    net_a: Network,
    count_a: usize,
    map_a: Map<ChangeKey, usize>,
    i_a: int,
    net_a2: Network,
    count_a2: usize,
    map_a2: Map<ChangeKey, usize>,
    net_b: Network,
    count_b: usize,
    map_b: Map<ChangeKey, usize>,
    i_b: int,
    net_b2: Network,
    count_b2: usize,
    map_b2: Map<ChangeKey, usize>,
)
    requires
        0 <= i_a < net_a.links@.len(),
        0 <= i_b < net_b.links@.len(),
        neuron_split(net_a, count_a, map_a, i_a, net_a2, count_a2, map_a2),
        neuron_split(net_b, count_b, map_b, i_b, net_b2, count_b2, map_b2),
        net_a.links@[i_a].from == net_b.links@[i_b].from,
        net_a.links@[i_a].to == net_b.links@[i_b].to,
        forall|k: ChangeKey| #[trigger] map_a2.contains_key(k) ==> map_b.contains_key(k) && map_b[k] == map_a2[k],
    ensures
        net_a2.links@.last().id == net_b2.links@.last().id,
        net_a2.links@[net_a2.links@.len() - 2].id == net_b2.links@[net_b2.links@.len() - 2].id,
        split_id(net_a, count_a, map_a, i_a) == split_id(net_b, count_b, map_b, i_b),
        !has_neuron(net_a.neurons@, split_id(net_a, count_a, map_a, i_a)) && !has_neuron(
            net_b.neurons@,
            split_id(net_b, count_b, map_b, i_b),
        ) ==> net_a2.links@.last().from == net_b2.links@.last().from,
{
    let la = net_a.links@[i_a];
    let key = (Mutation::add_neuron, la.from, la.to);
    let id_a = if map_a.contains_key(key) { map_a[key] } else { count_a };
    let id_b = if map_b.contains_key(key) { map_b[key] } else { count_b };
    assert(map_a2.contains_key(key) && map_a2[key] == id_a);
    assert(id_b == id_a);
    assert(net_a2.links@[net_a2.links@.len() - 2].id == (id_a + 1) as usize);
    assert(net_b2.links@[net_b2.links@.len() - 2].id == (id_b + 1) as usize);
    assert(net_a2.links@.last().id == (id_a + 2) as usize);
    assert(net_b2.links@.last().id == (id_b + 2) as usize);
}

/// Putting neuron `n` in adds its id to the ids present and keeps the rest.
proof fn lemma_with_neuron_has(ns: Seq<Neuron>, n: Neuron, id: usize)
    ensures
        has_neuron(with_neuron(ns, n), id) == (has_neuron(ns, id) || id == n.id),
{
    let ns2 = with_neuron(ns, n);
    lemma_has_neuron_ids(ns, id);
    lemma_has_neuron_ids(ns2, id);
    lemma_has_neuron_ids(ns, n.id);
    if has_neuron(ns, n.id) {
        let p = neuron_pos(ns, n.id);
        lemma_first_pos(neuron_ids(ns), n.id, 0);
        assert(neuron_ids(ns2) =~= neuron_ids(ns));
    } else {
        assert(neuron_ids(ns2) =~= neuron_ids(ns).push(n.id));
        if neuron_ids(ns2).contains(id) && id != n.id {
            let k = choose|k: int| 0 <= k < neuron_ids(ns2).len() && neuron_ids(ns2)[k] == id;
            assert(neuron_ids(ns)[k] == id);
        }
        if neuron_ids(ns).contains(id) {
            let k = choose|k: int| 0 <= k < neuron_ids(ns).len() && neuron_ids(ns)[k] == id;
            assert(neuron_ids(ns2)[k] == id);
        }
        if id == n.id {
            assert(neuron_ids(ns2)[ns.len() as int] == id);
        }
    }
}

/// A link added between two neurons of a network whose links all join its
/// neurons keeps it so.
pub proof fn lemma_link_added_closed(
    net: Network,
    net2: Network,
    count: usize,
    map: Map<ChangeKey, usize>,
    input: usize,
    output: usize,
    count2: usize,
    map2: Map<ChangeKey, usize>,
    r: Option<usize>,
)
    requires
        links_closed(net),
        net2.neurons == net.neurons,
        has_neuron(net.neurons@, input),
        has_neuron(net.neurons@, output),
        link_added(net.links@, count, map, input, output, net2.links@, count2, map2, r),
    ensures
        links_closed(net2),
{
    let links = net.links@;
    let links2 = net2.links@;
    assert forall|k: int| 0 <= k < links2.len() implies has_neuron(net2.neurons@, (#[trigger] links2[k]).from) && has_neuron(
        net2.neurons@,
        links2[k].to,
    ) by {
        let p = first_between(links, input, output, 0);
        lemma_first_between(links, input, output, 0);
        if p < links.len() {
            assert(links2 == links.update(p, Link { enabled: true, ..links[p] }));
            assert(links2[k].from == links[k].from && links2[k].to == links[k].to);
        } else if reaches(links, output, input) {
            assert(links2 == links);
        } else if k < links.len() {
            assert(links2[k] == links[k]);
        } else {
            assert(links2[k].from == input && links2[k].to == output);
        }
    }
}

/// Putting a new hidden neuron into link `i` keeps every link's ends among
/// the neurons.
proof fn lemma_split_closed(
    net: Network,
    count: usize,
    map: Map<ChangeKey, usize>,
    i: int,
    net2: Network,
    count2: usize,
    map2: Map<ChangeKey, usize>,
)
    requires
        links_closed(net),
        0 <= i < net.links@.len(),
        neuron_split(net, count, map, i, net2, count2, map2),
    ensures
        links_closed(net2),
{
    let l = net.links@[i];
    let key = (Mutation::add_neuron, l.from, l.to);
    let nid = new_neuron_id(net, count, map, i);
    let n = Neuron { id: nid, activation: HALF_BITS, bias: ZERO_BITS, kind: NeuronType::Hidden };
    assert(with_neuron(net.neurons@, n) == net.neurons@.push(n));
    let links = net.links@;
    let links2 = net2.links@;
    assert forall|k: int| 0 <= k < links2.len() implies has_neuron(net2.neurons@, (#[trigger] links2[k]).from) && has_neuron(
        net2.neurons@,
        links2[k].to,
    ) by {
        lemma_with_neuron_has(net.neurons@, n, links2[k].from);
        lemma_with_neuron_has(net.neurons@, n, links2[k].to);
        if k < links.len() {
            assert(links2[k].from == links[k].from && links2[k].to == links[k].to);
        } else if k == links.len() {
            assert(links2[k].from == l.from && links2[k].to == nid);
        } else {
            assert(links2[k].from == nid && links2[k].to == l.to);
        }
    }
}

/// Removing neuron `id` with every link that touches it keeps every
/// remaining link's ends among the remaining neurons.
proof fn lemma_removed_closed(net: Network, net2: Network, id: usize)
    requires
        links_closed(net),
        has_neuron(net.neurons@, id),
        net2.neurons@ == net.neurons@.remove(neuron_pos(net.neurons@, id)),
        net2.links@ == links_avoiding(net.links@, id),
    ensures
        links_closed(net2),
{
    let ns = net.neurons@;
    let p = neuron_pos(ns, id);
    lemma_first_pos(neuron_ids(ns), id, 0);
    let keep = |l: Link| l.from != id && l.to != id;
    assert forall|k: int| 0 <= k < net2.links@.len() implies has_neuron(net2.neurons@, (#[trigger] net2.links@[k]).from)
        && has_neuron(net2.neurons@, net2.links@[k].to) by {
        let lk = net2.links@[k];
        reveal_with_fuel(Seq::<_>::filter, 1);
        net.links@.filter_lemma(keep);
        assert(net.links@.filter(keep).contains(lk));
        net.links@.lemma_filter_contains_rev(keep, lk);
        let q = choose|q: int| 0 <= q < net.links@.len() && net.links@[q] == lk;
        assert(has_neuron(ns, net.links@[q].from) && has_neuron(ns, net.links@[q].to));
        assert(keep(lk));
        lemma_removed_keeps(ns, p, lk.from);
        lemma_removed_keeps(ns, p, lk.to);
    }
}

/// Removing the neuron at position `p` keeps every other id present.
proof fn lemma_removed_keeps(ns: Seq<Neuron>, p: int, x: usize)
    requires
        0 <= p < ns.len(),
        has_neuron(ns, x),
        x != ns[p].id,
    ensures
        has_neuron(ns.remove(p), x),
{
    lemma_has_neuron_ids(ns, x);
    lemma_has_neuron_ids(ns.remove(p), x);
    let k = choose|k: int| 0 <= k < neuron_ids(ns).len() && neuron_ids(ns)[k] == x;
    assert(k != p);
    if k < p {
        assert(neuron_ids(ns.remove(p))[k] == x);
    } else {
        assert(neuron_ids(ns.remove(p))[k - 1] == x);
    }
}

/// Whether a neuron has id `id` is whether `id` is among the neuron ids.
pub proof fn lemma_has_neuron_ids(ns: Seq<Neuron>, id: usize)
    ensures
        has_neuron(ns, id) == neuron_ids(ns).contains(id),
{
    lemma_first_pos(neuron_ids(ns), id, 0);
    if neuron_ids(ns).contains(id) {
        let j = choose|j: int| 0 <= j < neuron_ids(ns).len() && neuron_ids(ns)[j] == id;
        if neuron_pos(ns, id) >= ns.len() {
            assert(neuron_ids(ns)[j] != id);
        }
    }
    if has_neuron(ns, id) {
        assert(neuron_ids(ns)[neuron_pos(ns, id)] == id);
    }
}

/// The order in which a network whose links all join its neurons computes
/// them lists every one of its neurons exactly once, and nothing else.
pub proof fn lemma_compute_order_lists_each_neuron_once(net: Network)
    requires
        links_closed(net),
    ensures
        compute_order(net).no_duplicates(),
        forall|id: usize| (#[trigger] compute_order(net).contains(id)) == has_neuron(net.neurons@, id),
{
    let ns = net.neurons@;
    let links = net.links@;
    let member = |x: usize| has_neuron(ns, x);
    let ids = neuron_ids(ns);
    let roots = sort_by_degree(links, ids);
    lemma_sort_by_degree_contains(links, ids);
    assert forall|k: int| 0 <= k < roots.len() implies member(#[trigger] roots[k]) by {
        assert(roots.contains(roots[k]));
        assert(ids.contains(roots[k]));
        lemma_has_neuron_ids(ns, roots[k]);
    }
    assert forall|i: int| 0 <= i < links.len() implies member(#[trigger] links[i].to) by {
        assert(has_neuron(ns, links[i].to));
    }
    lemma_search_all(links, roots, member);
    let (seen, order) = search_all(links, roots);
    let r = order.reverse();
    assert(r.no_duplicates()) by {
        assert forall|a: int, b: int| 0 <= a < b < r.len() implies r[a] != r[b] by {
            assert(r[a] == order[order.len() - 1 - a]);
            assert(r[b] == order[order.len() - 1 - b]);
        }
    }
    assert forall|id: usize| (#[trigger] r.contains(id)) == has_neuron(ns, id) by {
        lemma_has_neuron_ids(ns, id);
        if r.contains(id) {
            let k = choose|k: int| 0 <= k < r.len() && r[k] == id;
            assert(order[order.len() - 1 - k] == id);
            assert(order.contains(id));
            assert(seen.contains(id));
            let j = choose|j: int| 0 <= j < seen.len() && seen[j] == id;
            assert(member(seen[j]));
        }
        if has_neuron(ns, id) {
            assert(ids.contains(id));
            assert(roots.contains(id));
            let k = choose|k: int| 0 <= k < roots.len() && roots[k] == id;
            assert(seen.contains(roots[k]));
            assert(order.contains(id));
            let j = choose|j: int| 0 <= j < order.len() && order[j] == id;
            assert(r[order.len() - 1 - j] == id);
        }
    }
}

/// Some link starts or ends at neuron `id`.
pub open spec fn is_endpoint(ls: Seq<Link>, id: usize) -> bool {
    exists|k: int| 0 <= k < ls.len() && #[trigger] touches(ls[k], id)
}

/// Link `l` starts or ends at neuron `id`.
pub open spec fn touches(l: Link, id: usize) -> bool {
    l.from == id || l.to == id
}

/// The number of neurons every network has from the start: the inputs,
/// then the outputs.
pub open spec fn io_count() -> int {
    Config::input_count + Config::output_count
}

/// Every neuron an offspring of `a` and `b` may need, an input or output
/// neuron or one that a link of either parent touches, is a neuron of one
/// of them.
pub open spec fn parents_cover(a: Network, b: Network) -> bool {
    forall|id: usize|
        (id < io_count() || is_endpoint(a.links@, id) || is_endpoint(b.links@, id)) ==> has_neuron(a.neurons@, id)
            || has_neuron(b.neurons@, id)
}

/// The neuron with id `id` of the dominant parent `d` if it has one, else
/// that of the recessive parent `r`.
pub open spec fn parent_neuron(d: Network, r: Network, id: usize) -> Neuron {
    if has_neuron(d.neurons@, id) {
        d.neurons@[neuron_pos(d.neurons@, id)]
    } else {
        r.neurons@[neuron_pos(r.neurons@, id)]
    }
}

/// Link `l` takes the gene of `dl` or that of `rl`; where the two agree on
/// being enabled, so does `l`.
pub open spec fn inherited(l: Link, dl: Link, rl: Link) -> bool {
    &&& (l.id == dl.id && l.from == dl.from && l.to == dl.to && l.weight == dl.weight) || (l.id == rl.id && l.from
        == rl.from && l.to == rl.to && l.weight == rl.weight)
    &&& dl.enabled == rl.enabled ==> l.enabled == dl.enabled
}

/// Link `l` of an offspring of the dominant parent `d` and the recessive
/// parent `r` comes from them: from either where both carry its gene, from
/// `d` where only `d` does, and from `r` where only `r` does and the two
/// were equally fit.
pub open spec fn gene_from_parents(l: Link, d: Seq<Link>, r: Seq<Link>, ties: bool) -> bool {
    let pd = link_pos(d, l.id);
    let pr = link_pos(r, l.id);
    if pd < d.len() && pr < r.len() {
        inherited(l, d[pd], r[pr])
    } else if pd < d.len() {
        l == d[pd]
    } else {
        &&& pr < r.len()
        &&& ties
        &&& l == r[pr]
    }
}

/// The link `l` switched on where it was off and off where it was on.
pub open spec fn flipped(l: Link) -> Link {
    Link { enabled: !l.enabled, ..l }
}

/// The links that neither start nor end at neuron `id`, in order.
pub open spec fn links_avoiding(ls: Seq<Link>, id: usize) -> Seq<Link> {
    ls.filter(|l: Link| l.from != id && l.to != id)
}

/// Adds `x` to the distinct values `v` unless it is there.
fn add_used(v: &mut Vec<usize>, x: usize)
    requires
        old(v)@.no_duplicates(),
    ensures
        final(v)@.no_duplicates(),
        forall|y: usize| #[trigger] final(v)@.contains(y) <==> old(v)@.contains(y) || y == x,
{
    if !vec_contains(v, x) {
        let ghost v0 = v@;
        v.push(x);
        proof {
            assert forall|y: usize| #[trigger] v@.contains(y) <==> v0.contains(y) || y == x by {
                if v@.contains(y) && y != x {
                    let k = choose|k: int| 0 <= k < v@.len() && v@[k] == y;
                    assert(v0[k] == y);
                }
                if v0.contains(y) {
                    let k = choose|k: int| 0 <= k < v0.len() && v0[k] == y;
                    assert(v@[k] == y);
                }
                if y == x {
                    assert(v@[v0.len() as int] == y);
                }
            }
        }
    }
}

/// The neurons a link added to `ls` touches are those `ls` touched and its
/// two ends.
proof fn lemma_endpoint_push(ls: Seq<Link>, l: Link)
    ensures
        forall|x: usize| #[trigger] is_endpoint(ls.push(l), x) <==> is_endpoint(ls, x) || x == l.from || x == l.to,
{
    assert forall|x: usize| #[trigger] is_endpoint(ls.push(l), x) <==> is_endpoint(ls, x) || x == l.from || x == l.to by {
        let lp = ls.push(l);
        if is_endpoint(ls, x) {
            let k = choose|k: int| 0 <= k < ls.len() && #[trigger] touches(ls[k], x);
            assert(lp[k] == ls[k]);
            assert(touches(lp[k], x));
        }
        if x == l.from || x == l.to {
            assert(lp[ls.len() as int] == l);
            assert(touches(lp[ls.len() as int], x));
        }
        if is_endpoint(lp, x) {
            let k = choose|k: int| 0 <= k < lp.len() && #[trigger] touches(lp[k], x);
            if k < ls.len() {
                assert(lp[k] == ls[k]);
                assert(touches(ls[k], x));
            }
        }
    }
}

/// A neuron that a link inherited from two parents touches is touched by a
/// link of one of the parents.
proof fn lemma_endpoint_from_parents(ls: Seq<Link>, d: Seq<Link>, r: Seq<Link>, ties: bool, x: usize)
    requires
        forall|j: int| 0 <= j < ls.len() ==> gene_from_parents(#[trigger] ls[j], d, r, ties),
        is_endpoint(ls, x),
    ensures
        is_endpoint(d, x) || is_endpoint(r, x),
{
    let k = choose|k: int| 0 <= k < ls.len() && #[trigger] touches(ls[k], x);
    let l = ls[k];
    assert(gene_from_parents(l, d, r, ties));
    lemma_first_pos(link_ids(d), l.id, 0);
    lemma_first_pos(link_ids(r), l.id, 0);
    let pd = link_pos(d, l.id);
    let pr = link_pos(r, l.id);
    if pd < d.len() && (l.from == d[pd].from && l.to == d[pd].to) {
        assert(touches(d[pd], x));
    } else if pr < r.len() {
        assert(touches(r[pr], x));
    }
}

/// Whether `x` occurs in `v`.
fn vec_contains(v: &Vec<usize>, x: usize) -> (r: bool)
    ensures
        r == v@.contains(x),
{
    let mut i: usize = 0;
    while i < v.len()
        invariant
            i <= v@.len(),
            forall|j: int| 0 <= j < i ==> v@[j] != x,
        decreases v@.len() - i,
    {
        if v[i] == x {
            return true;
        }
        i = i + 1;
    }
    false
}

/// A neural network genome: its neurons, each with a distinct id, and the
/// links between them.
#[derive(Debug, Clone)]
pub struct Network {
    pub id: usize,
    pub neurons: Vec<Neuron>,
    pub links: Vec<Link>,
    /// The fitness found for this network, if it was evaluated, as the bit
    /// pattern of a single-precision number.
    pub fitness: Option<u32>,
}

impl Network {
    /// No two neurons share an id.
    pub open spec fn wf(&self) -> bool {
        forall|i: int, j: int|
            0 <= i < self.neurons@.len() && 0 <= j < self.neurons@.len() && i != j
                ==> #[trigger] self.neurons@[i].id != #[trigger] self.neurons@[j].id
    }

    /// Creates an empty network with the given id.
    pub fn new(id: usize) -> (n: Network)
        ensures
            n.id == id,
            n.neurons@.len() == 0,
            n.links@.len() == 0,
            n.fitness is None,
            n.wf(),
    {
        Network { neurons: Vec::new(), links: Vec::new(), fitness: None, id: id }
    }

    /// Whether following one or more links (enabled or not) leads from
    /// neuron `to_id` back to neuron `from_id`: a link from `from_id` to
    /// `to_id` would then close a cycle.
    pub fn cycle(&self, from_id: usize, to_id: usize) -> (r: bool)
        ensures
            r == reaches(self.links@, to_id, from_id),
    {
        let ghost links = self.links@;
        let mut q: Vec<usize> = Vec::new();
        let mut i: usize = 0;
        while i < self.links.len()
            invariant
                links == self.links@,
                i <= links.len(),
                forall|k: int| 0 <= k < q@.len() ==> reaches(links, to_id, #[trigger] q@[k]),
                forall|k: int| 0 <= k < q@.len() ==> is_target(links, #[trigger] q@[k]),
                forall|j: int| 0 <= j < i && links[j].from == to_id ==> q@.contains(#[trigger] links[j].to),
            decreases links.len() - i,
        {
            let link = self.links[i];
            let ghost qb = q@;
            if link.from == to_id {
                proof {
                    assert(has_edge(links, to_id, link.to)) by {
                        assert(links[i as int] == link);
                    }
                    lemma_edge_reaches(links, to_id, link.to);
                }
                q.push(link.to);
                proof {
                    assert(q@[q@.len() - 1] == link.to);
                    assert(links[i as int].to == link.to);
                }
            }
            proof {
                assert forall|j: int| 0 <= j < i + 1 && links[j].from == to_id implies q@.contains(#[trigger] links[j].to) by {
                    if j == i {
                        assert(q@[q@.len() - 1] == links[j].to);
                    } else {
                        assert(qb.contains(links[j].to));
                        let k = choose|k: int| 0 <= k < qb.len() && qb[k] == links[j].to;
                        assert(q@[k] == qb[k]);
                    }
                }
            }
            i = i + 1;
        }
        let mut visited: Vec<usize> = Vec::new();
        while q.len() > 0
            invariant
                links == self.links@,
                forall|k: int| 0 <= k < q@.len() ==> reaches(links, to_id, #[trigger] q@[k]),
                forall|k: int| 0 <= k < q@.len() ==> is_target(links, #[trigger] q@[k]),
                forall|k: int| 0 <= k < visited@.len() ==> reaches(links, to_id, #[trigger] visited@[k]),
                !visited@.contains(from_id),
                forall|j: int| 0 <= j < links.len() && links[j].from == to_id
                    ==> visited@.contains(#[trigger] links[j].to) || q@.contains(links[j].to),
                forall|j: int| 0 <= j < links.len() && visited@.contains(links[j].from)
                    ==> visited@.contains(#[trigger] links[j].to) || q@.contains(links[j].to),
            decreases unseen_targets(links, visited@), q@.len(),
        {
            let ghost q0 = q@;
            let current = q[0];
            q.remove(0);
            proof {
                assert forall|x: usize| q0.contains(x) && x != current implies q@.contains(x) by {
                    let k = choose|k: int| 0 <= k < q0.len() && q0[k] == x;
                    assert(k != 0);
                    assert(q@[k - 1] == x);
                }
                assert(reaches(links, to_id, q0[0]));
            }
            if current == from_id {
                return true;
            }
            if !vec_contains(&visited, current) {
                let ghost q1 = q@;
                let mut j: usize = 0;
                while j < self.links.len()
                    invariant
                        links == self.links@,
                        j <= links.len(),
                        reaches(links, to_id, current),
                        q@.len() >= q1.len(),
                        forall|k: int| 0 <= k < q1.len() ==> #[trigger] q@[k] == q1[k],
                        forall|k: int| 0 <= k < q@.len() ==> reaches(links, to_id, #[trigger] q@[k]),
                        forall|k: int| 0 <= k < q@.len() ==> is_target(links, #[trigger] q@[k]),
                        forall|m: int| 0 <= m < j && links[m].from == current && !visited@.contains(links[m].to)
                            ==> q@.contains(#[trigger] links[m].to),
                    decreases links.len() - j,
                {
                    let link = self.links[j];
                    let ghost qb = q@;
                    if link.from == current && !vec_contains(&visited, link.to) {
                        proof {
                            assert(has_edge(links, current, link.to)) by {
                                assert(links[j as int] == link);
                            }
                            lemma_reaches_extend(links, to_id, current, link.to);
                        }
                        q.push(link.to);
                        proof {
                            assert(q@[q@.len() - 1] == link.to);
                            assert(links[j as int].to == link.to);
                        }
                    }
                    proof {
                        assert forall|m: int| 0 <= m < j + 1 && links[m].from == current && !visited@.contains(links[m].to)
                            implies q@.contains(#[trigger] links[m].to) by {
                            if m == j {
                                assert(q@[q@.len() - 1] == links[m].to);
                            } else {
                                assert(qb.contains(links[m].to));
                                let k = choose|k: int| 0 <= k < qb.len() && qb[k] == links[m].to;
                                assert(q@[k] == qb[k]);
                            }
                        }
                    }
                    j = j + 1;
                }
                let ghost v0 = visited@;
                proof {
                    lemma_unseen_targets_shrink(links, v0, current);
                    assert forall|x: usize| q1.contains(x) implies q@.contains(x) by {
                        let k = choose|k: int| 0 <= k < q1.len() && q1[k] == x;
                        assert(q@[k] == x);
                    }
                }
                visited.push(current);
                proof {
                    assert forall|x: usize| v0.contains(x) implies visited@.contains(x) by {
                        let k = choose|k: int| 0 <= k < v0.len() && v0[k] == x;
                        assert(visited@[k] == x);
                    }
                    assert(visited@.contains(current)) by {
                        assert(visited@[v0.len() as int] == current);
                    }
                    assert forall|x: usize| visited@.contains(x) implies v0.contains(x) || x == current by {
                        let k = choose|k: int| 0 <= k < visited@.len() && visited@[k] == x;
                        if k < v0.len() {
                            assert(v0[k] == x);
                        }
                    }
                }
            }
        }
        proof {
            assert forall|x: usize| reaches(links, to_id, x) implies visited@.contains(x) by {
                lemma_closed_holds_reach(links, to_id, x, |y: usize| visited@.contains(y));
            }
        }
        false
    }

    /// The first link with innovation number `id`, if any.
    pub fn get_link(&self, id: usize) -> (r: Option<&Link>)
        ensures
            r is Some <==> link_pos(self.links@, id) < self.links@.len(),
            r matches Some(l) ==> *l == self.links@[link_pos(self.links@, id)],
    {
        proof {
            lemma_first_pos(link_ids(self.links@), id, 0);
        }
        let mut i: usize = 0;
        while i < self.links.len()
            invariant
                i <= self.links@.len(),
                link_pos(self.links@, id) == first_pos(link_ids(self.links@), id, i as int),
            decreases self.links@.len() - i,
        {
            if self.links[i].id == id {
                return Some(&self.links[i]);
            }
            i = i + 1;
        }
        None
    }

    /// Where the neuron with id `id` stands among the neurons.
    fn neuron_index(&self, id: usize) -> (r: usize)
        ensures
            r == neuron_pos(self.neurons@, id),
    {
        proof {
            lemma_first_pos(neuron_ids(self.neurons@), id, 0);
        }
        let mut i: usize = 0;
        while i < self.neurons.len()
            invariant
                i <= self.neurons@.len(),
                neuron_pos(self.neurons@, id) == first_pos(neuron_ids(self.neurons@), id, i as int),
            decreases self.neurons@.len() - i,
        {
            if self.neurons[i].id == id {
                return i;
            }
            i = i + 1;
        }
        i
    }

    /// The neuron with id `i`.
    pub fn get_neuron(&self, i: usize) -> (n: &Neuron)
        requires
            has_neuron(self.neurons@, i),
        ensures
            *n == self.neurons@[neuron_pos(self.neurons@, i)],
            n.id == i,
    {
        proof {
            lemma_first_pos(neuron_ids(self.neurons@), i, 0);
        }
        let p = self.neuron_index(i);
        &self.neurons[p]
    }

    /// Puts `n` among the neurons, in place of the neuron with its id if
    /// there is one, else after the others.
    pub fn insert_neuron(&mut self, n: Neuron)
        requires
            old(self).wf(),
        ensures
            final(self).wf(),
            final(self).neurons@ == with_neuron(old(self).neurons@, n),
            final(self).links == old(self).links,
            final(self).id == old(self).id,
            final(self).fitness == old(self).fitness,
    {
        proof {
            lemma_first_pos(neuron_ids(self.neurons@), n.id, 0);
        }
        let p = self.neuron_index(n.id);
        if p < self.neurons.len() {
            self.neurons.set(p, n);
        } else {
            proof {
                assert forall|j: int| 0 <= j < old(self).neurons@.len() implies #[trigger] old(self).neurons@[j].id != n.id by {
                    assert(neuron_ids(old(self).neurons@)[j] != n.id);
                }
            }
            self.neurons.push(n);
        }
    }

    /// Links neuron `input_id` to neuron `output_id` as `link_added`
    /// describes, numbering a new link through `innovation_count` and
    /// `change_map`. The answer is the position of the new link, whose
    /// weight is left at 0.0 for the caller to draw.
    pub fn add_link_between(
        &mut self,
        input_id: usize,
        output_id: usize,
        innovation_count: &mut usize,
        change_map: &mut ChangeMap,
    ) -> (r: Option<usize>)
        requires
            old(change_map).values_below(*old(innovation_count)),
            *old(innovation_count) < usize::MAX,
        ensures
            link_added(
                old(self).links@,
                *old(innovation_count),
                old(change_map)@,
                input_id,
                output_id,
                final(self).links@,
                *final(innovation_count),
                final(change_map)@,
                r,
            ),
            final(change_map).values_below(*final(innovation_count)),
            final(self).neurons == old(self).neurons,
            final(self).id == old(self).id,
            final(self).fitness == old(self).fitness,
    {
        let p = self.first_link_between(input_id, output_id);
        if p < self.links.len() {
            let mut link = self.links[p];
            link.enabled = true;
            self.links.set(p, link);
            return None;
        }
        if self.cycle(input_id, output_id) {
            return None;
        }
        let key: ChangeKey = (Mutation::add_link, input_id, output_id);
        let new_link_id: usize;
        match change_map.get(&key) {
            Some(v) => {
                new_link_id = v;
            },
            None => {
                new_link_id = *innovation_count;
                change_map.insert(key, *innovation_count);
                *innovation_count = *innovation_count + 1;
            },
        }
        let link = Link { from: input_id, to: output_id, id: new_link_id, weight: ZERO_BITS, enabled: true };
        let at = self.links.len();
        self.links.push(link);
        Some(at)
    }

    /// Adds a link between two neurons drawn at random: its source among
    /// the input and hidden neurons, its target among the output and hidden
    /// neurons, as `add_link_between` does it. Where either kind is missing,
    /// nothing changes.
    pub fn add_link(&mut self, innovation_count: &mut usize, change_map: &mut ChangeMap) -> (r: Option<usize>)
        requires
            old(change_map).values_below(*old(innovation_count)),
            *old(innovation_count) < usize::MAX,
        ensures
            final(change_map).values_below(*final(innovation_count)),
            final(self).neurons == old(self).neurons,
            final(self).id == old(self).id,
            final(self).fitness == old(self).fitness,
            !has_kind(old(self).neurons@, NeuronType::Input, NeuronType::Hidden)
                || !has_kind(old(self).neurons@, NeuronType::Output, NeuronType::Hidden) ==> {
                &&& final(self).links == old(self).links
                &&& *final(innovation_count) == *old(innovation_count)
                &&& final(change_map)@ == old(change_map)@
                &&& r is None
            },
            has_kind(old(self).neurons@, NeuronType::Input, NeuronType::Hidden)
                && has_kind(old(self).neurons@, NeuronType::Output, NeuronType::Hidden) ==> exists|input: usize, output: usize|
                #[trigger] id_of_kind(old(self).neurons@, input, NeuronType::Input, NeuronType::Hidden)
                    && #[trigger] id_of_kind(old(self).neurons@, output, NeuronType::Output, NeuronType::Hidden)
                    && link_added(
                    old(self).links@,
                    *old(innovation_count),
                    old(change_map)@,
                    input,
                    output,
                    final(self).links@,
                    *final(innovation_count),
                    final(change_map)@,
                    r,
                ),
            links_closed(*old(self)) ==> links_closed(*final(self)),
    {
        let possible_inputs = self.ids_of_kind(NeuronType::Input, NeuronType::Hidden);
        let input_id = match choose_item(&possible_inputs) {
            Some(v) => v,
            None => {
                return None;
            },
        };
        let possible_outputs = self.ids_of_kind(NeuronType::Output, NeuronType::Hidden);
        let output_id = match choose_item(&possible_outputs) {
            Some(v) => v,
            None => {
                return None;
            },
        };
        let r = self.add_link_between(input_id, output_id, innovation_count, change_map);
        proof {
            if links_closed(*old(self)) {
                let ns = old(self).neurons@;
                assert(id_of_kind(ns, input_id, NeuronType::Input, NeuronType::Hidden));
                assert(id_of_kind(ns, output_id, NeuronType::Output, NeuronType::Hidden));
                let ji = choose|j: int| 0 <= j < ns.len() && #[trigger] ns[j].id == input_id
                    && (ns[j].kind == NeuronType::Input || ns[j].kind == NeuronType::Hidden);
                let jo = choose|j: int| 0 <= j < ns.len() && #[trigger] ns[j].id == output_id
                    && (ns[j].kind == NeuronType::Output || ns[j].kind == NeuronType::Hidden);
                assert(neuron_ids(ns)[ji] == input_id);
                assert(neuron_ids(ns)[jo] == output_id);
                lemma_has_neuron_ids(ns, input_id);
                lemma_has_neuron_ids(ns, output_id);
                lemma_link_added_closed(
                    *old(self),
                    *self,
                    *old(innovation_count),
                    old(change_map)@,
                    input_id,
                    output_id,
                    *innovation_count,
                    change_map@,
                    r,
                );
            }
        }
        r
    }

    /// The ids of the neurons of kind `a` or `b`, in order.
    fn ids_of_kind(&self, a: NeuronType, b: NeuronType) -> (v: Vec<usize>)
        ensures
            forall|id: usize| v@.contains(id) <==> id_of_kind(self.neurons@, id, a, b),
            v@.len() == 0 <==> !has_kind(self.neurons@, a, b),
    {
        let mut v: Vec<usize> = Vec::new();
        let mut i: usize = 0;
        while i < self.neurons.len()
            invariant
                i <= self.neurons@.len(),
                forall|id: usize| v@.contains(id) <==> exists|j: int| 0 <= j < i && #[trigger] self.neurons@[j].id == id
                    && (self.neurons@[j].kind == a || self.neurons@[j].kind == b),
                v@.len() == 0 <==> forall|j: int| 0 <= j < i ==> !(#[trigger] self.neurons@[j].kind == a || self.neurons@[j].kind == b),
            decreases self.neurons@.len() - i,
        {
            let n = self.neurons[i];
            let ghost v0 = v@;
            assert(n == self.neurons@[i as int]);
            if n.kind == a || n.kind == b {
                v.push(n.id);
                proof {
                    assert forall|id: usize| v@.contains(id) <==> v0.contains(id) || id == n.id by {
                        if v@.contains(id) {
                            let k = choose|k: int| 0 <= k < v@.len() && v@[k] == id;
                            if k < v0.len() {
                                assert(v0[k] == id);
                            }
                        }
                        if v0.contains(id) {
                            let k = choose|k: int| 0 <= k < v0.len() && v0[k] == id;
                            assert(v@[k] == id);
                        }
                        if id == n.id {
                            assert(v@[v0.len() as int] == id);
                        }
                    }
                }
            }
            proof {
                assert forall|id: usize| v@.contains(id) <==> exists|j: int| 0 <= j < i + 1 && #[trigger] self.neurons@[j].id == id
                    && (self.neurons@[j].kind == a || self.neurons@[j].kind == b) by {
                    if v@.contains(id) && !v0.contains(id) {
                        assert(self.neurons@[i as int].id == id);
                    }
                    if exists|j: int| 0 <= j < i + 1 && #[trigger] self.neurons@[j].id == id
                        && (self.neurons@[j].kind == a || self.neurons@[j].kind == b) {
                        let j = choose|j: int| 0 <= j < i + 1 && #[trigger] self.neurons@[j].id == id
                            && (self.neurons@[j].kind == a || self.neurons@[j].kind == b);
                        if j < i {
                            assert(v0.contains(id));
                            let k = choose|k: int| 0 <= k < v0.len() && v0[k] == id;
                            assert(v@[k] == id);
                        } else {
                            assert(v@[v0.len() as int] == id);
                        }
                    }
                }
            }
            i = i + 1;
        }
        v
    }

    /// The position of the first link from neuron `a` to neuron `b`, or the
    /// number of links.
    fn first_link_between(&self, a: usize, b: usize) -> (r: usize)
        ensures
            r == first_between(self.links@, a, b, 0),
            r <= self.links@.len(),
    {
        proof {
            lemma_first_between(self.links@, a, b, 0);
        }
        let mut i: usize = 0;
        while i < self.links.len()
            invariant
                i <= self.links@.len(),
                first_between(self.links@, a, b, 0) == first_between(self.links@, a, b, i as int),
            decreases self.links@.len() - i,
        {
            if self.links[i].from == a && self.links[i].to == b {
                return i;
            }
            i = i + 1;
        }
        i
    }

    /// Removes a link drawn at random, if there is one.
    pub fn remove_link(&mut self)
        ensures
            final(self).neurons == old(self).neurons,
            final(self).id == old(self).id,
            final(self).fitness == old(self).fitness,
            old(self).links@.len() == 0 ==> final(self).links@ == old(self).links@,
            old(self).links@.len() > 0 ==> exists|i: int| 0 <= i < old(self).links@.len()
                && final(self).links@ == #[trigger] old(self).links@.remove(i),
            links_closed(*old(self)) ==> links_closed(*final(self)),
    {
        if self.links.len() == 0 {
            return;
        }
        let i = random_below(self.links.len());
        self.links.remove(i);
        proof {
            assert forall|k: int| 0 <= k < self.links@.len() implies #[trigger] self.links@[k] == old(self).links@[if k < i { k } else { k + 1 }] by {}
        }
    }

    /// Switches a link drawn at random on or off, if there is one.
    pub fn toggle_link(&mut self)
        ensures
            final(self).neurons == old(self).neurons,
            final(self).id == old(self).id,
            final(self).fitness == old(self).fitness,
            old(self).links@.len() == 0 ==> final(self).links@ == old(self).links@,
            old(self).links@.len() > 0 ==> exists|i: int| 0 <= i < old(self).links@.len()
                && final(self).links@ == old(self).links@.update(i, flipped(#[trigger] old(self).links@[i])),
            links_closed(*old(self)) ==> links_closed(*final(self)),
    {
        if self.links.len() == 0 {
            return;
        }
        let i = random_below(self.links.len());
        let mut link = self.links[i];
        link.enabled = !link.enabled;
        self.links.set(i, link);
    }

    /// Puts a new hidden neuron into an enabled link drawn at random, as
    /// `neuron_split` describes: the link is always split, and the new
    /// neuron always takes an id no neuron has. With no enabled link,
    /// nothing changes.
    pub fn add_hidden_neuron(&mut self, innovation_count: &mut usize, change_map: &mut ChangeMap)
        requires
            old(self).wf(),
            old(change_map).values_below(*old(innovation_count)),
            *old(innovation_count) <= usize::MAX - 3,
            forall|k: int| 0 <= k < old(self).neurons@.len() ==> (#[trigger] old(self).neurons@[k]).id < usize::MAX,
        ensures
            final(self).wf(),
            final(change_map).values_below(*final(innovation_count)),
            (forall|i: int| 0 <= i < old(self).links@.len() ==> !(#[trigger] old(self).links@[i]).enabled) ==> {
                &&& *final(self) == *old(self)
                &&& *final(innovation_count) == *old(innovation_count)
                &&& final(change_map)@ == old(change_map)@
            },
            (exists|i: int| 0 <= i < old(self).links@.len() && (#[trigger] old(self).links@[i]).enabled) ==> exists|i: int|
                0 <= i < old(self).links@.len() && (#[trigger] old(self).links@[i]).enabled && neuron_split(
                    *old(self),
                    *old(innovation_count),
                    old(change_map)@,
                    i,
                    *final(self),
                    *final(innovation_count),
                    final(change_map)@,
                ),
            links_closed(*old(self)) ==> links_closed(*final(self)),
    {
        let mut possible_links: Vec<usize> = Vec::new();
        let mut k: usize = 0;
        while k < self.links.len()
            invariant
                k <= self.links@.len(),
                forall|j: int| 0 <= j < possible_links@.len() ==> #[trigger] possible_links@[j] < self.links@.len()
                    && self.links@[possible_links@[j] as int].enabled,
                possible_links@.len() == 0 ==> forall|j: int| 0 <= j < k ==> !(#[trigger] self.links@[j]).enabled,
            decreases self.links@.len() - k,
        {
            if self.links[k].enabled {
                possible_links.push(k);
            }
            k = k + 1;
        }
        let i = match choose_item(&possible_links) {
            Some(v) => v,
            None => {
                return;
            },
        };
        proof {
            let j = choose|j: int| 0 <= j < possible_links@.len() && possible_links@[j] == i;
            assert(possible_links@[j] < self.links@.len());
        }
        let mut old_link = self.links[i];
        let key: ChangeKey = (Mutation::add_neuron, old_link.from, old_link.to);
        let remembered = change_map.get(&key);
        let base: usize = match remembered {
            Some(v) => v,
            None => *innovation_count,
        };
        proof {
            assert(base == split_id(*old(self), *old(innovation_count), old(change_map)@, i as int));
            lemma_first_pos(neuron_ids(self.neurons@), base, 0);
            lemma_max_neuron_id(self.neurons@);
        }
        let nid: usize = if self.neuron_index(base) < self.neurons.len() {
            let m = self.max_id();
            proof {
                assert(self.neurons@.len() > 0);
                assert(self.neurons@[0].id <= m);
                assert(m < usize::MAX) by {
                    lemma_max_id_at(self.neurons@);
                    let k = max_id_at(self.neurons@);
                    assert(self.neurons@[k].id < usize::MAX);
                }
            }
            m + 1
        } else {
            base
        };
        proof {
            assert(nid == crate::network::new_neuron_id(*old(self), *old(innovation_count), old(change_map)@, i as int));
            lemma_has_neuron_ids(self.neurons@, nid);
            if neuron_ids(self.neurons@).contains(nid) {
                let k = choose|k: int| 0 <= k < neuron_ids(self.neurons@).len() && neuron_ids(self.neurons@)[k] == nid;
                assert(self.neurons@[k].id == nid);
            }
            assert(!has_neuron(self.neurons@, nid));
        }
        old_link.enabled = false;
        self.links.set(i, old_link);
        match remembered {
            Some(_) => {},
            None => {
                change_map.insert(key, *innovation_count);
                *innovation_count = *innovation_count + 3;
            },
        }
        let ghost ns0 = self.neurons@;
        proof {
            lemma_has_neuron_ids(ns0, nid);
        }
        self.neurons.push(Neuron { id: nid, activation: HALF_BITS, bias: ZERO_BITS, kind: NeuronType::Hidden });
        proof {
            assert forall|x: int, y: int| 0 <= x < self.neurons@.len() && 0 <= y < self.neurons@.len() && x != y
                implies #[trigger] self.neurons@[x].id != #[trigger] self.neurons@[y].id by {
                if x == ns0.len() {
                    assert(neuron_ids(ns0)[y] == self.neurons@[y].id);
                } else if y == ns0.len() {
                    assert(neuron_ids(ns0)[x] == self.neurons@[x].id);
                } else {
                    assert(self.neurons@[x] == ns0[x] && self.neurons@[y] == ns0[y]);
                }
            }
        }
        let from_id = old_link.from;
        let to_id = old_link.to;
        let old_weight = old_link.weight;
        self.links.push(Link { from: from_id, to: nid, weight: ONE_BITS, id: base + 1, enabled: true });
        self.links.push(Link { from: nid, to: to_id, weight: old_weight, id: base + 2, enabled: true });
        proof {
            assert(neuron_split(*old(self), *old(innovation_count), old(change_map)@, i as int, *self, *innovation_count, change_map@));
            if links_closed(*old(self)) {
                lemma_split_closed(*old(self), *old(innovation_count), old(change_map)@, i as int, *self, *innovation_count, change_map@);
            }
        }
    }

    /// The largest neuron id, or 0 where there is none.
    fn max_id(&self) -> (m: usize)
        ensures
            m == max_neuron_id(self.neurons@),
    {
        let mut m: usize = 0;
        let mut i: usize = 0;
        while i < self.neurons.len()
            invariant
                i <= self.neurons@.len(),
                m == max_neuron_id(self.neurons@.take(i as int)),
            decreases self.neurons@.len() - i,
        {
            proof {
                assert(self.neurons@.take(i + 1).drop_last() == self.neurons@.take(i as int));
            }
            if m < self.neurons[i].id {
                m = self.neurons[i].id;
            }
            i = i + 1;
        }
        proof {
            assert(self.neurons@.take(self.neurons@.len() as int) == self.neurons@);
        }
        m
    }

    /// Removes a hidden neuron drawn at random, with every link that starts
    /// or ends at it; with no hidden neuron, nothing changes.
    pub fn remove_hidden_neuron(&mut self)
        requires
            old(self).wf(),
        ensures
            final(self).wf(),
            final(self).id == old(self).id,
            final(self).fitness == old(self).fitness,
            !has_kind(old(self).neurons@, NeuronType::Hidden, NeuronType::Hidden) ==> *final(self) == *old(self),
            has_kind(old(self).neurons@, NeuronType::Hidden, NeuronType::Hidden) ==> exists|id: usize|
                #[trigger] id_of_kind(old(self).neurons@, id, NeuronType::Hidden, NeuronType::Hidden)
                    && final(self).neurons@ == old(self).neurons@.remove(neuron_pos(old(self).neurons@, id))
                    && final(self).links@ == links_avoiding(old(self).links@, id),
            links_closed(*old(self)) ==> links_closed(*final(self)),
    {
        let possible = self.ids_of_kind(NeuronType::Hidden, NeuronType::Hidden);
        let id = match choose_item(&possible) {
            Some(v) => v,
            None => {
                return;
            },
        };
        let p = self.neuron_index(id);
        proof {
            lemma_first_pos(neuron_ids(self.neurons@), id, 0);
            let j = choose|j: int| 0 <= j < self.neurons@.len() && #[trigger] self.neurons@[j].id == id
                && (self.neurons@[j].kind == NeuronType::Hidden || self.neurons@[j].kind == NeuronType::Hidden);
            if p >= self.neurons@.len() {
                assert(neuron_ids(self.neurons@)[j] == id);
            }
        }
        self.neurons.remove(p);
        let mut kept: Vec<Link> = Vec::new();
        let mut i: usize = 0;
        while i < self.links.len()
            invariant
                i <= self.links@.len(),
                kept@ == links_avoiding(self.links@.take(i as int), id),
            decreases self.links@.len() - i,
        {
            let link = self.links[i];
            proof {
                reveal_with_fuel(Seq::<_>::filter, 1);
                assert(self.links@.take(i + 1).drop_last() == self.links@.take(i as int));
            }
            if link.from != id && link.to != id {
                kept.push(link);
            }
            i = i + 1;
        }
        proof {
            assert(self.links@.take(self.links@.len() as int) == self.links@);
        }
        self.links = kept;
        proof {
            if links_closed(*old(self)) {
                lemma_removed_closed(*old(self), *self, id);
            }
        }
    }

    /// The ids of the neurons of kind `k`, in order.
    fn ids_with_kind(&self, k: NeuronType) -> (v: Vec<usize>)
        ensures
            v@ == ids_of(self.neurons@, k),
            v@.len() <= self.neurons@.len(),
    {
        let mut v: Vec<usize> = Vec::new();
        let mut i: usize = 0;
        while i < self.neurons.len()
            invariant
                i <= self.neurons@.len(),
                v@ == ids_of(self.neurons@.take(i as int), k),
                v@.len() <= i,
            decreases self.neurons@.len() - i,
        {
            let n = self.neurons[i];
            proof {
                reveal_with_fuel(Seq::<_>::filter, 1);
                assert(self.neurons@.take(i + 1).drop_last() == self.neurons@.take(i as int));
            }
            if n.kind == k {
                v.push(n.id);
            }
            i = i + 1;
        }
        proof {
            assert(self.neurons@.take(self.neurons@.len() as int) == self.neurons@);
        }
        v
    }

    /// Links every input neuron to every output neuron, numbering the links
    /// from the number of neurons on.
    pub fn set_up_intial_links(&mut self)
        requires
            old(self).neurons@.len() + ids_of(old(self).neurons@, NeuronType::Input).len() * ids_of(
                old(self).neurons@,
                NeuronType::Output,
            ).len() <= usize::MAX,
        ensures
            final(self).links@ == old(self).links@ + link_grid(
                ids_of(old(self).neurons@, NeuronType::Input),
                ids_of(old(self).neurons@, NeuronType::Output),
                old(self).neurons@.len() as int,
            ),
            final(self).neurons == old(self).neurons,
            final(self).id == old(self).id,
            final(self).fitness == old(self).fitness,
    {
        let mut innovation_count = self.neurons.len();
        let ins = self.ids_with_kind(NeuronType::Input);
        let outs = self.ids_with_kind(NeuronType::Output);
        let ghost n = self.neurons@.len() as int;
        let ghost base = self.links@;
        let mut a: usize = 0;
        while a < ins.len()
            invariant
                a <= ins@.len(),
                self.neurons == old(self).neurons,
                self.id == old(self).id,
                self.fitness == old(self).fitness,
                base == old(self).links@,
                n == old(self).neurons@.len(),
                ins@ == ids_of(old(self).neurons@, NeuronType::Input),
                outs@ == ids_of(old(self).neurons@, NeuronType::Output),
                n + ins@.len() * outs@.len() <= usize::MAX,
                innovation_count == n + a * outs@.len(),
                self.links@ == base + link_grid(ins@.take(a as int), outs@, n),
            decreases ins@.len() - a,
        {
            assert(a * outs@.len() + outs@.len() <= ins@.len() * outs@.len()) by (nonlinear_arith)
                requires a < ins@.len();
            let ghost before = self.links@;
            let mut b: usize = 0;
            while b < outs.len()
                invariant
                    a < ins@.len(),
                    b <= outs@.len(),
                    self.neurons == old(self).neurons,
                    self.id == old(self).id,
                    self.fitness == old(self).fitness,
                    n + ins@.len() * outs@.len() <= usize::MAX,
                    a * outs@.len() + outs@.len() <= ins@.len() * outs@.len(),
                    innovation_count == n + a * outs@.len() + b,
                    self.links@ == before + link_row(ins@[a as int], outs@, n + a * outs@.len()).take(b as int),
                decreases outs@.len() - b,
            {
                let link = Link { from: ins[a], to: outs[b], id: innovation_count, weight: ZERO_BITS, enabled: true };
                innovation_count = innovation_count + 1;
                self.links.push(link);
                proof {
                    let row = link_row(ins@[a as int], outs@, n + a * outs@.len());
                    assert(row.take(b + 1) == row.take(b as int).push(row[b as int]));
                }
                b = b + 1;
            }
            proof {
                let row = link_row(ins@[a as int], outs@, n + a * outs@.len());
                assert(row.take(outs@.len() as int) == row);
                assert(ins@.take(a + 1).drop_last() == ins@.take(a as int));
                assert(ins@.take(a + 1).last() == ins@[a as int]);
                assert(base + link_grid(ins@.take(a + 1), outs@, n) == base + link_grid(ins@.take(a as int), outs@, n) + row);
                assert((a + 1) * outs@.len() == a * outs@.len() + outs@.len()) by (nonlinear_arith);
            }
            a = a + 1;
        }
        proof {
            assert(ins@.take(ins@.len() as int) == ins@);
        }
    }

    /// The distinct innovation numbers of the links.
    fn distinct_gene_ids(&self) -> (v: Vec<usize>)
        ensures
            v@.no_duplicates(),
            v@.to_set() == gene_ids(self.links@),
            v@.len() <= self.links@.len(),
    {
        let mut v: Vec<usize> = Vec::new();
        let mut i: usize = 0;
        while i < self.links.len()
            invariant
                i <= self.links@.len(),
                v@.no_duplicates(),
                v@.len() <= i,
                v@.to_set() == link_ids(self.links@.take(i as int)).to_set(),
            decreases self.links@.len() - i,
        {
            let id = self.links[i].id;
            proof {
                assert(link_ids(self.links@.take(i + 1)) == link_ids(self.links@.take(i as int)).push(id));
                link_ids(self.links@.take(i as int)).lemma_push_to_set_commute(id);
                assert(v@.to_set().contains(id) == v@.contains(id));
            }
            if !vec_contains(&v, id) {
                proof {
                    v@.lemma_push_to_set_commute(id);
                }
                v.push(id);
            } else {
                proof {
                    assert(link_ids(self.links@.take(i as int)).to_set().insert(id) == link_ids(self.links@.take(i as int)).to_set());
                }
            }
            i = i + 1;
        }
        proof {
            assert(self.links@.take(self.links@.len() as int) == self.links@);
        }
        v
    }

    /// The largest innovation number among the links, or 0.
    fn max_gene_id(&self) -> (m: usize)
        ensures
            m == max_gene(self.links@),
    {
        let mut m: usize = 0;
        let mut i: usize = 0;
        while i < self.links.len()
            invariant
                i <= self.links@.len(),
                m == max_gene(self.links@.take(i as int)),
            decreases self.links@.len() - i,
        {
            proof {
                assert(self.links@.take(i + 1).drop_last() == self.links@.take(i as int));
            }
            if m < self.links[i].id {
                m = self.links[i].id;
            }
            i = i + 1;
        }
        proof {
            assert(self.links@.take(self.links@.len() as int) == self.links@);
        }
        m
    }

    /// Compares the innovation numbers of this genome and `other`: how
    /// many are excess, how many disjoint, how large the larger genome is,
    /// and which numbers the two share.
    pub fn compare_genes(&self, other: &Network) -> (c: GeneComparison)
        requires
            self.links@.len() + other.links@.len() <= usize::MAX,
        ensures
            c.genome_size == ({
                let a = gene_ids(self.links@).len();
                let b = gene_ids(other.links@).len();
                if a <= b && b >= 1 { b } else if b <= a && a >= 1 { a } else { 1 }
            }),
            c.excess == unmatched_genes(
                gene_ids(self.links@),
                gene_ids(other.links@),
                if max_gene(self.links@) <= max_gene(other.links@) { max_gene(self.links@) } else { max_gene(other.links@) },
                true,
            ).len(),
            c.disjoint == unmatched_genes(
                gene_ids(self.links@),
                gene_ids(other.links@),
                if max_gene(self.links@) <= max_gene(other.links@) { max_gene(self.links@) } else { max_gene(other.links@) },
                false,
            ).len(),
            c.shared@.no_duplicates(),
            c.shared@.to_set() == gene_ids(self.links@).intersect(gene_ids(other.links@)),
    {
        let sd = self.distinct_gene_ids();
        let od = other.distinct_gene_ids();
        let ghost sa = gene_ids(self.links@);
        let ghost sb = gene_ids(other.links@);
        let max_self = self.max_gene_id();
        let max_other = other.max_gene_id();
        let cutoff = if max_self <= max_other { max_self } else { max_other };
        let mut excess: usize = 0;
        let mut disjoint: usize = 0;
        let mut shared: Vec<usize> = Vec::new();
        let ghost mut ex_set: Set<usize> = Set::empty();
        let ghost mut dj_set: Set<usize> = Set::empty();
        proof {
            sd@.unique_seq_to_set();
            od@.unique_seq_to_set();
        }
        let mut i: usize = 0;
        while i < sd.len()
            invariant
                i <= sd@.len(),
                sd@.no_duplicates(),
                sd@.to_set() == sa,
                od@.to_set() == sb,
                ex_set.finite(),
                dj_set.finite(),
                excess == ex_set.len(),
                disjoint == dj_set.len(),
                excess + disjoint <= i,
                ex_set == Set::new(|id: usize| sd@.take(i as int).contains(id) && !sb.contains(id) && id > cutoff),
                dj_set == Set::new(|id: usize| sd@.take(i as int).contains(id) && !sb.contains(id) && id <= cutoff),
                shared@.no_duplicates(),
                shared@.to_set() == Set::new(|id: usize| sd@.take(i as int).contains(id) && sb.contains(id)),
            decreases sd@.len() - i,
        {
            let id = sd[i];
            proof {
                assert(sd@.take(i + 1) == sd@.take(i as int).push(id));
                assert(!sd@.take(i as int).contains(id)) by {
                    if sd@.take(i as int).contains(id) {
                        let k = choose|k: int| 0 <= k < i && sd@.take(i as int)[k] == id;
                        assert(sd@[k] == sd@[i as int]);
                    }
                }
                assert(sd@.take(i + 1).contains(id)) by {
                    assert(sd@.take(i + 1)[i as int] == id);
                }
                let t0 = sd@.take(i as int);
                let t1 = sd@.take(i + 1);
                assert forall|x: usize| #[trigger] t1.contains(x) <==> t0.contains(x) || x == id by {
                    if t1.contains(x) && x != id {
                        let k = choose|k: int| 0 <= k < t1.len() && t1[k] == x;
                        assert(t0[k] == x);
                    }
                    if t0.contains(x) {
                        let k = choose|k: int| 0 <= k < t0.len() && t0[k] == x;
                        assert(t1[k] == x);
                    }
                }
                assert(sb.contains(id) == od@.contains(id));
            }
            if vec_contains(&od, id) {
                proof {
                    shared@.lemma_push_to_set_commute(id);
                    assert(!shared@.contains(id)) by {
                        assert(!shared@.to_set().contains(id));
                    }
                    assert forall|a: int, b: int| 0 <= a < b < shared@.len() + 1 implies shared@.push(id)[a] != shared@.push(id)[b] by {
                        if b == shared@.len() {
                            assert(shared@.contains(shared@[a]));
                        }
                    }
                }
                shared.push(id);
            } else if id <= cutoff {
                proof {
                    assert(!dj_set.contains(id));
                    dj_set = dj_set.insert(id);
                }
                disjoint = disjoint + 1;
            } else {
                proof {
                    assert(!ex_set.contains(id));
                    ex_set = ex_set.insert(id);
                }
                excess = excess + 1;
            }
            proof {
                assert(ex_set == Set::new(|x: usize| sd@.take(i + 1).contains(x) && !sb.contains(x) && x > cutoff));
                assert(dj_set == Set::new(|x: usize| sd@.take(i + 1).contains(x) && !sb.contains(x) && x <= cutoff));
                assert(shared@.to_set() == Set::new(|x: usize| sd@.take(i + 1).contains(x) && sb.contains(x)));
            }
            i = i + 1;
        }
        proof {
            assert(sd@.take(sd@.len() as int) == sd@);
        }
        let mut j: usize = 0;
        while j < od.len()
            invariant
                j <= od@.len(),
                od@.no_duplicates(),
                sd@.to_set() == sa,
                od@.to_set() == sb,
                ex_set.finite(),
                dj_set.finite(),
                excess == ex_set.len(),
                disjoint == dj_set.len(),
                excess + disjoint <= sd@.len() + j,
                sd@.len() + od@.len() <= usize::MAX,
                ex_set == Set::new(|id: usize| (sa.contains(id) && !sb.contains(id) && id > cutoff)
                    || (od@.take(j as int).contains(id) && !sa.contains(id) && id > cutoff)),
                dj_set == Set::new(|id: usize| (sa.contains(id) && !sb.contains(id) && id <= cutoff)
                    || (od@.take(j as int).contains(id) && !sa.contains(id) && id <= cutoff)),
            decreases od@.len() - j,
        {
            let id = od[j];
            proof {
                assert(!od@.take(j as int).contains(id)) by {
                    if od@.take(j as int).contains(id) {
                        let k = choose|k: int| 0 <= k < j && od@.take(j as int)[k] == id;
                        assert(od@[k] == od@[j as int]);
                    }
                }
                let u0 = od@.take(j as int);
                let u1 = od@.take(j + 1);
                assert forall|x: usize| #[trigger] u1.contains(x) <==> u0.contains(x) || x == id by {
                    if u1.contains(x) && x != id {
                        let k = choose|k: int| 0 <= k < u1.len() && u1[k] == x;
                        assert(u0[k] == x);
                    }
                    if u0.contains(x) {
                        let k = choose|k: int| 0 <= k < u0.len() && u0[k] == x;
                        assert(u1[k] == x);
                    }
                    if x == id {
                        assert(u1[j as int] == x);
                    }
                }
                assert(sa.contains(id) == sd@.contains(id));
                assert(sb.contains(id)) by {
                    assert(od@[j as int] == id);
                }
            }
            if !vec_contains(&sd, id) {
                if id <= cutoff {
                    proof {
                        assert(!dj_set.contains(id));
                        dj_set = dj_set.insert(id);
                    }
                    disjoint = disjoint + 1;
                } else {
                    proof {
                        assert(!ex_set.contains(id));
                        ex_set = ex_set.insert(id);
                    }
                    excess = excess + 1;
                }
            }
            proof {
                assert(ex_set == Set::new(|x: usize| (sa.contains(x) && !sb.contains(x) && x > cutoff)
                    || (od@.take(j + 1).contains(x) && !sa.contains(x) && x > cutoff)));
                assert(dj_set == Set::new(|x: usize| (sa.contains(x) && !sb.contains(x) && x <= cutoff)
                    || (od@.take(j + 1).contains(x) && !sa.contains(x) && x <= cutoff)));
            }
            j = j + 1;
        }
        proof {
            assert(od@.take(od@.len() as int) == od@);
            assert(ex_set == unmatched_genes(sa, sb, cutoff as int, true));
            assert(dj_set == unmatched_genes(sa, sb, cutoff as int, false));
            assert(shared@.to_set() == sa.intersect(sb));
        }
        let a = sd.len();
        let b = od.len();
        let genome_size = if a <= b && b >= 1 {
            b
        } else if b <= a && a >= 1 {
            a
        } else {
            1
        };
        GeneComparison { excess, disjoint, genome_size, shared }
    }

    /// An equal copy of this network.
    pub fn clone_network(&self) -> (n: Network)
        ensures
            same_network(n, *self),
    {
        let mut neurons: Vec<Neuron> = Vec::new();
        let mut i: usize = 0;
        while i < self.neurons.len()
            invariant
                i <= self.neurons@.len(),
                neurons@ == self.neurons@.take(i as int),
            decreases self.neurons@.len() - i,
        {
            neurons.push(self.neurons[i]);
            proof {
                assert(self.neurons@.take(i + 1) == self.neurons@.take(i as int).push(self.neurons@[i as int]));
            }
            i = i + 1;
        }
        let mut links: Vec<Link> = Vec::new();
        let mut j: usize = 0;
        while j < self.links.len()
            invariant
                j <= self.links@.len(),
                links@ == self.links@.take(j as int),
            decreases self.links@.len() - j,
        {
            links.push(self.links[j]);
            proof {
                assert(self.links@.take(j + 1) == self.links@.take(j as int).push(self.links@[j as int]));
            }
            j = j + 1;
        }
        proof {
            assert(self.neurons@.take(self.neurons@.len() as int) == self.neurons@);
            assert(self.links@.take(self.links@.len() as int) == self.links@);
        }
        Network { id: self.id, neurons, links, fitness: self.fitness }
    }

    /// Breeds this network with `other`. A network bred with itself (the
    /// same id) is copied. Otherwise the fitter of the two
    /// (`self_is_fitter` says which) dominates: the offspring, numbered
    /// `net_count`, takes each gene both carry from either parent at random
    /// (a gene one of them disables comes out enabled with chance one in
    /// four), each gene only the dominant parent carries, and, where the
    /// two were equally fit (`fitness_ties`), each gene only the recessive
    /// one carries. Its neurons are the inputs, the outputs and those its
    /// links touch, each taken from the dominant parent if it has it.
    pub fn crossover(&self, other: &Network, net_count: &mut usize, self_is_fitter: bool, fitness_ties: bool) -> (child: Network)
        requires
            self.id != other.id ==> *old(net_count) < usize::MAX && self.wf() && other.wf() && parents_cover(*self, *other),
        ensures
            self.id == other.id ==> same_network(child, *self) && *final(net_count) == *old(net_count),
            links_closed(*self) ==> links_closed(child),
            self.id != other.id ==> ({
                let d = first_if(*self, *other, self_is_fitter);
                let r = first_if(*other, *self, self_is_fitter);
                &&& child.id == *old(net_count)
                &&& *final(net_count) == *old(net_count) + 1
                &&& child.fitness is None
                &&& child.wf()
                &&& link_ids(child.links@).no_duplicates()
                &&& forall|k: int| 0 <= k < child.links@.len() ==> gene_from_parents(#[trigger] child.links@[k], d.links@, r.links@, fitness_ties)
                &&& forall|id: usize| #[trigger] gene_ids(d.links@).contains(id) ==> link_ids(child.links@).contains(id)
                &&& fitness_ties ==> forall|id: usize| #[trigger] gene_ids(r.links@).contains(id) ==> link_ids(child.links@).contains(id)
                &&& forall|k: int| 0 <= k < child.neurons@.len() ==> #[trigger] child.neurons@[k] == parent_neuron(d, r, child.neurons@[k].id)
                &&& forall|id: usize| (#[trigger] has_neuron(child.neurons@, id)) == (id < io_count() || is_endpoint(child.links@, id))
                &&& links_closed(child)
            }),
    {
        if self.id == other.id {
            return self.clone_network();
        }
        let (dominant, recessive) = if self_is_fitter {
            (self, other)
        } else {
            (other, self)
        };
        let mut offspring = Network::new(*net_count);
        *net_count = *net_count + 1;
        let mut used: Vec<usize> = Vec::new();
        let dids = dominant.distinct_gene_ids();
        let rids = recessive.distinct_gene_ids();
        let ghost dl = dominant.links@;
        let ghost rl = recessive.links@;
        let mut a: usize = 0;
        while a < dids.len()
            invariant
                a <= dids@.len(),
                dids@.no_duplicates(),
                dids@.to_set() == gene_ids(dl),
                dl == dominant.links@,
                rl == recessive.links@,
                offspring.neurons@.len() == 0,
                offspring.id == *old(net_count),
                offspring.fitness is None,
                offspring.links@.len() == a,
                forall|k: int| 0 <= k < a ==> #[trigger] offspring.links@[k].id == dids@[k],
                forall|k: int| 0 <= k < offspring.links@.len() ==> gene_from_parents(#[trigger] offspring.links@[k], dl, rl, fitness_ties),
                used@.no_duplicates(),
                forall|x: usize| #[trigger] used@.contains(x) <==> is_endpoint(offspring.links@, x),
            decreases dids@.len() - a,
        {
            let id = dids[a];
            proof {
                assert(dids@.to_set().contains(id));
                let k = choose|k: int| 0 <= k < link_ids(dl).len() && link_ids(dl)[k] == id;
                lemma_first_pos(link_ids(dl), id, 0);
                lemma_first_pos(link_ids(rl), id, 0);
            }
            let d = match dominant.get_link(id) {
                Some(l) => *l,
                None => {
                    proof {
                        assert(false);
                    }
                    Link { id: 0, from: 0, to: 0, weight: ZERO_BITS, enabled: true }
                },
            };
            let new_link = match recessive.get_link(id) {
                Some(r) => {
                    let mut l = if random_below(2) == 0 {
                        d
                    } else {
                        *r
                    };
                    if d.enabled != r.enabled {
                        l.enabled = random_below(4) == 0;
                    }
                    l
                },
                None => d,
            };
            let ghost before = offspring.links@;
            offspring.links.push(new_link);
            proof {
                assert(new_link.id == id);
                assert(gene_from_parents(new_link, dl, rl, fitness_ties));
                lemma_endpoint_push(before, new_link);
            }
            add_used(&mut used, new_link.from);
            add_used(&mut used, new_link.to);
            a = a + 1;
        }
        let ghost after_dominant = offspring.links@;
        proof {
            assert forall|i: int, j: int| 0 <= i < j < link_ids(after_dominant).len() implies link_ids(after_dominant)[i] != link_ids(after_dominant)[j] by {
                assert(after_dominant[i].id == dids@[i]);
                assert(after_dominant[j].id == dids@[j]);
            }
        }
        let mut b: usize = 0;
        while b < rids.len()
            invariant
                b <= rids@.len(),
                dids@.no_duplicates(),
                rids@.no_duplicates(),
                dids@.to_set() == gene_ids(dl),
                rids@.to_set() == gene_ids(rl),
                dl == dominant.links@,
                rl == recessive.links@,
                offspring.neurons@.len() == 0,
                offspring.id == *old(net_count),
                offspring.fitness is None,
                offspring.links@.len() >= dids@.len(),
                forall|k: int| 0 <= k < dids@.len() ==> #[trigger] offspring.links@[k].id == dids@[k],
                forall|k: int| 0 <= k < offspring.links@.len() ==> gene_from_parents(#[trigger] offspring.links@[k], dl, rl, fitness_ties),
                link_ids(offspring.links@).no_duplicates(),
                forall|x: usize| #[trigger] link_ids(offspring.links@).contains(x) ==> dids@.contains(x) || rids@.take(b as int).contains(x),
                fitness_ties ==> forall|x: usize| #[trigger] rids@.take(b as int).contains(x) ==> link_ids(offspring.links@).contains(x),
                used@.no_duplicates(),
                forall|x: usize| #[trigger] used@.contains(x) <==> is_endpoint(offspring.links@, x),
            decreases rids@.len() - b,
        {
            let id = rids[b];
            let ghost t0 = rids@.take(b as int);
            let ghost t1 = rids@.take(b + 1);
            proof {
                assert forall|x: usize| #[trigger] t1.contains(x) <==> t0.contains(x) || x == id by {
                    if t1.contains(x) && x != id {
                        let k = choose|k: int| 0 <= k < t1.len() && t1[k] == x;
                        assert(t0[k] == x);
                    }
                    if t0.contains(x) {
                        let k = choose|k: int| 0 <= k < t0.len() && t0[k] == x;
                        assert(t1[k] == x);
                    }
                    if x == id {
                        assert(t1[b as int] == x);
                    }
                }
                assert(!t0.contains(id)) by {
                    if t0.contains(id) {
                        let k = choose|k: int| 0 <= k < t0.len() && t0[k] == id;
                        assert(rids@[k] == rids@[b as int]);
                    }
                }
                assert(rids@.to_set().contains(id));
                lemma_first_pos(link_ids(dl), id, 0);
                lemma_first_pos(link_ids(rl), id, 0);
            }
            if !vec_contains(&dids, id) && fitness_ties {
                proof {
                    assert(!gene_ids(dl).contains(id));
                    assert(link_pos(dl, id) >= dl.len()) by {
                        if link_pos(dl, id) < dl.len() {
                            assert(link_ids(dl)[link_pos(dl, id)] == id);
                        }
                    }
                    let k = choose|k: int| 0 <= k < link_ids(rl).len() && link_ids(rl)[k] == id;
                }
                let r = match recessive.get_link(id) {
                    Some(l) => *l,
                    None => {
                        proof {
                            assert(false);
                        }
                        Link { id: 0, from: 0, to: 0, weight: ZERO_BITS, enabled: true }
                    },
                };
                let ghost before = offspring.links@;
                offspring.links.push(r);
                proof {
                    assert(gene_from_parents(r, dl, rl, fitness_ties));
                    lemma_endpoint_push(before, r);
                    assert(!link_ids(before).contains(id));
                    assert(link_ids(offspring.links@) == link_ids(before).push(id));
                    assert forall|x: usize| #[trigger] link_ids(offspring.links@).contains(x) <==> link_ids(before).contains(x) || x == id by {
                        if link_ids(offspring.links@).contains(x) && x != id {
                            let k = choose|k: int| 0 <= k < link_ids(offspring.links@).len() && link_ids(offspring.links@)[k] == x;
                            assert(link_ids(before)[k] == x);
                        }
                        if link_ids(before).contains(x) {
                            let k = choose|k: int| 0 <= k < link_ids(before).len() && link_ids(before)[k] == x;
                            assert(link_ids(offspring.links@)[k] == x);
                        }
                        if x == id {
                            assert(link_ids(offspring.links@)[before.len() as int] == x);
                        }
                    }
                }
                add_used(&mut used, r.from);
                add_used(&mut used, r.to);
            } else {
                proof {
                    if dids@.contains(id) {
                        let j = choose|j: int| 0 <= j < dids@.len() && dids@[j] == id;
                        assert(link_ids(offspring.links@)[j] == id);
                    }
                }
            }
            b = b + 1;
        }
        proof {
            assert(rids@.take(rids@.len() as int) == rids@);
        }
        let mut io: usize = 0;
        while io < Config::input_count + Config::output_count
            invariant
                io <= io_count(),
                used@.no_duplicates(),
                forall|x: usize| #[trigger] used@.contains(x) <==> is_endpoint(offspring.links@, x) || x < io,
            decreases io_count() - io,
        {
            add_used(&mut used, io);
            io = io + 1;
        }
        let ghost final_links = offspring.links@;
        let mut k: usize = 0;
        while k < used.len()
            invariant
                k <= used@.len(),
                used@.no_duplicates(),
                forall|x: usize| #[trigger] used@.contains(x) <==> is_endpoint(final_links, x) || x < io_count(),
                forall|j: int| 0 <= j < final_links.len() ==> gene_from_parents(#[trigger] final_links[j], dl, rl, fitness_ties),
                parents_cover(*dominant, *recessive),
                dl == dominant.links@,
                rl == recessive.links@,
                offspring.links@ == final_links,
                offspring.id == *old(net_count),
                offspring.fitness is None,
                offspring.neurons@.len() == k,
                forall|j: int| 0 <= j < k ==> #[trigger] offspring.neurons@[j].id == used@[j],
                forall|j: int| 0 <= j < k ==> #[trigger] offspring.neurons@[j] == parent_neuron(*dominant, *recessive, offspring.neurons@[j].id),
            decreases used@.len() - k,
        {
            let i = used[k];
            proof {
                assert(used@.contains(i));
                if is_endpoint(final_links, i) {
                    lemma_endpoint_from_parents(final_links, dl, rl, fitness_ties, i);
                }
                lemma_first_pos(neuron_ids(dominant.neurons@), i, 0);
                lemma_first_pos(neuron_ids(recessive.neurons@), i, 0);
            }
            let p = dominant.neuron_index(i);
            let neuron = if p < dominant.neurons.len() {
                *dominant.get_neuron(i)
            } else {
                *recessive.get_neuron(i)
            };
            offspring.neurons.push(neuron);
            k = k + 1;
        }
        proof {
            assert(offspring.wf()) by {
                assert forall|x: int, y: int| 0 <= x < offspring.neurons@.len() && 0 <= y < offspring.neurons@.len() && x != y
                    implies #[trigger] offspring.neurons@[x].id != #[trigger] offspring.neurons@[y].id by {
                    assert(offspring.neurons@[x].id == used@[x]);
                    assert(offspring.neurons@[y].id == used@[y]);
                }
            }
            assert forall|id: usize| (#[trigger] has_neuron(offspring.neurons@, id)) == (id < io_count() || is_endpoint(offspring.links@, id)) by {
                lemma_first_pos(neuron_ids(offspring.neurons@), id, 0);
                if has_neuron(offspring.neurons@, id) {
                    let j = neuron_pos(offspring.neurons@, id);
                    assert(neuron_ids(offspring.neurons@)[j] == id);
                    assert(used@[j] == id);
                    assert(used@.contains(id));
                }
                if id < io_count() || is_endpoint(offspring.links@, id) {
                    assert(used@.contains(id));
                    let j = choose|j: int| 0 <= j < used@.len() && used@[j] == id;
                    assert(offspring.neurons@[j].id == id);
                    assert(neuron_ids(offspring.neurons@)[j] == id);
                    if neuron_pos(offspring.neurons@, id) >= offspring.neurons@.len() {
                        assert(neuron_ids(offspring.neurons@)[j] != id);
                    }
                }
            }
            assert forall|id: usize| #[trigger] gene_ids(dl).contains(id) implies link_ids(offspring.links@).contains(id) by {
                assert(dids@.to_set().contains(id));
                let j = choose|j: int| 0 <= j < dids@.len() && dids@[j] == id;
                assert(link_ids(offspring.links@)[j] == id);
            }
            if fitness_ties {
                assert forall|id: usize| #[trigger] gene_ids(rl).contains(id) implies link_ids(offspring.links@).contains(id) by {
                    assert(rids@.to_set().contains(id));
                    assert(rids@.contains(id));
                }
            }
            assert forall|k: int| 0 <= k < offspring.links@.len() implies has_neuron(offspring.neurons@, (#[trigger] offspring.links@[k]).from)
                && has_neuron(offspring.neurons@, offspring.links@[k].to) by {
                let l = offspring.links@[k];
                assert(touches(offspring.links@[k], l.from));
                assert(touches(offspring.links@[k], l.to));
                assert(has_neuron(offspring.neurons@, l.from) == (l.from < io_count() || is_endpoint(offspring.links@, l.from)));
                assert(has_neuron(offspring.neurons@, l.to) == (l.to < io_count() || is_endpoint(offspring.links@, l.to)));
            }
        }
        offspring
    }

    /// The targets of the links that start at `x`, in order.
    fn successors(&self, x: usize) -> (v: Vec<usize>)
        ensures
            v@ == succs(self.links@, x),
    {
        let mut v: Vec<usize> = Vec::new();
        let mut i: usize = 0;
        while i < self.links.len()
            invariant
                i <= self.links@.len(),
                v@ == succs(self.links@.take(i as int), x),
            decreases self.links@.len() - i,
        {
            proof {
                assert(self.links@.take(i + 1).drop_last() == self.links@.take(i as int));
            }
            if self.links[i].from == x {
                v.push(self.links[i].to);
            }
            i = i + 1;
        }
        proof {
            assert(self.links@.take(self.links@.len() as int) == self.links@);
        }
        v
    }

    /// The neuron ids ordered by out-degree, ties kept in the neurons' order.
    fn ids_by_degree(&self) -> (v: Vec<usize>)
        ensures
            v@ == sort_by_degree(self.links@, neuron_ids(self.neurons@)),
    {
        let ghost links = self.links@;
        let mut sorted: Vec<usize> = Vec::new();
        let mut degrees: Vec<usize> = Vec::new();
        let mut i: usize = 0;
        while i < self.neurons.len()
            invariant
                links == self.links@,
                i <= self.neurons@.len(),
                sorted@ == sort_by_degree(links, neuron_ids(self.neurons@).take(i as int)),
                degrees@.len() == sorted@.len(),
                forall|j: int| 0 <= j < sorted@.len() ==> #[trigger] degrees@[j] == out_degree(links, sorted@[j]),
            decreases self.neurons@.len() - i,
        {
            let x = self.neurons[i].id;
            let dx = self.successors(x).len();
            proof {
                assert(neuron_ids(self.neurons@).take(i + 1).drop_last() == neuron_ids(self.neurons@).take(i as int));
                assert(neuron_ids(self.neurons@).take(i + 1).last() == x);
            }
            let mut p: usize = sorted.len();
            while p > 0 && degrees[p - 1] > dx
                invariant
                    p <= sorted@.len(),
                    degrees@.len() == sorted@.len(),
                    forall|j: int| 0 <= j < sorted@.len() ==> #[trigger] degrees@[j] == out_degree(links, sorted@[j]),
                    forall|j: int| p <= j < sorted@.len() ==> out_degree(links, #[trigger] sorted@[j]) > dx,
                decreases p,
            {
                p = p - 1;
            }
            proof {
                lemma_insert_by_degree_at(links, sorted@, x, p as int);
            }
            sorted.insert(p, x);
            degrees.insert(p, dx);
            proof {
                assert forall|j: int| 0 <= j < sorted@.len() implies #[trigger] degrees@[j] == out_degree(links, sorted@[j]) by {
                    if j > p {
                        assert(sorted@[j] == sorted@.remove(p as int)[j - 1]);
                    }
                }
            }
            i = i + 1;
        }
        proof {
            assert(neuron_ids(self.neurons@).take(self.neurons@.len() as int) == neuron_ids(self.neurons@));
        }
        sorted
    }

    /// The order in which to compute the neurons (see `compute_order`):
    /// every neuron once.
    pub fn topological_sort(&self) -> (order: Vec<usize>)
        requires
            links_closed(*self),
        ensures
            order@ == compute_order(*self),
    {
        let ghost links = self.links@;
        let visit_order = self.ids_by_degree();
        let mut visited: Vec<usize> = Vec::new();
        let mut compute: Vec<usize> = Vec::new();
        let mut t: usize = 0;
        while t < visit_order.len()
            invariant
                links == self.links@,
                t <= visit_order@.len(),
                (visited@, compute@) == search_all(links, visit_order@.take(t as int)),
            decreases visit_order@.len() - t,
        {
            let root = visit_order[t];
            let mut q: Vec<usize> = Vec::new();
            q.push(root);
            let mut stack: Vec<usize> = Vec::new();
            let ghost v0 = visited@;
            let ghost mut fuel: nat = (links.len() + 1) as nat;
            proof {
                lemma_unseen_sources_bound(links, visited@);
                assert(q@ == seq![root]);
                assert(stack@ == Seq::<usize>::empty());
            }
            while q.len() > 0
                invariant
                    links == self.links@,
                    search(links, seq![root], v0, Seq::empty(), (links.len() + 1) as nat) == search(links, q@, visited@, stack@, fuel),
                    q@.len() + unseen_sources(links, visited@) <= fuel,
                decreases fuel,
            {
                let ghost q0 = q@;
                let ghost s0 = stack@;
                let ghost vis0 = visited@;
                let current = q[0];
                q.remove(0);
                proof {
                    assert(q@ == q0.drop_first());
                }
                if !vec_contains(&visited, current) {
                    visited.push(current);
                    stack.insert(0, current);
                    let ghost rest = q@;
                    let mut k: usize = 0;
                    while k < self.links.len()
                        invariant
                            links == self.links@,
                            k <= links.len(),
                            q@ == pushed_front(succs(links.take(k as int), current), visited@, rest),
                        decreases links.len() - k,
                    {
                        let l = self.links[k];
                        proof {
                            assert(links.take(k + 1).drop_last() == links.take(k as int));
                            assert(links.take(k + 1).last() == l);
                            if l.from == current {
                                let s = succs(links.take(k as int), current);
                                assert(s.push(l.to).drop_last() == s);
                                assert(s.push(l.to).last() == l.to);
                            }
                        }
                        if l.from == current && !vec_contains(&visited, l.to) {
                            q.insert(0, l.to);
                            proof {
                                assert(q@ =~= seq![l.to] + pushed_front(succs(links.take(k as int), current), visited@, rest));
                            }
                        }
                        k = k + 1;
                    }
                    proof {
                        assert(links.take(links.len() as int) == links);
                        assert(stack@ =~= seq![current] + s0);
                        assert(search_step(links, q0, vis0, s0) == (q@, visited@, stack@));
                        lemma_unseen_sources_push(links, vis0, current);
                        lemma_pushed_front_len(succs(links, current), visited@, rest);
                    }
                } else {
                    proof {
                        assert(search_step(links, q0, vis0, s0) == (q@, visited@, stack@));
                    }
                }
                proof {
                    fuel = (fuel - 1) as nat;
                }
            }
            let ghost st = stack@;
            compute.append(&mut stack);
            proof {
                assert(visit_order@.take(t + 1).drop_last() == visit_order@.take(t as int));
                assert(visit_order@.take(t + 1).last() == root);
                assert(compute@ == search_all(links, visit_order@.take(t as int)).1 + st);
            }
            t = t + 1;
        }
        proof {
            assert(visit_order@.take(visit_order@.len() as int) == visit_order@);
        }
        let mut order: Vec<usize> = Vec::new();
        let mut i: usize = compute.len();
        while i > 0
            invariant
                i <= compute@.len(),
                order@.len() == compute@.len() - i,
                forall|j: int| 0 <= j < order@.len() ==> #[trigger] order@[j] == compute@[compute@.len() - 1 - j],
            decreases i,
        {
            i = i - 1;
            order.push(compute[i]);
        }
        proof {
            assert(order@ =~= compute@.reverse());
        }
        order
    }

    /// The neuron with id `i`, to change.
    pub fn get_neuron_mut(&mut self, i: usize) -> (n: &mut Neuron)
        requires
            has_neuron(old(self).neurons@, i),
        ensures
            *n == old(self).neurons@[neuron_pos(old(self).neurons@, i)],
            n.id == i,
            final(self).neurons@ == old(self).neurons@.update(neuron_pos(old(self).neurons@, i), *final(n)),
            final(self).links == old(self).links,
            final(self).id == old(self).id,
            final(self).fitness == old(self).fitness,
    {
        proof {
            lemma_first_pos(neuron_ids(self.neurons@), i, 0);
        }
        let p = self.neuron_index(i);
        &mut self.neurons[p]
    }

    /// Sets the activation of each input neuron `i` to `inputs[i]`.
    pub fn set_inputs(&mut self, inputs: Vec<u32>)
        requires
            old(self).wf(),
            inputs@.len() >= Config::input_count,
            forall|i: usize| i < Config::input_count ==> #[trigger] has_neuron(old(self).neurons@, i),
        ensures
            final(self).wf(),
            final(self).neurons@.len() == old(self).neurons@.len(),
            forall|k: int| 0 <= k < final(self).neurons@.len() ==> #[trigger] final(self).neurons@[k] == (if old(self).neurons@[k].id
                < Config::input_count {
                Neuron { activation: inputs@[old(self).neurons@[k].id as int], ..old(self).neurons@[k] }
            } else {
                old(self).neurons@[k]
            }),
            final(self).links == old(self).links,
            final(self).id == old(self).id,
            final(self).fitness == old(self).fitness,
    {
        let mut i: usize = 0;
        while i < Config::input_count
            invariant
                i <= Config::input_count,
                inputs@.len() >= Config::input_count,
                self.neurons@.len() == old(self).neurons@.len(),
                forall|k: int| 0 <= k < self.neurons@.len() ==> #[trigger] self.neurons@[k].id == old(self).neurons@[k].id,
                forall|k: int| 0 <= k < self.neurons@.len() ==> #[trigger] self.neurons@[k] == (if old(self).neurons@[k].id < i {
                    Neuron { activation: inputs@[old(self).neurons@[k].id as int], ..old(self).neurons@[k] }
                } else {
                    old(self).neurons@[k]
                }),
                old(self).wf(),
                forall|j: usize| j < Config::input_count ==> #[trigger] has_neuron(old(self).neurons@, j),
                self.links == old(self).links,
                self.id == old(self).id,
                self.fitness == old(self).fitness,
            decreases Config::input_count - i,
        {
            proof {
                assert(has_neuron(old(self).neurons@, i));
                lemma_first_pos(neuron_ids(old(self).neurons@), i, 0);
                lemma_first_pos(neuron_ids(self.neurons@), i, 0);
                let p = neuron_pos(old(self).neurons@, i);
                assert(neuron_ids(old(self).neurons@)[p] == i);
                assert(neuron_ids(self.neurons@) == neuron_ids(old(self).neurons@));
            }
            let n = self.get_neuron_mut(i);
            n.activation = inputs[i];
            i = i + 1;
        }
    }

    /// The activations of the output neurons, in order of id.
    pub fn get_outputs(&mut self) -> (outputs: Vec<u32>)
        requires
            forall|i: usize| Config::input_count <= i < io_count() ==> #[trigger] has_neuron(old(self).neurons@, i),
        ensures
            *final(self) == *old(self),
            outputs@.len() == Config::output_count,
            forall|k: int| 0 <= k < outputs@.len() ==> #[trigger] outputs@[k] == old(self).neurons@[neuron_pos(
                old(self).neurons@,
                (Config::input_count + k) as usize,
            )].activation,
    {
        let mut outputs: Vec<u32> = Vec::new();
        let mut i: usize = Config::input_count;
        while i < Config::input_count + Config::output_count
            invariant
                Config::input_count <= i <= io_count(),
                outputs@.len() == i - Config::input_count,
                forall|j: usize| Config::input_count <= j < io_count() ==> #[trigger] has_neuron(self.neurons@, j),
                forall|k: int| 0 <= k < outputs@.len() ==> #[trigger] outputs@[k] == self.neurons@[neuron_pos(
                    self.neurons@,
                    (Config::input_count + k) as usize,
                )].activation,
            decreases io_count() - i,
        {
            let n = self.get_neuron(i);
            outputs.push(n.activation);
            i = i + 1;
        }
        outputs
    }
}

} // verus!
