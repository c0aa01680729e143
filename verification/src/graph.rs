use vstd::prelude::*;
use crate::link::Link;

verus! {

/// Some link goes from neuron `a` to neuron `b` (enabled or not).
pub open spec fn has_edge(links: Seq<Link>, a: usize, b: usize) -> bool {
    exists|i: int| #![trigger links[i]] 0 <= i < links.len() && links[i].from == a && links[i].to == b
}

/// Some link leads to neuron `x`.
pub open spec fn is_target(links: Seq<Link>, x: usize) -> bool {
    exists|j: int| #![trigger links[j]] 0 <= j < links.len() && links[j].to == x
}

/// Step `k` of the neuron sequence `p` follows a link.
pub open spec fn walk_step(links: Seq<Link>, p: Seq<usize>, k: int) -> bool {
    has_edge(links, p[k], p[k + 1])
}

/// `p` is a walk of at least one step along the links.
pub open spec fn is_walk(links: Seq<Link>, p: Seq<usize>) -> bool {
    &&& p.len() >= 2
    &&& forall|k: int| 0 <= k < p.len() - 1 ==> #[trigger] walk_step(links, p, k)
}

/// Following one or more links leads from neuron `a` to neuron `b`.
pub open spec fn reaches(links: Seq<Link>, a: usize, b: usize) -> bool {
    exists|p: Seq<usize>| #[trigger] is_walk(links, p) && p[0] == a && p.last() == b
}

/// No neuron can reach itself by following links.
pub open spec fn acyclic(links: Seq<Link>) -> bool {
    forall|x: usize| !#[trigger] reaches(links, x, x)
}

/// Following links from `a` to `b` and then from `b` to `c` leads from
/// `a` to `c`.
pub proof fn lemma_reaches_trans(links: Seq<Link>, a: usize, b: usize, c: usize)
    requires
        reaches(links, a, b),
        reaches(links, b, c),
    ensures
        reaches(links, a, c),
{
    let member = |y: usize| reaches(links, a, y);
    assert forall|i: int| 0 <= i < links.len() && links[i].from == b implies member(#[trigger] links[i].to) by {
        assert(has_edge(links, b, links[i].to));
        lemma_reaches_extend(links, a, b, links[i].to);
    }
    assert forall|i: int| 0 <= i < links.len() && member(links[i].from) implies member(#[trigger] links[i].to) by {
        assert(has_edge(links, links[i].from, links[i].to));
        lemma_reaches_extend(links, a, links[i].from, links[i].to);
    }
    lemma_closed_holds_reach(links, b, c, member);
}

/// Where `links2` holds the edges of `links` and one more, from `input` to
/// `output`, a walk in `links2` either was one in `links` or passes from
/// `input` to `output`.
pub proof fn lemma_reach_with_edge(links: Seq<Link>, links2: Seq<Link>, input: usize, output: usize, a: usize, b: usize)
    requires
        forall|i: int| 0 <= i < links2.len() ==> has_edge(links, (#[trigger] links2[i]).from, links2[i].to)
            || (links2[i].from == input && links2[i].to == output),
        reaches(links2, a, b),
    ensures
        reaches(links, a, b) || ((a == input || reaches(links, a, input)) && (b == output || reaches(links, output, b))),
{
    let member = |y: usize| reaches(links, a, y) || ((a == input || reaches(links, a, input)) && (y == output || reaches(links, output, y)));
    assert forall|i: int| 0 <= i < links2.len() && links2[i].from == a implies member(#[trigger] links2[i].to) by {
        let y = links2[i].to;
        if has_edge(links, a, y) {
            lemma_edge_reaches(links, a, y);
        }
    }
    assert forall|i: int| 0 <= i < links2.len() && member(links2[i].from) implies member(#[trigger] links2[i].to) by {
        let u = links2[i].from;
        let y = links2[i].to;
        if has_edge(links, u, y) {
            if reaches(links, a, u) {
                lemma_reaches_extend(links, a, u, y);
            } else if u == output {
                lemma_edge_reaches(links, output, y);
            } else {
                lemma_reaches_extend(links, output, u, y);
            }
        }
    }
    lemma_closed_holds_reach(links2, a, b, member);
}

/// Nothing is reachable from a neuron no link starts at.
pub proof fn lemma_no_out_no_reach(links: Seq<Link>, a: usize, b: usize)
    requires
        forall|k: int| 0 <= k < links.len() ==> (#[trigger] links[k]).from != a,
    ensures
        !reaches(links, a, b),
{
    if reaches(links, a, b) {
        let p = choose|p: Seq<usize>| #[trigger] is_walk(links, p) && p[0] == a && p.last() == b;
        assert(walk_step(links, p, 0));
        let i = choose|i: int| #![trigger links[i]] 0 <= i < links.len() && links[i].from == p[0] && links[i].to == p[1];
        assert(links[i].from != a);
    }
}

/// A link from `a` to `b` is a walk from `a` to `b`.
pub proof fn lemma_edge_reaches(links: Seq<Link>, a: usize, b: usize)
    requires
        has_edge(links, a, b),
    ensures
        reaches(links, a, b),
{
    let p = seq![a, b];
    assert(walk_step(links, p, 0));
    assert(is_walk(links, p));
}

/// A walk to `b` followed by a link from `b` to `c` is a walk to `c`.
pub proof fn lemma_reaches_extend(links: Seq<Link>, a: usize, b: usize, c: usize)
    requires
        reaches(links, a, b),
        has_edge(links, b, c),
    ensures
        reaches(links, a, c),
{
    let p = choose|p: Seq<usize>| #[trigger] is_walk(links, p) && p[0] == a && p.last() == b;
    let q = p.push(c);
    assert forall|k: int| 0 <= k < q.len() - 1 implies #[trigger] walk_step(links, q, k) by {
        if k < p.len() - 1 {
            assert(walk_step(links, p, k));
        }
    }
    assert(is_walk(links, q));
}

/// A set of neurons that holds every neuron one link away from `a` and
/// every neuron one link away from one of its members holds every neuron
/// reachable from `a`.
pub proof fn lemma_closed_holds_reach(links: Seq<Link>, a: usize, b: usize, member: spec_fn(usize) -> bool)
    requires
        forall|i: int| 0 <= i < links.len() && links[i].from == a ==> member(#[trigger] links[i].to),
        forall|i: int| 0 <= i < links.len() && member(links[i].from) ==> member(#[trigger] links[i].to),
        reaches(links, a, b),
    ensures
        member(b),
{
    let p = choose|p: Seq<usize>| #[trigger] is_walk(links, p) && p[0] == a && p.last() == b;
    lemma_walk_members(links, p, a, member, p.len() - 1);
}

/// Every neuron after the first on a walk from `a` belongs to a set closed
/// as in `lemma_closed_holds_reach`.
proof fn lemma_walk_members(links: Seq<Link>, p: Seq<usize>, a: usize, member: spec_fn(usize) -> bool, k: int)
    requires
        forall|i: int| 0 <= i < links.len() && links[i].from == a ==> member(#[trigger] links[i].to),
        forall|i: int| 0 <= i < links.len() && member(links[i].from) ==> member(#[trigger] links[i].to),
        is_walk(links, p),
        p[0] == a,
        1 <= k < p.len(),
    ensures
        member(p[k]),
    decreases k,
{
    assert(walk_step(links, p, k - 1));
    let i = choose|i: int| #![trigger links[i]] 0 <= i < links.len() && links[i].from == p[k - 1] && links[i].to == p[k];
    if k > 1 {
        lemma_walk_members(links, p, a, member, k - 1);
    }
}

/// The targets of the links that start at `x`, in the links' order.
pub open spec fn succs(links: Seq<Link>, x: usize) -> Seq<usize>
    decreases links.len(),
{
    if links.len() == 0 {
        Seq::empty()
    } else if links.last().from == x {
        succs(links.drop_last(), x).push(links.last().to)
    } else {
        succs(links.drop_last(), x)
    }
}

/// The queue `q` after each of `s` in turn that `seen` lacks was put at
/// its front.
pub open spec fn pushed_front(s: Seq<usize>, seen: Seq<usize>, q: Seq<usize>) -> Seq<usize>
    decreases s.len(),
{
    if s.len() == 0 {
        q
    } else if seen.contains(s.last()) {
        pushed_front(s.drop_last(), seen, q)
    } else {
        seq![s.last()] + pushed_front(s.drop_last(), seen, q)
    }
}

/// One step of the depth-first search over `links`: the neuron at the
/// front of the queue is taken off; unless it was seen, it is marked seen,
/// put on top of the stack, and the neurons it links to that were not seen
/// go to the front of the queue, the last link's target first.
pub open spec fn search_step(links: Seq<Link>, q: Seq<usize>, seen: Seq<usize>, stack: Seq<usize>) -> (Seq<usize>, Seq<usize>, Seq<usize>) {
    let cur = q[0];
    let rest = q.drop_first();
    if seen.contains(cur) {
        (rest, seen, stack)
    } else {
        let seen2 = seen.push(cur);
        (pushed_front(succs(links, cur), seen2, rest), seen2, seq![cur] + stack)
    }
}

/// The seen neurons and the stack after at most `fuel` steps of the
/// search, stopping early when the queue runs empty.
pub open spec fn search(links: Seq<Link>, q: Seq<usize>, seen: Seq<usize>, stack: Seq<usize>, fuel: nat) -> (Seq<usize>, Seq<usize>)
    decreases fuel,
{
    if fuel == 0 || q.len() == 0 {
        (seen, stack)
    } else {
        let (q2, seen2, stack2) = search_step(links, q, seen, stack);
        search(links, q2, seen2, stack2, (fuel - 1) as nat)
    }
}

/// The seen neurons and the order found after a search was started from
/// each of `roots` in turn, each search's stack appended to the order.
pub open spec fn search_all(links: Seq<Link>, roots: Seq<usize>) -> (Seq<usize>, Seq<usize>)
    decreases roots.len(),
{
    if roots.len() == 0 {
        (Seq::empty(), Seq::empty())
    } else {
        let (seen, order) = search_all(links, roots.drop_last());
        let (seen2, stack) = search(links, seq![roots.last()], seen, Seq::empty(), (links.len() + 1) as nat);
        (seen2, order + stack)
    }
}

/// The number of links that start at `x`.
pub open spec fn out_degree(links: Seq<Link>, x: usize) -> int {
    succs(links, x).len() as int
}

/// `sorted` with `x` put after every element whose out-degree is at most
/// that of `x` and before the rest (for a list ordered by out-degree, the
/// place a stable sort gives it).
pub open spec fn insert_by_degree(links: Seq<Link>, sorted: Seq<usize>, x: usize) -> Seq<usize>
    decreases sorted.len(),
{
    if sorted.len() == 0 {
        seq![x]
    } else if out_degree(links, sorted.last()) <= out_degree(links, x) {
        sorted.push(x)
    } else {
        insert_by_degree(links, sorted.drop_last(), x).push(sorted.last())
    }
}

/// `ids` ordered by out-degree, ties kept in their order: a stable sort.
pub open spec fn sort_by_degree(links: Seq<Link>, ids: Seq<usize>) -> Seq<usize>
    decreases ids.len(),
{
    if ids.len() == 0 {
        ids
    } else {
        insert_by_degree(links, sort_by_degree(links, ids.drop_last()), ids.last())
    }
}

/// The out-degree of a neuron is the number of links that leave it.
pub proof fn lemma_out_degree_counts_sources(links: Seq<Link>, x: usize)
    ensures
        out_degree(links, x) == links.filter(|l: Link| l.from == x).len(),
    decreases links.len(),
{
    reveal_with_fuel(Seq::<_>::filter, 1);
    if links.len() > 0 {
        lemma_out_degree_counts_sources(links.drop_last(), x);
    }
}

/// Inserting into a list ordered by out-degree keeps it ordered.
proof fn lemma_insert_by_degree_ordered(links: Seq<Link>, sorted: Seq<usize>, x: usize)
    requires
        forall|i: int, j: int| 0 <= i < j < sorted.len() ==> out_degree(links, #[trigger] sorted[i]) <= out_degree(links, #[trigger] sorted[j]),
    ensures
        forall|i: int, j: int|
            0 <= i < j < insert_by_degree(links, sorted, x).len() ==> out_degree(links, #[trigger] insert_by_degree(links, sorted, x)[i])
                <= out_degree(links, #[trigger] insert_by_degree(links, sorted, x)[j]),
    decreases sorted.len(),
{
    let r = insert_by_degree(links, sorted, x);
    if sorted.len() == 0 {
    } else if out_degree(links, sorted.last()) <= out_degree(links, x) {
        assert(r == sorted.push(x));
        assert forall|i: int, j: int| 0 <= i < j < r.len() implies out_degree(links, #[trigger] r[i]) <= out_degree(links, #[trigger] r[j]) by {
            if j == sorted.len() && i < sorted.len() - 1 {
                assert(out_degree(links, sorted[i]) <= out_degree(links, sorted[sorted.len() - 1]));
            }
        }
    } else {
        let s0 = sorted.drop_last();
        let y = sorted.last();
        assert forall|i: int, j: int| 0 <= i < j < s0.len() implies out_degree(links, #[trigger] s0[i]) <= out_degree(links, #[trigger] s0[j]) by {
            assert(s0[i] == sorted[i] && s0[j] == sorted[j]);
        }
        lemma_insert_by_degree_ordered(links, s0, x);
        lemma_insert_by_degree_contains(links, s0, x);
        let r0 = insert_by_degree(links, s0, x);
        assert(r == r0.push(y));
        assert forall|i: int, j: int| 0 <= i < j < r.len() implies out_degree(links, #[trigger] r[i]) <= out_degree(links, #[trigger] r[j]) by {
            if j == r0.len() {
                assert(r[i] == r0[i]);
                assert(r0.contains(r0[i]));
                if r0[i] != x {
                    assert(s0.contains(r0[i]));
                    let k = choose|k: int| 0 <= k < s0.len() && s0[k] == r0[i];
                    assert(out_degree(links, sorted[k]) <= out_degree(links, sorted[sorted.len() - 1]));
                }
            } else {
                assert(r[i] == r0[i] && r[j] == r0[j]);
            }
        }
    }
}

/// The neurons are taken as starting points in order of the number of
/// links that leave each, fewest first, and each neuron once.
pub proof fn lemma_sort_by_degree_by_leaving_links(links: Seq<Link>, ids: Seq<usize>)
    ensures
        sort_by_degree(links, ids).len() == ids.len(),
        forall|y: usize| (#[trigger] sort_by_degree(links, ids).contains(y)) == ids.contains(y),
        forall|i: int, j: int|
            0 <= i < j < sort_by_degree(links, ids).len() ==> links.filter(|l: Link| l.from == #[trigger] sort_by_degree(links, ids)[i]).len()
                <= links.filter(|l: Link| l.from == #[trigger] sort_by_degree(links, ids)[j]).len(),
{
    lemma_sort_by_degree_ordered(links, ids);
    lemma_sort_by_degree_contains(links, ids);
    let r = sort_by_degree(links, ids);
    assert forall|i: int, j: int| 0 <= i < j < r.len() implies links.filter(|l: Link| l.from == #[trigger] r[i]).len()
        <= links.filter(|l: Link| l.from == #[trigger] r[j]).len() by {
        lemma_out_degree_counts_sources(links, r[i]);
        lemma_out_degree_counts_sources(links, r[j]);
    }
}

/// `sort_by_degree` orders by out-degree and keeps the length.
proof fn lemma_sort_by_degree_ordered(links: Seq<Link>, ids: Seq<usize>)
    ensures
        sort_by_degree(links, ids).len() == ids.len(),
        forall|i: int, j: int|
            0 <= i < j < sort_by_degree(links, ids).len() ==> out_degree(links, #[trigger] sort_by_degree(links, ids)[i])
                <= out_degree(links, #[trigger] sort_by_degree(links, ids)[j]),
    decreases ids.len(),
{
    if ids.len() > 0 {
        lemma_sort_by_degree_ordered(links, ids.drop_last());
        lemma_insert_by_degree_ordered(links, sort_by_degree(links, ids.drop_last()), ids.last());
        lemma_insert_by_degree_len(links, sort_by_degree(links, ids.drop_last()), ids.last());
    }
}

/// Inserting adds one element.
proof fn lemma_insert_by_degree_len(links: Seq<Link>, sorted: Seq<usize>, x: usize)
    ensures
        insert_by_degree(links, sorted, x).len() == sorted.len() + 1,
    decreases sorted.len(),
{
    if sorted.len() > 0 {
        lemma_insert_by_degree_len(links, sorted.drop_last(), x);
    }
}

/// The number of links whose source is not among `seen`.
pub open spec fn unseen_sources(links: Seq<Link>, seen: Seq<usize>) -> nat
    decreases links.len(),
{
    if links.len() == 0 {
        0
    } else {
        unseen_sources(links.drop_last(), seen) + (if seen.contains(links.last().from) { 0nat } else { 1nat })
    }
}

/// Marking an unseen neuron `x` seen removes exactly its outgoing links
/// from the unseen sources.
pub proof fn lemma_unseen_sources_push(links: Seq<Link>, seen: Seq<usize>, x: usize)
    requires
        !seen.contains(x),
    ensures
        unseen_sources(links, seen.push(x)) + succs(links, x).len() == unseen_sources(links, seen),
    decreases links.len(),
{
    if links.len() > 0 {
        lemma_unseen_sources_push(links.drop_last(), seen, x);
        let f = links.last().from;
        assert(seen.push(x).contains(f) <==> seen.contains(f) || f == x) by {
            if seen.push(x).contains(f) && f != x {
                let j = choose|j: int| 0 <= j < seen.push(x).len() && seen.push(x)[j] == f;
                assert(seen[j] == f);
            }
            if seen.contains(f) {
                let j = choose|j: int| 0 <= j < seen.len() && seen[j] == f;
                assert(seen.push(x)[j] == f);
            }
            if f == x {
                assert(seen.push(x)[seen.len() as int] == f);
            }
        }
    }
}

/// No more links have an unseen source than there are links.
pub proof fn lemma_unseen_sources_bound(links: Seq<Link>, seen: Seq<usize>)
    ensures
        unseen_sources(links, seen) <= links.len(),
    decreases links.len(),
{
    if links.len() > 0 {
        lemma_unseen_sources_bound(links.drop_last(), seen);
    }
}

/// Where the out-degrees after position `p` of `sorted` exceed that of `x`
/// and the one before it does not, inserting by degree puts `x` at `p`.
pub proof fn lemma_insert_by_degree_at(links: Seq<Link>, sorted: Seq<usize>, x: usize, p: int)
    requires
        0 <= p <= sorted.len(),
        p > 0 ==> out_degree(links, sorted[p - 1]) <= out_degree(links, x),
        forall|j: int| p <= j < sorted.len() ==> out_degree(links, #[trigger] sorted[j]) > out_degree(links, x),
    ensures
        insert_by_degree(links, sorted, x) == sorted.insert(p, x),
    decreases sorted.len(),
{
    if sorted.len() == 0 {
        assert(sorted.insert(p, x) =~= seq![x]);
    } else if p == sorted.len() {
        assert(sorted.insert(p, x) =~= sorted.push(x));
    } else {
        let last = sorted.last();
        assert(out_degree(links, sorted[sorted.len() - 1]) > out_degree(links, x));
        assert forall|j: int| p <= j < sorted.drop_last().len() implies out_degree(links, #[trigger] sorted.drop_last()[j]) > out_degree(links, x) by {
            assert(sorted.drop_last()[j] == sorted[j]);
        }
        if p > 0 {
            assert(sorted.drop_last()[p - 1] == sorted[p - 1]);
        }
        lemma_insert_by_degree_at(links, sorted.drop_last(), x, p);
        assert(sorted.drop_last().insert(p, x).push(last) =~= sorted.insert(p, x));
    }
}

/// Putting neurons at the front of the queue adds at most as many as were
/// offered.
pub proof fn lemma_pushed_front_len(s: Seq<usize>, seen: Seq<usize>, q: Seq<usize>)
    ensures
        pushed_front(s, seen, q).len() <= q.len() + s.len(),
    decreases s.len(),
{
    if s.len() > 0 {
        lemma_pushed_front_len(s.drop_last(), seen, q);
    }
}

/// The targets of the links from `x` are targets of links.
pub proof fn lemma_succs_targets(links: Seq<Link>, x: usize, k: int)
    requires
        0 <= k < succs(links, x).len(),
    ensures
        is_target(links, succs(links, x)[k]),
    decreases links.len(),
{
    let s = succs(links.drop_last(), x);
    if links.len() > 0 {
        if k < s.len() {
            lemma_succs_targets(links.drop_last(), x, k);
            let j = choose|j: int| #![trigger links.drop_last()[j]] 0 <= j < links.drop_last().len() && links.drop_last()[j].to == s[k];
            assert(links[j] == links.drop_last()[j]);
        } else {
            assert(links[links.len() - 1].to == succs(links, x)[k]);
        }
    }
}

/// What the queue holds after neurons were put at its front comes from
/// the queue or from the neurons put there.
pub proof fn lemma_pushed_front_from(s: Seq<usize>, seen: Seq<usize>, q: Seq<usize>, k: int)
    requires
        0 <= k < pushed_front(s, seen, q).len(),
    ensures
        s.contains(pushed_front(s, seen, q)[k]) || q.contains(pushed_front(s, seen, q)[k]),
    decreases s.len(),
{
    if s.len() > 0 {
        let p = pushed_front(s.drop_last(), seen, q);
        if seen.contains(s.last()) {
            lemma_pushed_front_from(s.drop_last(), seen, q, k);
        } else if k == 0 {
            assert(s[s.len() - 1] == s.last());
        } else {
            lemma_pushed_front_from(s.drop_last(), seen, q, k - 1);
        }
        let v = pushed_front(s, seen, q)[k];
        if s.drop_last().contains(v) {
            let j = choose|j: int| 0 <= j < s.drop_last().len() && s.drop_last()[j] == v;
            assert(s[j] == v);
        }
    }
}

/// A search only adds to the seen neurons, each at most once, drawing
/// them from the queue and from link targets; it stacks them in the
/// reverse of the order it saw them; and, with fuel, it sees the neuron at
/// the front of the queue.
pub proof fn lemma_search_grows(
    links: Seq<Link>,
    q: Seq<usize>,
    seen: Seq<usize>,
    stack: Seq<usize>,
    fuel: nat,
    member: spec_fn(usize) -> bool,
)
    requires
        seen.no_duplicates(),
        forall|k: int| 0 <= k < q.len() ==> member(#[trigger] q[k]),
        forall|i: int| 0 <= i < links.len() ==> member(#[trigger] links[i].to),
    ensures
        ({
            let (s2, st2) = search(links, q, seen, stack, fuel);
            &&& seen.len() <= s2.len()
            &&& s2.subrange(0, seen.len() as int) == seen
            &&& s2.no_duplicates()
            &&& st2 == s2.subrange(seen.len() as int, s2.len() as int).reverse() + stack
            &&& forall|k: int| seen.len() <= k < s2.len() ==> member(#[trigger] s2[k])
            &&& (fuel > 0 && q.len() > 0) ==> s2.contains(q[0])
        }),
    decreases fuel,
{
    let (s2, st2) = search(links, q, seen, stack, fuel);
    if fuel == 0 || q.len() == 0 {
        assert(s2.subrange(0, seen.len() as int) =~= seen);
        assert(s2.subrange(seen.len() as int, s2.len() as int).reverse() =~= Seq::<usize>::empty());
        assert(st2 =~= Seq::<usize>::empty() + stack);
    } else {
        let cur = q[0];
        let (q2, seen2, stack2) = search_step(links, q, seen, stack);
        assert forall|k: int| 0 <= k < q2.len() implies member(#[trigger] q2[k]) by {
            if seen.contains(cur) {
                assert(q2[k] == q[k + 1]);
            } else {
                let sc = succs(links, cur);
                lemma_pushed_front_from(sc, seen2, q.drop_first(), k);
                if sc.contains(q2[k]) {
                    let j = choose|j: int| 0 <= j < sc.len() && sc[j] == q2[k];
                    lemma_succs_targets(links, cur, j);
                    let i = choose|i: int| #![trigger links[i]] 0 <= i < links.len() && links[i].to == sc[j];
                    assert(member(links[i].to));
                } else {
                    let j = choose|j: int| 0 <= j < q.drop_first().len() && q.drop_first()[j] == q2[k];
                    assert(q[j + 1] == q2[k]);
                }
            }
        }
        if !seen.contains(cur) {
            assert(seen2.no_duplicates()) by {
                assert forall|a: int, b: int| 0 <= a < b < seen2.len() implies seen2[a] != seen2[b] by {
                    if b == seen.len() {
                        assert(seen.contains(seen2[a]));
                    }
                }
            }
        }
        lemma_search_grows(links, q2, seen2, stack2, (fuel - 1) as nat, member);
        assert(search(links, q, seen, stack, fuel) == search(links, q2, seen2, stack2, (fuel - 1) as nat));
        if seen.contains(cur) {
            let j = choose|j: int| 0 <= j < seen.len() && seen[j] == cur;
            assert(s2.subrange(0, seen.len() as int)[j] == cur);
            assert(s2[j] == cur);
        } else {
            assert(seen2[seen.len() as int] == cur);
            assert(s2.subrange(0, seen2.len() as int)[seen.len() as int] == cur);
            assert(s2[seen.len() as int] == cur);
            assert(s2.subrange(0, seen.len() as int) =~= seen) by {
                assert(s2.subrange(0, seen2.len() as int) == seen2);
                assert forall|k: int| 0 <= k < seen.len() implies s2.subrange(0, seen.len() as int)[k] == seen[k] by {
                    assert(s2.subrange(0, seen2.len() as int)[k] == seen2[k]);
                }
            }
            let tail2 = s2.subrange(seen2.len() as int, s2.len() as int);
            let tail = s2.subrange(seen.len() as int, s2.len() as int);
            assert(tail =~= seq![cur] + tail2);
            assert(tail.reverse() =~= tail2.reverse() + seq![cur]);
            assert(st2 =~= tail.reverse() + stack);
            assert(member(cur));
            assert forall|k: int| seen.len() <= k < s2.len() implies member(#[trigger] s2[k]) by {
                if k == seen.len() {
                    assert(s2[k] == cur);
                }
            }
        }
    }
}

/// After a search from each of `roots`, every root was seen, each seen
/// neuron was seen once, comes from the roots or the link targets, and the
/// order lists the seen neurons, each once.
pub proof fn lemma_search_all(links: Seq<Link>, roots: Seq<usize>, member: spec_fn(usize) -> bool)
    requires
        forall|k: int| 0 <= k < roots.len() ==> member(#[trigger] roots[k]),
        forall|i: int| 0 <= i < links.len() ==> member(#[trigger] links[i].to),
    ensures
        ({
            let (seen, order) = search_all(links, roots);
            &&& seen.no_duplicates()
            &&& order.no_duplicates()
            &&& forall|x: usize| #[trigger] order.contains(x) <==> seen.contains(x)
            &&& forall|k: int| 0 <= k < seen.len() ==> member(#[trigger] seen[k])
            &&& forall|k: int| 0 <= k < roots.len() ==> seen.contains(#[trigger] roots[k])
        }),
    decreases roots.len(),
{
    if roots.len() > 0 {
        let r0 = roots.drop_last();
        assert forall|k: int| 0 <= k < r0.len() implies member(#[trigger] r0[k]) by {
            assert(r0[k] == roots[k]);
        }
        lemma_search_all(links, r0, member);
        let (s0, o0) = search_all(links, r0);
        let root = roots.last();
        let q = seq![root];
        assert(member(roots[roots.len() - 1]));
        assert forall|k: int| 0 <= k < q.len() implies member(#[trigger] q[k]) by {
            assert(q[k] == root);
        }
        lemma_search_grows(links, q, s0, Seq::empty(), (links.len() + 1) as nat, member);
        let (s2, st) = search(links, q, s0, Seq::empty(), (links.len() + 1) as nat);
        let new = s2.subrange(s0.len() as int, s2.len() as int);
        assert(st =~= new.reverse());
        let order = o0 + st;
        assert(s2 =~= s0 + new) by {
            assert(s2.subrange(0, s0.len() as int) == s0);
        }
        assert forall|x: usize| #[trigger] new.contains(x) implies !s0.contains(x) && s2.contains(x) by {
            let k = choose|k: int| 0 <= k < new.len() && new[k] == x;
            assert(s2[s0.len() + k] == x);
            if s0.contains(x) {
                let j = choose|j: int| 0 <= j < s0.len() && s0[j] == x;
                assert(s2[j] == x);
            }
        }
        assert forall|x: usize| #[trigger] st.contains(x) <==> new.contains(x) by {
            if st.contains(x) {
                let k = choose|k: int| 0 <= k < st.len() && st[k] == x;
                assert(new[new.len() - 1 - k] == x);
            }
            if new.contains(x) {
                let k = choose|k: int| 0 <= k < new.len() && new[k] == x;
                assert(st[new.len() - 1 - k] == x);
            }
        }
        assert(st.no_duplicates()) by {
            assert forall|a: int, b: int| 0 <= a < b < st.len() implies st[a] != st[b] by {
                assert(st[a] == s2[s0.len() + new.len() - 1 - a]);
                assert(st[b] == s2[s0.len() + new.len() - 1 - b]);
            }
        }
        assert(order.no_duplicates()) by {
            assert forall|a: int, b: int| 0 <= a < b < order.len() implies order[a] != order[b] by {
                if b >= o0.len() && a < o0.len() {
                    assert(o0.contains(order[a]));
                    assert(st.contains(order[b]));
                } else if a >= o0.len() {
                    assert(order[a] == st[a - o0.len()]);
                    assert(order[b] == st[b - o0.len()]);
                }
            }
        }
        assert forall|x: usize| #[trigger] order.contains(x) <==> s2.contains(x) by {
            if order.contains(x) {
                let k = choose|k: int| 0 <= k < order.len() && order[k] == x;
                if k < o0.len() {
                    assert(o0.contains(x));
                    let j = choose|j: int| 0 <= j < s0.len() && s0[j] == x;
                    assert(s2[j] == x);
                } else {
                    assert(st.contains(x));
                }
            }
            if s2.contains(x) {
                let k = choose|k: int| 0 <= k < s2.len() && s2[k] == x;
                if k < s0.len() {
                    assert(s0.contains(x));
                    assert(o0.contains(x));
                    let j = choose|j: int| 0 <= j < o0.len() && o0[j] == x;
                    assert(order[j] == x);
                } else {
                    assert(new[k - s0.len()] == x);
                    assert(st.contains(x));
                    let j = choose|j: int| 0 <= j < st.len() && st[j] == x;
                    assert(order[o0.len() + j] == x);
                }
            }
        }
        assert forall|k: int| 0 <= k < s2.len() implies member(#[trigger] s2[k]) by {
            if k < s0.len() {
                assert(s2[k] == s0[k]);
            }
        }
        assert forall|k: int| 0 <= k < roots.len() implies s2.contains(#[trigger] roots[k]) by {
            if k < r0.len() {
                assert(r0[k] == roots[k]);
                assert(s0.contains(roots[k]));
                let j = choose|j: int| 0 <= j < s0.len() && s0[j] == roots[k];
                assert(s2[j] == roots[k]);
            } else {
                assert(q[0] == roots[k]);
            }
        }
    }
}

/// Inserting by degree adds exactly the inserted neuron.
pub proof fn lemma_insert_by_degree_contains(links: Seq<Link>, sorted: Seq<usize>, x: usize)
    ensures
        forall|y: usize| (#[trigger] insert_by_degree(links, sorted, x).contains(y)) == (sorted.contains(y) || y == x),
    decreases sorted.len(),
{
    if sorted.len() > 0 {
        lemma_insert_by_degree_contains(links, sorted.drop_last(), x);
    }
    assert forall|y: usize| (#[trigger] insert_by_degree(links, sorted, x).contains(y)) == (sorted.contains(y) || y == x) by {
        let r = insert_by_degree(links, sorted, x);
        if sorted.len() == 0 {
            assert(r == seq![x]);
            if r.contains(y) {
                assert(r[0] == y);
            }
            if y == x {
                assert(r[0] == x);
            }
        } else if out_degree(links, sorted.last()) <= out_degree(links, x) {
            assert(r == sorted.push(x));
            if r.contains(y) && y != x {
                let k = choose|k: int| 0 <= k < r.len() && r[k] == y;
                assert(sorted[k] == y);
            }
            if sorted.contains(y) {
                let k = choose|k: int| 0 <= k < sorted.len() && sorted[k] == y;
                assert(r[k] == y);
            }
            if y == x {
                assert(r[sorted.len() as int] == x);
            }
        } else {
            let r0 = insert_by_degree(links, sorted.drop_last(), x);
            assert(r == r0.push(sorted.last()));
            assert(r0.contains(y) == (sorted.drop_last().contains(y) || y == x));
            if r.contains(y) {
                let k = choose|k: int| 0 <= k < r.len() && r[k] == y;
                if k < r0.len() {
                    assert(r0[k] == y);
                    if sorted.drop_last().contains(y) {
                        let j = choose|j: int| 0 <= j < sorted.drop_last().len() && sorted.drop_last()[j] == y;
                        assert(sorted[j] == y);
                    }
                } else {
                    assert(sorted[sorted.len() - 1] == y);
                }
            }
            if sorted.contains(y) {
                let k = choose|k: int| 0 <= k < sorted.len() && sorted[k] == y;
                if k < sorted.len() - 1 {
                    assert(sorted.drop_last()[k] == y);
                    assert(r0.contains(y));
                    let j = choose|j: int| 0 <= j < r0.len() && r0[j] == y;
                    assert(r[j] == y);
                } else {
                    assert(r[r0.len() as int] == y);
                }
            }
            if y == x {
                assert(r0.contains(x));
                let j = choose|j: int| 0 <= j < r0.len() && r0[j] == x;
                assert(r[j] == x);
            }
        }
    }
}

/// Sorting by degree keeps exactly the neurons sorted.
pub proof fn lemma_sort_by_degree_contains(links: Seq<Link>, ids: Seq<usize>)
    ensures
        forall|y: usize| (#[trigger] sort_by_degree(links, ids).contains(y)) == ids.contains(y),
    decreases ids.len(),
{
    if ids.len() > 0 {
        lemma_sort_by_degree_contains(links, ids.drop_last());
        lemma_insert_by_degree_contains(links, sort_by_degree(links, ids.drop_last()), ids.last());
        assert forall|y: usize| (#[trigger] sort_by_degree(links, ids).contains(y)) == ids.contains(y) by {
            if ids.contains(y) {
                let k = choose|k: int| 0 <= k < ids.len() && ids[k] == y;
                if k < ids.len() - 1 {
                    assert(ids.drop_last()[k] == y);
                }
            }
            if ids.drop_last().contains(y) {
                let k = choose|k: int| 0 <= k < ids.drop_last().len() && ids.drop_last()[k] == y;
                assert(ids[k] == y);
            }
        }
    }
}

/// The number of links whose target is not among `seen`.
pub open spec fn unseen_targets(links: Seq<Link>, seen: Seq<usize>) -> nat
    decreases links.len(),
{
    if links.len() == 0 {
        0
    } else {
        unseen_targets(links.drop_last(), seen) + (if seen.contains(links.last().to) { 0nat } else { 1nat })
    }
}

/// Seeing more neurons never raises the count of unseen targets, and seeing
/// a new target lowers it.
pub proof fn lemma_unseen_targets_shrink(links: Seq<Link>, seen: Seq<usize>, x: usize)
    ensures
        unseen_targets(links, seen.push(x)) <= unseen_targets(links, seen),
        !seen.contains(x) && is_target(links, x)
            ==> unseen_targets(links, seen.push(x)) < unseen_targets(links, seen),
    decreases links.len(),
{
    if links.len() > 0 {
        lemma_unseen_targets_shrink(links.drop_last(), seen, x);
        let t = links.last().to;
        assert(seen.contains(t) ==> seen.push(x).contains(t)) by {
            if seen.contains(t) {
                let j = choose|j: int| 0 <= j < seen.len() && seen[j] == t;
                assert(seen.push(x)[j] == t);
            }
        }
        assert(!seen.contains(t) && t != x ==> !seen.push(x).contains(t)) by {
            if !seen.contains(t) && t != x && seen.push(x).contains(t) {
                let j = choose|j: int| 0 <= j < seen.len() + 1 && seen.push(x)[j] == t;
                assert(j < seen.len());
                assert(seen[j] == t);
            }
        }
        assert(seen.push(x).contains(x)) by {
            assert(seen.push(x)[seen.len() as int] == x);
        }
        if !seen.contains(x) && is_target(links, x) {
            let i = choose|i: int| #![trigger links[i]] 0 <= i < links.len() && links[i].to == x;
            if i < links.len() - 1 {
                assert(links.drop_last()[i].to == x);
            }
        }
    }
}

} // verus!
