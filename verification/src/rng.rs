use vstd::prelude::*;
use rand::seq::IndexedRandom;
use rand::seq::SliceRandom;

verus! {

/// Calls `rand::random_range(0..len)`: a number drawn uniformly from
/// `0..len` by the thread-local generator. The source panics on an empty
/// range, hence `len > 0`; which number comes out is chance, so the
/// contract says only that it lies in the range.
#[verifier::external_body]
pub(crate) fn random_below(len: usize) -> (i: usize)
    requires
        len > 0,
    ensures
        i < len,
{
    rand::random_range(0..len)
}

/// Calls `IndexedRandom::choose` on the items with the thread-local
/// generator: `None` for an empty slice, else one of the items, drawn
/// uniformly. Which item is chance; the contract says only that it is one
/// of them.
#[verifier::external_body]
pub(crate) fn choose_item(items: &Vec<usize>) -> (r: Option<usize>)
    ensures
        items.len() == 0 <==> r is None,
        r matches Some(v) ==> items@.contains(v),
{
    items.as_slice().choose(&mut rand::rng()).copied()
}

/// `p` lists each of the positions `0..n` exactly once.
pub open spec fn is_permutation(p: Seq<int>, n: int) -> bool {
    &&& p.len() == n
    &&& forall|k: int| 0 <= k < n ==> 0 <= #[trigger] p[k] < n
    &&& p.no_duplicates()
    &&& forall|a: int| 0 <= a < n ==> #[trigger] p.contains(a)
}

/// `b` holds the items of `a`, each once, in some order.
pub open spec fn rearranged<T>(a: Seq<T>, b: Seq<T>) -> bool {
    exists|p: Seq<int>|
        is_permutation(p, a.len() as int) && b.len() == a.len() && forall|k: int| 0 <= k < b.len() ==> #[trigger] b[k] == a[p[k]]
}

/// Calls `SliceRandom::shuffle` on the items with the thread-local
/// generator, which puts them in an order drawn at random. The contract
/// says that the result is a rearrangement of the items; which one is
/// chance.
#[verifier::external_body]
pub(crate) fn shuffle_in_place<T>(v: &mut Vec<T>)
    ensures
        rearranged(old(v)@, final(v)@),
{
    v.as_mut_slice().shuffle(&mut rand::rng());
}

} // verus!
