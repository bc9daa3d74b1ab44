//! The random number generator used by level generation, and the draws made from it.
use rand::seq::SliceRandom;
use rand::Rng;
use rand::SeedableRng;
use rand_isaac::Isaac64Rng;
use crate::geometry::Coord;
use vstd::prelude::*;

verus! {

/// The `Isaac64Rng` generator of `rand_isaac`, carried through as an opaque value.
#[verifier::external_type_specification]
#[verifier::external_body]
pub struct ExIsaac64Rng(Isaac64Rng);

/// The order in which `SliceRandom::shuffle` leaves `cells` when its generator is a fresh
/// `Isaac64Rng` seeded with `seed` by `seed_from_u64`: a function of the seed and the cells alone.
pub uninterp spec fn seeded_shuffle(seed: u64, cells: Seq<Coord>) -> Seq<Coord>;

/// `rand_isaac::Isaac64Rng::seed_from_u64(seed)`, then `SliceRandom::shuffle` of `cells` with
/// that generator: the cells come out in the order `seeded_shuffle(seed, cells)`, which holds
/// the same cells, each as many times.
#[verifier::external_body]
pub(crate) fn shuffle_seeded(seed: u64, cells: &mut Vec<Coord>)
    ensures
        final(cells)@ == seeded_shuffle(seed, old(cells)@),
        final(cells)@.to_multiset() == old(cells)@.to_multiset(),
        final(cells)@.len() == old(cells)@.len(),
{
    let mut rng = Isaac64Rng::seed_from_u64(seed);
    cells.shuffle(&mut rng)
}

/// `Rng::gen::<u64>` on an `Isaac64Rng`: any `u64`.
#[verifier::external_body]
pub(crate) fn gen_u64(rng: &mut Isaac64Rng) -> u64 {
    rng.gen::<u64>()
}

/// `Rng::gen::<bool>` on an `Isaac64Rng`: either boolean.
#[verifier::external_body]
pub(crate) fn gen_bool(rng: &mut Isaac64Rng) -> bool {
    rng.gen::<bool>()
}

/// `Rng::gen_range(low..high)` for `u32`: a value of the half-open range, which must not be
/// empty (the call panics on an empty range).
#[verifier::external_body]
pub(crate) fn gen_range_u32(rng: &mut Isaac64Rng, low: u32, high: u32) -> (r: u32)
    requires
        low < high,
    ensures
        low <= r < high,
{
    rng.gen_range(low..high)
}

/// `Rng::gen_range(low..high)` for `i32`: a value of the half-open range, which must not be
/// empty (the call panics on an empty range).
#[verifier::external_body]
pub(crate) fn gen_range_i32(rng: &mut Isaac64Rng, low: i32, high: i32) -> (r: i32)
    requires
        low < high,
    ensures
        low <= r < high,
{
    rng.gen_range(low..high)
}

/// `Rng::gen_range(low..high)` for `usize`: a value of the half-open range, which must not be
/// empty (the call panics on an empty range).
#[verifier::external_body]
pub(crate) fn gen_range_usize(rng: &mut Isaac64Rng, low: usize, high: usize) -> (r: usize)
    requires
        low < high,
    ensures
        low <= r < high,
{
    rng.gen_range(low..high)
}

/// `SliceRandom::shuffle`: the vector afterwards holds the same elements, each as many times,
/// in an order that the generator decides.
#[verifier::external_body]
pub(crate) fn shuffle<T>(rng: &mut Isaac64Rng, v: &mut Vec<T>)
    ensures
        final(v)@.to_multiset() == old(v)@.to_multiset(),
        final(v)@.len() == old(v)@.len(),
{
    v.shuffle(rng)
}

/// `SliceRandom::choose`: `None` on an empty vector, and otherwise one of its elements.
#[verifier::external_body]
pub(crate) fn choose_one<T: Copy>(rng: &mut Isaac64Rng, v: &Vec<T>) -> (r: Option<T>)
    ensures
        r is None <==> v@.len() == 0,
        r matches Some(x) ==> v@.contains(x),
{
    v.choose(rng).cloned()
}

/// `idx` lists pairwise distinct positions of `v` holding the elements of `r`, in order.
pub open spec fn selection_indices<T>(r: Seq<T>, v: Seq<T>, idx: Seq<int>) -> bool {
    &&& idx.len() == r.len()
    &&& forall|i: int| 0 <= i < idx.len() ==> 0 <= #[trigger] idx[i] < v.len()
    &&& forall|i: int| 0 <= i < idx.len() ==> r[i] == v[#[trigger] idx[i]]
    &&& forall|i: int, j: int| 0 <= i < j < idx.len() ==> #[trigger] idx[i] != #[trigger] idx[j]
}

/// `r` is made of elements of `v` taken from pairwise distinct positions.
pub open spec fn is_selection<T>(r: Seq<T>, v: Seq<T>) -> bool {
    exists|idx: Seq<int>| #[trigger] selection_indices(r, v, idx)
}

/// `SliceRandom::choose_multiple`: `min(amount, v.len())` elements taken from distinct
/// positions of `v`, in an order that the generator decides.
#[verifier::external_body]
pub(crate) fn choose_multiple<T: Copy>(rng: &mut Isaac64Rng, v: &Vec<T>, amount: usize) -> (r: Vec<T>)
    ensures
        r@.len() == if amount < v@.len() {
            amount as int
        } else {
            v@.len() as int
        },
        is_selection(r@, v@),
{
    v.choose_multiple(rng, amount).cloned().collect()
}

} // verus!
