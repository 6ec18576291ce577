//! Random sampling of a catalog, to bound the size of the graph that is built
//! from it. The generator is seeded by the caller: nothing here reads ambient
//! randomness.

use vstd::prelude::*;
use rand::SeedableRng;
use crate::movie::Movie;

verus! {

/// Whether `positions` names distinct places in a list of `length` items.
pub open spec fn distinct_positions(positions: Seq<usize>, length: nat) -> bool {
    &&& forall|k: int| 0 <= k < positions.len() ==> positions[k] < length
    &&& forall|i: int, j: int| 0 <= i < j < positions.len() ==> positions[i] != positions[j]
}

/// Whether `chosen` holds the items of `items` at `positions`, in that order.
pub open spec fn selection_of(chosen: Seq<Movie>, items: Seq<Movie>, positions: Seq<usize>) -> bool {
    &&& chosen.len() == positions.len()
    &&& forall|k: int|
        0 <= k < positions.len() ==> positions[k] < items.len() && chosen[k] == items[positions[k] as int]
}

/// Calls `rand::seq::index::sample` with a `rand::rngs::StdRng` that
/// `seed_from_u64` made of `seed`. The function draws exactly `amount`
/// distinct positions below `length`, in random order. It panics where
/// `amount` exceeds `length`, and for a `length` beyond 32 bits it asserts, in
/// a build with debug assertions, that `amount` is below `length`; both are
/// left out here. Which positions come out is not stated: the generator is
/// not reproducible across configurations.
#[verifier::external_body]
fn draw_positions(seed: u64, length: usize, amount: usize) -> (positions: Vec<usize>)
    requires
        amount <= length,
        length <= u32::MAX || amount < length,
    ensures
        positions.len() == amount,
        distinct_positions(positions@, length as nat),
{
    let mut rng = rand::rngs::StdRng::seed_from_u64(seed);
    rand::seq::index::sample(&mut rng, length, amount).into_vec()
}

/// Every position below `length`, in ascending order.
fn all_positions(length: usize) -> (positions: Vec<usize>)
    ensures
        positions.len() == length,
        forall|k: int| 0 <= k < length ==> positions[k] == k,
{
    let mut positions: Vec<usize> = Vec::new();
    let mut k: usize = 0;
    while k < length
        invariant
            k <= length,
            positions.len() == k,
            forall|j: int| 0 <= j < k ==> positions[j] == j,
        decreases length - k,
    {
        positions.push(k);
        k += 1;
    }
    positions
}

/// The entries of `movies` at `positions`, in that order. A position beyond
/// the end of `movies` selects nothing.
pub fn select(movies: &Vec<Movie>, positions: &Vec<usize>) -> (chosen: Vec<Movie>)
    ensures
        selection_of(chosen@, movies@, positions@.filter(|p: usize| p < movies.len())),
{
    let mut chosen: Vec<Movie> = Vec::new();
    let ghost valid = |p: usize| p < movies.len();
    let mut k: usize = 0;
    assert(positions@.take(0) =~= Seq::<usize>::empty());
    proof {
        reveal(Seq::filter);
    }
    while k < positions.len()
        invariant
            k <= positions.len(),
            valid == |p: usize| p < movies.len(),
            selection_of(chosen@, movies@, positions@.take(k as int).filter(valid)),
        decreases positions.len() - k,
    {
        let position = positions[k];
        proof {
            reveal(Seq::filter);
            assert(positions@.take(k as int + 1).drop_last() =~= positions@.take(k as int));
        }
        if position < movies.len() {
            chosen.push(movies[position].duplicate());
        }
        k += 1;
    }
    assert(positions@.take(k as int) =~= positions@);
    chosen
}

/// A random sample of `movies`: `amount` entries from distinct places, or all
/// of them where there are fewer, in random order. A catalog of more than
/// 4_294_967_295 entries that is asked for as a whole comes back in its own
/// order.
pub fn sample_movies(movies: &Vec<Movie>, amount: usize, seed: u64) -> (sample: Vec<Movie>)
    ensures
        sample.len() == if amount <= movies.len() {
            amount
        } else {
            movies.len()
        },
        exists|positions: Seq<usize>|
            distinct_positions(positions, movies.len() as nat) && #[trigger] selection_of(
                sample@,
                movies@,
                positions,
            ),
{
    let wanted: usize = if amount <= movies.len() {
        amount
    } else {
        movies.len()
    };
    let positions = if movies.len() > 0xFFFF_FFFF && wanted == movies.len() {
        all_positions(wanted)
    } else {
        draw_positions(seed, movies.len(), wanted)
    };
    let sample = select(movies, &positions);
    proof {
        lemma_filter_keeps_all(positions@, movies.len());
    }
    sample
}

/// Filtering out the positions beyond `length` keeps a list whose positions
/// are all below it.
proof fn lemma_filter_keeps_all(positions: Seq<usize>, length: usize)
    requires
        forall|k: int| 0 <= k < positions.len() ==> positions[k] < length,
    ensures
        positions.filter(|p: usize| p < length) == positions,
    decreases positions.len(),
{
    reveal(Seq::filter);
    if positions.len() > 0 {
        lemma_filter_keeps_all(positions.drop_last(), length);
        assert(positions.drop_last().push(positions.last()) =~= positions);
    }
}

} // verus!
