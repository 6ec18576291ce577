//! Construction of the similarity graph from a list of catalog entries.

use vstd::prelude::*;
use crate::movie::Movie;
use crate::score::{
    SCALE, naturals, total, lemma_total_take, lemma_total_bounds, lemma_total_zero,
};
use crate::similarity::{similarity, calculate_similarity};
use crate::graph::{
    Graph, NodeView, EdgeView, edge_views, put, weight_sum, normalized, distinct_titles, has_title,
    as_map, lemma_put_keeps_distinct, lemma_put_is_insert,
};

verus! {

/// Whether entry `j` is kept as a neighbour of entry `i`.
pub open spec fn qualifies(items: Seq<Movie>, i: int, j: int, threshold: nat) -> bool {
    j != i && similarity(items[i], items[j]) >= threshold
}

/// The neighbours of entry `i` among the first `n` entries, in ascending order.
pub open spec fn neighbours(items: Seq<Movie>, i: int, threshold: nat, n: int) -> Seq<int>
    decreases n,
{
    if n <= 0 {
        Seq::empty()
    } else if qualifies(items, i, n - 1, threshold) {
        neighbours(items, i, threshold, n - 1).push(n - 1)
    } else {
        neighbours(items, i, threshold, n - 1)
    }
}

/// The part of one whole unit that falls to the weight at position `k` when
/// the unit is divided in proportion to `weights`. The parts are the steps of
/// the rounded-down running total, so that together they make exactly one
/// whole unit.
pub open spec fn share(weights: Seq<nat>, k: int) -> nat {
    let all = total(weights) as int;
    (total(weights.take(k + 1)) * SCALE / all - total(weights.take(k)) * SCALE / all) as nat
}

/// The sum of the shares of the first `k` weights.
pub open spec fn share_sum(weights: Seq<nat>, k: int) -> nat
    decreases k,
{
    if k <= 0 {
        0
    } else {
        share_sum(weights, k - 1) + share(weights, k - 1)
    }
}

/// The similarities of entry `i` to the entries listed in `picked`.
pub open spec fn raw_weights(items: Seq<Movie>, i: int, picked: Seq<int>) -> Seq<nat> {
    Seq::new(picked.len(), |k: int| similarity(items[i], items[picked[k]]))
}

/// The outgoing edges of entry `i`: one edge to each neighbour, weighted by
/// the neighbour's share of the similarity that `i` has to all of them; no
/// edge at all where that similarity adds up to zero.
pub open spec fn edges_of(items: Seq<Movie>, i: int, threshold: nat) -> Seq<EdgeView> {
    let picked = neighbours(items, i, threshold, items.len() as int);
    let weights = raw_weights(items, i, picked);
    if total(weights) == 0 {
        Seq::empty()
    } else {
        Seq::new(
            picked.len(),
            |k: int| EdgeView { target: items[picked[k]].title@, weight: share(weights, k) },
        )
    }
}

/// The graph of the first `n` entries: each entry in turn gives its title its
/// edge list, so that of two entries with one title the later one stays.
pub open spec fn graph_upto(items: Seq<Movie>, threshold: nat, n: int) -> Seq<NodeView>
    decreases n,
{
    if n <= 0 {
        Seq::empty()
    } else {
        put(
            graph_upto(items, threshold, n - 1),
            items[n - 1].title@,
            edges_of(items, n - 1, threshold),
        )
    }
}

/// The similarity graph of `items`.
pub open spec fn similarity_graph(items: Seq<Movie>, threshold: nat) -> Seq<NodeView> {
    graph_upto(items, threshold, items.len() as int)
}

/// A list of positions as integers.
pub open spec fn positions(picked: Seq<usize>) -> Seq<int> {
    Seq::new(picked.len(), |k: int| picked[k] as int)
}

/// The outgoing edges of entry `i`.
fn node_edges(movies: &Vec<Movie>, i: usize, threshold: u64) -> (edges: Vec<(String, u64)>)
    requires
        i < movies.len(),
    ensures
        edge_views(edges@) == edges_of(movies@, i as int, threshold as nat),
{
    let n = movies.len();
    let mut picked: Vec<usize> = Vec::new();
    let mut scores: Vec<u64> = Vec::new();
    let mut sum: u128 = 0;
    let mut j: usize = 0;
    assert(positions(picked@) =~= neighbours(movies@, i as int, threshold as nat, 0));
    assert(naturals(scores@) =~= raw_weights(movies@, i as int, positions(picked@)));
    while j < n
        invariant
            j <= n == movies.len(),
            i < n,
            picked.len() == scores.len(),
            picked.len() <= j,
            positions(picked@) == neighbours(movies@, i as int, threshold as nat, j as int),
            naturals(scores@) == raw_weights(movies@, i as int, positions(picked@)),
            sum == total(naturals(scores@)),
            sum <= picked.len() * SCALE,
            forall|k: int| 0 <= k < picked.len() ==> picked[k] < n,
            forall|k: int| 0 <= k < scores.len() ==> scores[k] <= SCALE,
        decreases n - j,
    {
        if j != i {
            let score = calculate_similarity(&movies[i], &movies[j]);
            if score >= threshold {
                let ghost old_picked = positions(picked@);
                let ghost old_scores = naturals(scores@);
                picked.push(j);
                scores.push(score);
                assert(sum + score <= picked.len() * SCALE) by (nonlinear_arith)
                    requires
                        sum <= (picked.len() - 1) * SCALE,
                        score <= SCALE,
                ;
                sum = sum + score as u128;
                proof {
                    assert(positions(picked@) =~= old_picked.push(j as int));
                    assert(naturals(scores@) =~= old_scores.push(score as nat));
                    assert(naturals(scores@).drop_last() =~= old_scores);
                    assert(naturals(scores@) =~= raw_weights(
                        movies@,
                        i as int,
                        positions(picked@),
                    ));
                }
            }
        }
        j += 1;
    }
    let mut edges: Vec<(String, u64)> = Vec::new();
    if sum == 0 {
        assert(edge_views(edges@) =~= edges_of(movies@, i as int, threshold as nat));
        return edges;
    }
    let ghost weights = naturals(scores@);
    let mut running: u128 = 0;
    let mut reached: u128 = 0;
    let mut k: usize = 0;
    assert(weights.take(0) =~= Seq::<nat>::empty());
    while k < picked.len()
        invariant
            k <= picked.len() == scores.len(),
            n == movies.len(),
            i < n,
            weights == naturals(scores@),
            weights == raw_weights(movies@, i as int, positions(picked@)),
            positions(picked@) == neighbours(movies@, i as int, threshold as nat, n as int),
            sum == total(weights),
            sum > 0,
            sum <= picked.len() * SCALE,
            forall|m: int| 0 <= m < picked.len() ==> picked[m] < n,
            forall|m: int| 0 <= m < scores.len() ==> scores[m] <= SCALE,
            running == total(weights.take(k as int)),
            reached == running * SCALE / (sum as int),
            edges.len() == k,
            forall|m: int|
                0 <= m < k ==> (#[trigger] edges[m]).0@ == movies[picked[m] as int].title@
                    && edges[m].1 == share(weights, m),
        decreases picked.len() - k,
    {
        proof {
            lemma_total_take(weights, k as int);
            lemma_total_bounds(weights, k as int + 1, SCALE as nat);
        }
        let grown: u128 = running + scores[k] as u128;
        assert(grown * SCALE <= u128::MAX && grown * SCALE / (sum as int) <= SCALE && running
            * SCALE / (sum as int) <= grown * SCALE / (sum as int)) by (nonlinear_arith)
            requires
                running <= grown <= sum,
                0 < sum <= picked.len() * SCALE,
                picked.len() <= usize::MAX,
                usize::MAX <= u64::MAX,
                SCALE == 1_000_000_000,
        ;
        let next: u128 = grown * (SCALE as u128) / sum;
        let weight: u64 = (next - reached) as u64;
        let target = movies[picked[k]].title.clone();
        edges.push((target, weight));
        running = grown;
        reached = next;
        k += 1;
    }
    assert(edge_views(edges@) =~= edges_of(movies@, i as int, threshold as nat));
    edges
}

/// Builds the similarity graph of `movies`: every entry becomes a node under
/// its title, with one edge to each other entry whose combined similarity
/// reaches `threshold`, and the weights of a node's edges divide one whole
/// unit in proportion to those similarities.
pub fn build_graph(movies: &Vec<Movie>, threshold: u64) -> (graph: Graph)
    ensures
        graph@ == similarity_graph(movies@, threshold as nat),
        normalized(graph@),
{
    proof {
        lemma_graph_is_normalized(movies@, threshold as nat);
    }
    let mut graph = Graph::new();
    let mut i: usize = 0;
    while i < movies.len()
        invariant
            i <= movies.len(),
            graph@ == graph_upto(movies@, threshold as nat, i as int),
        decreases movies.len() - i,
    {
        let edges = node_edges(movies, i, threshold);
        graph.insert(movies[i].title.clone(), edges);
        i += 1;
    }
    graph
}

/// The neighbours of an entry are exactly the other entries that qualify.
pub proof fn lemma_neighbours(items: Seq<Movie>, i: int, threshold: nat, n: int)
    requires
        0 <= n,
    ensures
        forall|k: int|
            0 <= k < neighbours(items, i, threshold, n).len() ==> {
                let j = #[trigger] neighbours(items, i, threshold, n)[k];
                0 <= j < n && qualifies(items, i, j, threshold)
            },
        forall|j: int|
            0 <= j < n && qualifies(items, i, j, threshold) ==> neighbours(
                items,
                i,
                threshold,
                n,
            ).contains(j),
        neighbours(items, i, threshold, n).len() <= n,
    decreases n,
{
    if n > 0 {
        lemma_neighbours(items, i, threshold, n - 1);
        let before = neighbours(items, i, threshold, n - 1);
        let now = neighbours(items, i, threshold, n);
        if qualifies(items, i, n - 1, threshold) {
            assert(now[before.len() as int] == n - 1);
        }
        assert forall|j: int| 0 <= j < n && qualifies(items, i, j, threshold) implies now.contains(
            j,
        ) by {
            if j < n - 1 {
                let k = choose|k: int| 0 <= k < before.len() && before[k] == j;
                assert(now[k] == j);
            }
        }
    }
}

/// The shares of the first `k` weights add up to the rounded-down part of one
/// whole unit that their total makes of the whole total.
proof fn lemma_shares_telescope(weights: Seq<nat>, k: int)
    requires
        total(weights) > 0,
        0 <= k <= weights.len(),
    ensures
        share_sum(weights, k) == total(weights.take(k)) * SCALE / (total(weights) as int),
    decreases k,
{
    let all = total(weights) as int;
    if k == 0 {
        assert(weights.take(0) =~= Seq::<nat>::empty());
        assert(0 * SCALE / all == 0) by (nonlinear_arith)
            requires
                all > 0,
        ;
    } else {
        lemma_shares_telescope(weights, k - 1);
        lemma_total_take(weights, k - 1);
        let low = total(weights.take(k - 1));
        let high = total(weights.take(k));
        assert(low * SCALE / all <= high * SCALE / all) by (nonlinear_arith)
            requires
                low <= high,
                all > 0,
        ;
    }
}

/// The shares of a list of weights with a total above zero add up to exactly
/// one whole unit.
pub proof fn lemma_shares_sum_to_one(weights: Seq<nat>)
    requires
        total(weights) > 0,
    ensures
        share_sum(weights, weights.len() as int) == SCALE,
{
    lemma_shares_telescope(weights, weights.len() as int);
    assert(weights.take(weights.len() as int) =~= weights);
    let all = total(weights) as int;
    assert(all * SCALE / all == SCALE) by (nonlinear_arith)
        requires
            all > 0,
    ;
}

/// Each share is the exact quotient of its weight by the total, rounded down
/// or up to a whole billionth.
pub proof fn lemma_share_is_rounded_quotient(weights: Seq<nat>, k: int)
    requires
        total(weights) > 0,
        0 <= k < weights.len(),
    ensures
        weights[k] * SCALE / (total(weights) as int) <= share(weights, k) <= weights[k] * SCALE / (
        total(weights) as int) + 1,
{
    lemma_total_take(weights, k);
    let all = total(weights) as int;
    let low = total(weights.take(k)) * SCALE;
    let step = weights[k] * SCALE;
    let a = total(weights.take(k));
    let b = weights[k];
    assert((a + b) * SCALE == a * SCALE + b * SCALE) by (nonlinear_arith);
    assert(step / all <= (low + step) / all - low / all <= step / all + 1) by (nonlinear_arith)
        requires
            all > 0,
            low >= 0,
            step >= 0,
    ;
}

/// The outgoing weights of an entry that has edges add up to exactly one
/// whole unit.
pub proof fn lemma_edges_sum_to_one(items: Seq<Movie>, i: int, threshold: nat)
    ensures
        edges_of(items, i, threshold).len() == 0 || weight_sum(edges_of(items, i, threshold))
            == SCALE,
{
    let picked = neighbours(items, i, threshold, items.len() as int);
    let weights = raw_weights(items, i, picked);
    let edges = edges_of(items, i, threshold);
    if total(weights) > 0 {
        lemma_shares_sum_to_one(weights);
        lemma_weight_sum_is_share_sum(edges, weights, edges.len() as int);
        assert(edges.take(edges.len() as int) =~= edges);
    }
}

proof fn lemma_weight_sum_is_share_sum(edges: Seq<EdgeView>, weights: Seq<nat>, k: int)
    requires
        0 <= k <= edges.len(),
        forall|m: int| 0 <= m < edges.len() ==> (#[trigger] edges[m]).weight == share(weights, m),
    ensures
        weight_sum(edges.take(k)) == share_sum(weights, k),
    decreases k,
{
    if k > 0 {
        lemma_weight_sum_is_share_sum(edges, weights, k - 1);
        assert(edges.take(k).drop_last() =~= edges.take(k - 1));
        assert(edges.take(k).last() == edges[k - 1]);
    }
}

/// An entry has no outgoing edge exactly when every other entry is either
/// below the threshold or not similar to it at all.
pub proof fn lemma_no_edges_iff(items: Seq<Movie>, i: int, threshold: nat)
    ensures
        edges_of(items, i, threshold).len() == 0 <==> forall|j: int|
            0 <= j < items.len() && j != i ==> similarity(items[i], items[j]) < threshold
                || similarity(items[i], items[j]) == 0,
{
    let n = items.len() as int;
    let picked = neighbours(items, i, threshold, n);
    let weights = raw_weights(items, i, picked);
    lemma_neighbours(items, i, threshold, n);
    lemma_total_zero(weights);
    if edges_of(items, i, threshold).len() == 0 {
        assert forall|j: int| 0 <= j < n && j != i implies similarity(items[i], items[j])
            < threshold || similarity(items[i], items[j]) == 0 by {
            if qualifies(items, i, j, threshold) {
                let k = choose|k: int| 0 <= k < picked.len() && picked[k] == j;
                assert(weights[k] == similarity(items[i], items[j]));
                if total(weights) != 0 {
                    assert(edges_of(items, i, threshold).len() == picked.len());
                }
            }
        }
    } else {
        let k = choose|k: int| 0 <= k < weights.len() && weights[k] != 0;
        let j = picked[k];
        assert(0 <= j < n && qualifies(items, i, j, threshold));
        assert(weights[k] == similarity(items[i], items[j]));
    }
}

/// An entry that is not similar to any other entry has no outgoing edge,
/// whatever the threshold and however similar the other entries are to each
/// other.
pub proof fn lemma_isolated_entry_has_no_edges(items: Seq<Movie>, i: int, threshold: nat)
    requires
        forall|j: int| 0 <= j < items.len() && j != i ==> similarity(items[i], items[j]) == 0,
    ensures
        edges_of(items, i, threshold).len() == 0,
{
    lemma_no_edges_iff(items, i, threshold);
}

/// The graph of the first `n` entries has distinct titles, is normalized, and
/// carries exactly the titles of those entries.
pub proof fn lemma_graph_upto(items: Seq<Movie>, threshold: nat, n: int)
    requires
        0 <= n <= items.len(),
    ensures
        distinct_titles(graph_upto(items, threshold, n)),
        normalized(graph_upto(items, threshold, n)),
        forall|title: Seq<char>|
            has_title(graph_upto(items, threshold, n), title) <==> exists|j: int|
                0 <= j < n && (#[trigger] items[j]).title@ == title,
    decreases n,
{
    if n > 0 {
        let before = graph_upto(items, threshold, n - 1);
        let title = items[n - 1].title@;
        let edges = edges_of(items, n - 1, threshold);
        let now = graph_upto(items, threshold, n);
        lemma_graph_upto(items, threshold, n - 1);
        lemma_put_keeps_distinct(before, title, edges);
        lemma_put_is_insert(before, title, edges);
        lemma_edges_sum_to_one(items, n - 1, threshold);
        assert(normalized(now)) by {
            assert forall|k: int| 0 <= k < now.len() implies (#[trigger] now[k]).edges.len() == 0
                || weight_sum(now[k].edges) == SCALE by {
                if now[k].edges != edges {
                    assert(now[k] == before[k]);
                }
            }
        }
        assert forall|t: Seq<char>| has_title(now, t) <==> exists|j: int|
            0 <= j < n && (#[trigger] items[j]).title@ == t by {
            assert(has_title(now, t) <==> as_map(now).dom().contains(t));
            assert(has_title(before, t) <==> as_map(before).dom().contains(t));
            if has_title(now, t) {
                if t == title {
                    assert(items[n - 1].title@ == t);
                } else {
                    let j = choose|j: int| 0 <= j < n - 1 && (#[trigger] items[j]).title@ == t;
                    assert(0 <= j < n && items[j].title@ == t);
                }
            }
            if exists|j: int| 0 <= j < n && (#[trigger] items[j]).title@ == t {
                let j = choose|j: int| 0 <= j < n && (#[trigger] items[j]).title@ == t;
                if j < n - 1 {
                    assert(0 <= j < n - 1 && items[j].title@ == t);
                }
            }
        }
    } else {
        assert forall|t: Seq<char>| !has_title(graph_upto(items, threshold, n), t) by {}
    }
}

/// Every node of a similarity graph either has no outgoing edge or spreads
/// exactly one whole unit over its outgoing edges.
pub proof fn lemma_graph_is_normalized(items: Seq<Movie>, threshold: nat)
    ensures
        normalized(similarity_graph(items, threshold)),
        distinct_titles(similarity_graph(items, threshold)),
{
    lemma_graph_upto(items, threshold, items.len() as int);
}

/// The nodes of a similarity graph are the titles of the entries.
pub proof fn lemma_graph_titles(items: Seq<Movie>, threshold: nat, title: Seq<char>)
    ensures
        as_map(similarity_graph(items, threshold)).dom().contains(title) <==> exists|j: int|
            0 <= j < items.len() && (#[trigger] items[j]).title@ == title,
{
    lemma_graph_upto(items, threshold, items.len() as int);
}

/// Under its title a similarity graph holds the edge list of the last entry
/// that carries the title.
pub proof fn lemma_graph_lookup(items: Seq<Movie>, threshold: nat, i: int)
    requires
        0 <= i < items.len(),
        forall|j: int| i < j < items.len() ==> items[j].title@ != items[i].title@,
    ensures
        as_map(similarity_graph(items, threshold)).dom().contains(items[i].title@),
        as_map(similarity_graph(items, threshold))[items[i].title@] == edges_of(
            items,
            i,
            threshold,
        ),
{
    lemma_graph_lookup_upto(items, threshold, i, items.len() as int);
}

proof fn lemma_graph_lookup_upto(items: Seq<Movie>, threshold: nat, i: int, n: int)
    requires
        0 <= i < n <= items.len(),
        forall|j: int| i < j < n ==> items[j].title@ != items[i].title@,
    ensures
        as_map(graph_upto(items, threshold, n)).dom().contains(items[i].title@),
        as_map(graph_upto(items, threshold, n))[items[i].title@] == edges_of(items, i, threshold),
    decreases n,
{
    let before = graph_upto(items, threshold, n - 1);
    lemma_graph_upto(items, threshold, n - 1);
    lemma_put_is_insert(before, items[n - 1].title@, edges_of(items, n - 1, threshold));
    if i < n - 1 {
        lemma_graph_lookup_upto(items, threshold, i, n - 1);
    }
}

/// Building is repeatable: two graphs built from the same entries with the
/// same threshold have the same nodes in the same order, each with the same
/// edges and weights.
pub proof fn lemma_build_graph_is_repeatable(
    first: Seq<NodeView>,
    second: Seq<NodeView>,
    items: Seq<Movie>,
    threshold: nat,
)
    requires
        first == similarity_graph(items, threshold),
        second == similarity_graph(items, threshold),
    ensures
        first == second,
        as_map(first) == as_map(second),
{
}

} // verus!
