//! Conservation of rank: a round of the iteration never creates rank, and
//! where every node passes all its rank on to nodes of the graph it loses
//! none either.

use vstd::prelude::*;
use crate::score::{
    SCALE, total, portion_sum, even_part, even_sum, lemma_total_take, lemma_portions_telescope,
    lemma_even_parts_telescope,
};
use crate::graph::{NodeView, EdgeView, distinct_titles, has_title, weight_sum, normalized};
use crate::rank::{
    CEILING, flow_along, inflow, injection, sending, outflows, edge_weights, carried, capped, step,
    ranks_after,
};

verus! {

/// No node gives out more than one whole unit over its outgoing edges.
pub open spec fn bounded_outflow(nodes: Seq<NodeView>) -> bool {
    forall|u: int| 0 <= u < nodes.len() ==> weight_sum((#[trigger] nodes[u]).edges) <= SCALE
}

/// Every node gives out exactly one whole unit over its outgoing edges, and
/// every edge points to a node of the graph.
pub open spec fn conserving(nodes: Seq<NodeView>) -> bool {
    &&& forall|u: int| 0 <= u < nodes.len() ==> weight_sum((#[trigger] nodes[u]).edges) == SCALE
    &&& forall|u: int, k: int|
        0 <= u < nodes.len() && 0 <= k < nodes[u].edges.len() ==> has_title(
            nodes,
            (#[trigger] nodes[u].edges[k]).target,
        )
}

/// What the first `m` nodes receive when `amount` is sent to the title `to`.
spec fn hit_sum(nodes: Seq<NodeView>, to: Seq<char>, amount: nat, m: int) -> nat
    decreases m,
{
    if m <= 0 {
        0
    } else if nodes[m - 1].title == to {
        hit_sum(nodes, to, amount, m - 1) + amount
    } else {
        hit_sum(nodes, to, amount, m - 1)
    }
}

/// What the first `m` nodes together receive along the first `upto` edges of
/// a node that gives out `amount`.
spec fn flow_sum(nodes: Seq<NodeView>, edges: Seq<EdgeView>, amount: nat, upto: int, m: int) -> nat
    decreases m,
{
    if m <= 0 {
        0
    } else {
        flow_sum(nodes, edges, amount, upto, m - 1) + flow_along(
            edges,
            amount,
            nodes[m - 1].title,
            upto,
        )
    }
}

/// What the first `m` nodes together receive from the first `upto` nodes.
spec fn inflow_sum(nodes: Seq<NodeView>, outs: Seq<nat>, upto: int, m: int) -> nat
    decreases m,
{
    if m <= 0 {
        0
    } else {
        inflow_sum(nodes, outs, upto, m - 1) + inflow(nodes, outs, nodes[m - 1].title, upto)
    }
}

/// What the edges of the first `upto` nodes carry, wherever they point.
spec fn sent_sum(nodes: Seq<NodeView>, outs: Seq<nat>, upto: int) -> nat
    decreases upto,
{
    if upto <= 0 {
        0
    } else {
        sent_sum(nodes, outs, upto - 1) + portion_sum(
            outs[upto - 1],
            edge_weights(nodes[upto - 1].edges),
            SCALE as nat,
            nodes[upto - 1].edges.len() as int,
        )
    }
}

/// The injection and the inflow of the node at `v`, before the cap.
spec fn raw_rank(nodes: Seq<NodeView>, ranks: Seq<nat>, damping: nat, v: int) -> nat {
    injection(damping, nodes.len(), v) + inflow(
        nodes,
        outflows(nodes, ranks, damping),
        nodes[v].title,
        nodes.len() as int,
    )
}

/// The sum of the weights of an edge list is the total of its weights.
proof fn lemma_weight_sum_is_total(edges: Seq<EdgeView>)
    ensures
        weight_sum(edges) == total(edge_weights(edges)),
    decreases edges.len(),
{
    if edges.len() > 0 {
        lemma_weight_sum_is_total(edges.drop_last());
        assert(edge_weights(edges).drop_last() =~= edge_weights(edges.drop_last()));
    }
}

/// An amount sent to one title reaches at most one node, and exactly one
/// where a node carries the title.
proof fn lemma_hit_sum(nodes: Seq<NodeView>, to: Seq<char>, amount: nat, m: int)
    requires
        distinct_titles(nodes),
        0 <= m <= nodes.len(),
    ensures
        hit_sum(nodes, to, amount, m) <= amount,
        (forall|v: int| 0 <= v < m ==> (#[trigger] nodes[v]).title != to) ==> hit_sum(
            nodes,
            to,
            amount,
            m,
        ) == 0,
        (exists|v: int| 0 <= v < m && (#[trigger] nodes[v]).title == to) ==> hit_sum(
            nodes,
            to,
            amount,
            m,
        ) == amount,
    decreases m,
{
    if m > 0 {
        lemma_hit_sum(nodes, to, amount, m - 1);
        if nodes[m - 1].title == to {
            assert forall|v: int| 0 <= v < m - 1 implies (#[trigger] nodes[v]).title != to by {
                assert(nodes[v].title != nodes[m - 1].title);
            }
        } else if exists|v: int| 0 <= v < m && (#[trigger] nodes[v]).title == to {
            let v = choose|v: int| 0 <= v < m && (#[trigger] nodes[v]).title == to;
            assert(0 <= v < m - 1 && nodes[v].title == to);
        }
    }
}

/// One more edge adds what it carries to what the others carry.
proof fn lemma_flow_sum_unfold(
    nodes: Seq<NodeView>,
    edges: Seq<EdgeView>,
    amount: nat,
    k: int,
    m: int,
)
    requires
        0 <= k < edges.len(),
        0 <= m <= nodes.len(),
    ensures
        flow_sum(nodes, edges, amount, k + 1, m) == flow_sum(nodes, edges, amount, k, m) + hit_sum(
            nodes,
            edges[k].target,
            carried(edges, amount, k),
            m,
        ),
    decreases m,
{
    if m > 0 {
        lemma_flow_sum_unfold(nodes, edges, amount, k, m - 1);
    }
}

/// The nodes receive no more along the edges of a node than the edges carry,
/// and all of it where every edge points to a node.
proof fn lemma_flow_sum(nodes: Seq<NodeView>, edges: Seq<EdgeView>, amount: nat, upto: int)
    requires
        distinct_titles(nodes),
        0 <= upto <= edges.len(),
    ensures
        flow_sum(nodes, edges, amount, upto, nodes.len() as int) <= portion_sum(
            amount,
            edge_weights(edges),
            SCALE as nat,
            upto,
        ),
        (forall|k: int| 0 <= k < edges.len() ==> has_title(nodes, (#[trigger] edges[k]).target))
            ==> flow_sum(nodes, edges, amount, upto, nodes.len() as int) == portion_sum(
            amount,
            edge_weights(edges),
            SCALE as nat,
            upto,
        ),
    decreases upto,
{
    let n = nodes.len() as int;
    if upto == 0 {
        lemma_flow_sum_zero(nodes, edges, amount, n);
    } else {
        lemma_flow_sum(nodes, edges, amount, upto - 1);
        lemma_flow_sum_unfold(nodes, edges, amount, upto - 1, n);
        lemma_hit_sum(nodes, edges[upto - 1].target, carried(edges, amount, upto - 1), n);
        if forall|k: int| 0 <= k < edges.len() ==> has_title(nodes, (#[trigger] edges[k]).target) {
            assert(has_title(nodes, edges[upto - 1].target));
        }
    }
}

proof fn lemma_flow_sum_zero(nodes: Seq<NodeView>, edges: Seq<EdgeView>, amount: nat, m: int)
    ensures
        flow_sum(nodes, edges, amount, 0, m) == 0,
    decreases m,
{
    if m > 0 {
        lemma_flow_sum_zero(nodes, edges, amount, m - 1);
    }
}

/// One more sender adds what it sends to what the others send.
proof fn lemma_inflow_sum_unfold(nodes: Seq<NodeView>, outs: Seq<nat>, upto: int, m: int)
    requires
        0 < upto <= nodes.len(),
        0 <= m <= nodes.len(),
    ensures
        inflow_sum(nodes, outs, upto, m) == inflow_sum(nodes, outs, upto - 1, m) + flow_sum(
            nodes,
            nodes[upto - 1].edges,
            outs[upto - 1],
            nodes[upto - 1].edges.len() as int,
            m,
        ),
    decreases m,
{
    if m > 0 {
        lemma_inflow_sum_unfold(nodes, outs, upto, m - 1);
    }
}

proof fn lemma_inflow_sum_zero(nodes: Seq<NodeView>, outs: Seq<nat>, m: int)
    ensures
        inflow_sum(nodes, outs, 0, m) == 0,
    decreases m,
{
    if m > 0 {
        lemma_inflow_sum_zero(nodes, outs, m - 1);
    }
}

/// The nodes together receive no more than the edges carry, and all of it
/// where every edge points to a node.
proof fn lemma_inflow_sum(nodes: Seq<NodeView>, outs: Seq<nat>, upto: int)
    requires
        distinct_titles(nodes),
        0 <= upto <= nodes.len(),
    ensures
        inflow_sum(nodes, outs, upto, nodes.len() as int) <= sent_sum(nodes, outs, upto),
        conserving(nodes) ==> inflow_sum(nodes, outs, upto, nodes.len() as int) == sent_sum(
            nodes,
            outs,
            upto,
        ),
    decreases upto,
{
    let n = nodes.len() as int;
    if upto == 0 {
        lemma_inflow_sum_zero(nodes, outs, n);
    } else {
        lemma_inflow_sum(nodes, outs, upto - 1);
        lemma_inflow_sum_unfold(nodes, outs, upto, n);
        let edges = nodes[upto - 1].edges;
        lemma_flow_sum(nodes, edges, outs[upto - 1], edges.len() as int);
        if conserving(nodes) {
            assert forall|k: int| 0 <= k < edges.len() implies has_title(
                nodes,
                (#[trigger] edges[k]).target,
            ) by {
                assert(has_title(nodes, nodes[upto - 1].edges[k].target));
            }
        }
    }
}

/// The edges carry no more than the nodes give out where no node's weights
/// exceed one whole unit, and all of it where they make one whole unit.
proof fn lemma_sent_sum(nodes: Seq<NodeView>, ranks: Seq<nat>, damping: nat, upto: int)
    requires
        bounded_outflow(nodes),
        0 <= upto <= nodes.len(),
    ensures
        sent_sum(nodes, outflows(nodes, ranks, damping), upto) <= portion_sum(
            damping,
            sending(nodes, ranks),
            SCALE as nat,
            upto,
        ),
        conserving(nodes) ==> sent_sum(nodes, outflows(nodes, ranks, damping), upto)
            == portion_sum(damping, sending(nodes, ranks), SCALE as nat, upto),
    decreases upto,
{
    if upto > 0 {
        lemma_sent_sum(nodes, ranks, damping, upto - 1);
        let edges = nodes[upto - 1].edges;
        let weights = edge_weights(edges);
        let out = outflows(nodes, ranks, damping)[upto - 1];
        lemma_portions_telescope(out, weights, SCALE as nat, edges.len() as int);
        lemma_weight_sum_is_total(edges);
        assert(weights.take(edges.len() as int) =~= weights);
        let all = total(weights);
        assert(weight_sum(nodes[upto - 1].edges) <= SCALE);
        assert(out as int * all / (SCALE as int) <= out) by (nonlinear_arith)
            requires
                all <= SCALE,
                out >= 0,
                all >= 0,
                SCALE == 1_000_000_000,
        ;
        if conserving(nodes) {
            assert(weight_sum(nodes[upto - 1].edges) == SCALE);
            assert(out as int * all / (SCALE as int) == out) by (nonlinear_arith)
                requires
                    all == SCALE,
                    SCALE == 1_000_000_000,
            ;
        }
    }
}

/// A total does not exceed the total of a list that is at least as large at
/// every place.
proof fn lemma_total_is_monotone(small: Seq<nat>, large: Seq<nat>)
    requires
        small.len() == large.len(),
        forall|k: int| 0 <= k < small.len() ==> small[k] <= large[k],
    ensures
        total(small) <= total(large),
    decreases small.len(),
{
    if small.len() > 0 {
        assert forall|k: int| 0 <= k < small.drop_last().len() implies small.drop_last()[k]
            <= large.drop_last()[k] by {
            assert(small.drop_last()[k] == small[k]);
            assert(large.drop_last()[k] == large[k]);
        }
        lemma_total_is_monotone(small.drop_last(), large.drop_last());
    }
}

/// No term of the sum of the raw ranks exceeds the sum.
proof fn lemma_raw_rank_within_sum(
    nodes: Seq<NodeView>,
    ranks: Seq<nat>,
    damping: nat,
    v: int,
    m: int,
)
    requires
        0 <= v < m <= nodes.len(),
    ensures
        raw_rank(nodes, ranks, damping, v) <= even_sum(
            (SCALE - damping) as nat,
            nodes.len(),
            m,
        ) + inflow_sum(nodes, outflows(nodes, ranks, damping), nodes.len() as int, m),
    decreases m,
{
    if v < m - 1 {
        lemma_raw_rank_within_sum(nodes, ranks, damping, v, m - 1);
    }
}

/// Where the raw ranks together stay within the representable range, the
/// ranks after the round are the raw ranks.
proof fn lemma_step_sum(nodes: Seq<NodeView>, ranks: Seq<nat>, damping: nat, m: int)
    requires
        0 <= m <= nodes.len(),
        even_sum((SCALE - damping) as nat, nodes.len(), nodes.len() as int) + inflow_sum(
            nodes,
            outflows(nodes, ranks, damping),
            nodes.len() as int,
            nodes.len() as int,
        ) <= CEILING,
    ensures
        total(step(nodes, ranks, damping).take(m)) == even_sum(
            (SCALE - damping) as nat,
            nodes.len(),
            m,
        ) + inflow_sum(nodes, outflows(nodes, ranks, damping), nodes.len() as int, m),
    decreases m,
{
    let after = step(nodes, ranks, damping);
    if m == 0 {
        assert(after.take(0) =~= Seq::<nat>::empty());
    } else {
        lemma_step_sum(nodes, ranks, damping, m - 1);
        lemma_total_take(after, m - 1);
        lemma_raw_rank_within_sum(nodes, ranks, damping, m - 1, nodes.len() as int);
        assert(after[m - 1] == capped(raw_rank(nodes, ranks, damping, m - 1)));
    }
}

/// What the ranks add up to after a round, where no node gives out more than
/// one whole unit and the ranks add up to at most one whole unit before it:
/// at most `1 - damping` plus `damping` times what they added up to, and
/// exactly that where every node passes all it gives out on to nodes of the
/// graph.
pub proof fn lemma_mass_after_round(nodes: Seq<NodeView>, ranks: Seq<nat>, damping: nat)
    requires
        distinct_titles(nodes),
        bounded_outflow(nodes),
        nodes.len() > 0,
        ranks.len() == nodes.len(),
        damping <= SCALE,
        total(ranks) <= SCALE,
    ensures
        total(step(nodes, ranks, damping)) <= SCALE - damping + damping as int * total(ranks) / (
        SCALE as int),
        conserving(nodes) ==> total(step(nodes, ranks, damping)) == SCALE - damping
            + damping as int * total(ranks) / (SCALE as int),
        total(step(nodes, ranks, damping)) <= SCALE,
{
    let n = nodes.len() as int;
    let after = step(nodes, ranks, damping);
    let outs = outflows(nodes, ranks, damping);
    let senders = sending(nodes, ranks);
    let base = (SCALE - damping) as nat;
    let mass = total(ranks);
    let sent = total(senders);
    lemma_even_parts_telescope(base, nodes.len(), n);
    lemma_inflow_sum(nodes, outs, n);
    lemma_sent_sum(nodes, ranks, damping, n);
    lemma_portions_telescope(damping, senders, SCALE as nat, n);
    assert(senders.take(n) =~= senders);
    lemma_total_is_monotone(senders, ranks);
    assert(damping as int * sent / (SCALE as int) <= damping as int * mass / (SCALE as int)
        && damping as int * mass / (SCALE as int) <= damping) by (nonlinear_arith)
        requires
            0 <= sent <= mass <= SCALE,
            0 <= damping,
            SCALE == 1_000_000_000,
    ;
    lemma_step_sum(nodes, ranks, damping, n);
    assert(after.take(n) =~= after);
    if conserving(nodes) {
        assert(senders =~= ranks) by {
            assert forall|u: int| 0 <= u < nodes.len() implies senders[u] == ranks[u] by {
                assert(weight_sum(nodes[u].edges) == SCALE);
            }
        }
    }
}

/// A round never creates rank: where no node gives out more than one whole
/// unit and the ranks add up to at most one whole unit, they still do after
/// the round.
pub proof fn lemma_mass_never_grows(nodes: Seq<NodeView>, ranks: Seq<nat>, damping: nat)
    requires
        distinct_titles(nodes),
        bounded_outflow(nodes),
        ranks.len() == nodes.len(),
        damping <= SCALE,
        total(ranks) <= SCALE,
    ensures
        total(step(nodes, ranks, damping)) <= SCALE,
{
    if nodes.len() > 0 {
        lemma_mass_after_round(nodes, ranks, damping);
    } else {
        assert(step(nodes, ranks, damping) =~= Seq::<nat>::empty());
    }
}

/// A round keeps the rank: where every node gives out exactly one whole unit
/// over edges that all point to nodes of the graph, ranks that add up to one
/// whole unit add up to one whole unit after the round.
pub proof fn lemma_mass_is_conserved(nodes: Seq<NodeView>, ranks: Seq<nat>, damping: nat)
    requires
        distinct_titles(nodes),
        conserving(nodes),
        nodes.len() > 0,
        ranks.len() == nodes.len(),
        damping <= SCALE,
        total(ranks) == SCALE,
    ensures
        total(step(nodes, ranks, damping)) == SCALE,
{
    lemma_conserving_is_bounded(nodes);
    lemma_mass_after_round(nodes, ranks, damping);
    assert(damping as int * SCALE as int / (SCALE as int) == damping) by (nonlinear_arith);
}

/// The ranks that the nodes start from add up to exactly one whole unit.
pub proof fn lemma_starting_mass(nodes: Seq<NodeView>, damping: nat)
    requires
        nodes.len() > 0,
    ensures
        total(ranks_after(nodes, damping, 0)) == SCALE,
{
    let start = ranks_after(nodes, damping, 0);
    lemma_total_of_even_parts(start, SCALE as nat, nodes.len(), nodes.len() as int);
    lemma_even_parts_telescope(SCALE as nat, nodes.len(), nodes.len() as int);
    assert(start.take(nodes.len() as int) =~= start);
}

proof fn lemma_total_of_even_parts(parts: Seq<nat>, amount: nat, n: nat, m: int)
    requires
        0 <= m <= parts.len(),
        forall|v: int| 0 <= v < parts.len() ==> parts[v] == even_part(amount, n, v),
    ensures
        total(parts.take(m)) == even_sum(amount, n, m),
    decreases m,
{
    if m == 0 {
        assert(parts.take(0) =~= Seq::<nat>::empty());
    } else {
        lemma_total_of_even_parts(parts, amount, n, m - 1);
        lemma_total_take(parts, m - 1);
    }
}

/// The ranks of a graph in which no node gives out more than one whole unit
/// never add up to more than one whole unit, after any number of rounds.
pub proof fn lemma_ranks_keep_mass(nodes: Seq<NodeView>, damping: nat, rounds: nat)
    requires
        distinct_titles(nodes),
        bounded_outflow(nodes),
        damping <= SCALE,
    ensures
        total(ranks_after(nodes, damping, rounds)) <= SCALE,
        ranks_after(nodes, damping, rounds).len() == nodes.len(),
    decreases rounds,
{
    if rounds == 0 {
        if nodes.len() > 0 {
            lemma_starting_mass(nodes, damping);
        } else {
            assert(ranks_after(nodes, damping, 0) =~= Seq::<nat>::empty());
        }
    } else {
        lemma_ranks_keep_mass(nodes, damping, (rounds - 1) as nat);
        lemma_mass_never_grows(nodes, ranks_after(nodes, damping, (rounds - 1) as nat), damping);
    }
}

/// Rank is conserved: in a graph in which every node gives out exactly one
/// whole unit over edges that all point to nodes of the graph, the ranks add
/// up to exactly one whole unit after any number of rounds.
pub proof fn lemma_ranks_conserve_mass(nodes: Seq<NodeView>, damping: nat, rounds: nat)
    requires
        distinct_titles(nodes),
        conserving(nodes),
        nodes.len() > 0,
        damping <= SCALE,
    ensures
        total(ranks_after(nodes, damping, rounds)) == SCALE,
        ranks_after(nodes, damping, rounds).len() == nodes.len(),
    decreases rounds,
{
    if rounds == 0 {
        lemma_starting_mass(nodes, damping);
    } else {
        lemma_ranks_conserve_mass(nodes, damping, (rounds - 1) as nat);
        lemma_mass_is_conserved(nodes, ranks_after(nodes, damping, (rounds - 1) as nat), damping);
    }
}

/// A graph that conserves rank gives out at most one whole unit at every
/// node.
pub proof fn lemma_conserving_is_bounded(nodes: Seq<NodeView>)
    requires
        conserving(nodes),
    ensures
        bounded_outflow(nodes),
{
    assert forall|u: int| 0 <= u < nodes.len() implies weight_sum((#[trigger] nodes[u]).edges)
        <= SCALE by {
        assert(weight_sum(nodes[u].edges) == SCALE);
    }
}

/// A normalized graph gives out at most one whole unit at every node.
pub proof fn lemma_normalized_is_bounded(nodes: Seq<NodeView>)
    requires
        normalized(nodes),
    ensures
        bounded_outflow(nodes),
{
    assert forall|u: int| 0 <= u < nodes.len() implies weight_sum((#[trigger] nodes[u]).edges)
        <= SCALE by {
        assert(nodes[u].edges.len() == 0 || weight_sum(nodes[u].edges) == SCALE);
    }
}

} // verus!
