//! Damped power iteration over a similarity graph.
//!
//! Ranks are fixed-point scores like every other number here. Rank is handed
//! on in whole billionths, and every division hands out the steps of its
//! rounded-down running total, so that rounding moves a billionth from one
//! node to another but never loses one: where every node passes all its
//! rank on to nodes of the graph, the ranks add up to exactly one whole unit
//! after every round. A rank that would exceed the largest representable
//! score stays at that score.

use vstd::prelude::*;
use crate::score::{
    SCALE, naturals, total, portion, even_part, lemma_portion_by_carry, lemma_even_part_by_carry,
};
use crate::mass::{bounded_outflow, conserving, lemma_ranks_keep_mass, lemma_ranks_conserve_mass};
use crate::graph::{
    Graph, NodeView, EdgeView, edge_views, distinct_titles, has_title, index_of,
    lemma_index_of_unique,
};

verus! {

/// The largest representable score.
pub const CEILING: u64 = u64::MAX;

/// The model of one entry of a rank map.
pub struct RankView {
    pub title: Seq<char>,
    pub score: nat,
}

/// The rank that the node at `v` starts from: its even part of one whole
/// unit among `n` nodes.
pub open spec fn uniform_rank(n: nat, v: int) -> nat {
    even_part(SCALE as nat, n, v)
}

/// The rank that the node at `v` receives in every round, whatever its
/// edges: its even part of `1 - damping` among `n` nodes.
pub open spec fn injection(damping: nat, n: nat, v: int) -> nat {
    even_part((SCALE - damping) as nat, n, v)
}

/// The ranks that count for passing on: a node without outgoing edges passes
/// nothing on.
pub open spec fn sending(nodes: Seq<NodeView>, ranks: Seq<nat>) -> Seq<nat> {
    Seq::new(
        nodes.len(),
        |u: int|
            if nodes[u].edges.len() > 0 {
                ranks[u]
            } else {
                0
            },
    )
}

/// What each node gives out in a round: `damping` times its rank, for a node
/// that has outgoing edges.
pub open spec fn outflows(nodes: Seq<NodeView>, ranks: Seq<nat>, damping: nat) -> Seq<nat> {
    Seq::new(nodes.len(), |u: int| portion(damping, sending(nodes, ranks), SCALE as nat, u))
}

/// The weights of an edge list.
pub open spec fn edge_weights(edges: Seq<EdgeView>) -> Seq<nat> {
    Seq::new(edges.len(), |k: int| edges[k].weight)
}

/// What the edge at `k` carries when its node gives out `amount`: `amount`
/// times the weight of the edge.
pub open spec fn carried(edges: Seq<EdgeView>, amount: nat, k: int) -> nat {
    portion(amount, edge_weights(edges), SCALE as nat, k)
}

/// What the first `upto` edges of a node that gives out `amount` carry to the
/// title `to`.
pub open spec fn flow_along(edges: Seq<EdgeView>, amount: nat, to: Seq<char>, upto: int) -> nat
    decreases upto,
{
    if upto <= 0 {
        0
    } else if edges[upto - 1].target == to {
        flow_along(edges, amount, to, upto - 1) + carried(edges, amount, upto - 1)
    } else {
        flow_along(edges, amount, to, upto - 1)
    }
}

/// What the first `upto` nodes, giving out `outs`, together send to the title
/// `to`.
pub open spec fn inflow(nodes: Seq<NodeView>, outs: Seq<nat>, to: Seq<char>, upto: int) -> nat
    decreases upto,
{
    if upto <= 0 {
        0
    } else {
        inflow(nodes, outs, to, upto - 1) + flow_along(
            nodes[upto - 1].edges,
            outs[upto - 1],
            to,
            nodes[upto - 1].edges.len() as int,
        )
    }
}

/// A score kept within the representable range.
pub open spec fn capped(score: nat) -> nat {
    if score > CEILING {
        CEILING as nat
    } else {
        score
    }
}

/// The rank of the node at `v` after one round from the snapshot `ranks`: the
/// injection plus what every node that points to it sends along its edges.
pub open spec fn next_rank(nodes: Seq<NodeView>, ranks: Seq<nat>, damping: nat, v: int) -> nat {
    capped(
        injection(damping, nodes.len(), v) + inflow(
            nodes,
            outflows(nodes, ranks, damping),
            nodes[v].title,
            nodes.len() as int,
        ),
    )
}

/// The ranks of all nodes after one round from the snapshot `ranks`.
pub open spec fn step(nodes: Seq<NodeView>, ranks: Seq<nat>, damping: nat) -> Seq<nat> {
    Seq::new(nodes.len(), |v: int| next_rank(nodes, ranks, damping, v))
}

/// The ranks of all nodes after `rounds` rounds.
pub open spec fn ranks_after(nodes: Seq<NodeView>, damping: nat, rounds: nat) -> Seq<nat>
    decreases rounds,
{
    if rounds == 0 {
        Seq::new(nodes.len(), |v: int| uniform_rank(nodes.len(), v))
    } else {
        step(nodes, ranks_after(nodes, damping, (rounds - 1) as nat), damping)
    }
}

/// The rank map that gives the node at each position the score at that
/// position.
pub open spec fn rank_entries(nodes: Seq<NodeView>, scores: Seq<nat>) -> Seq<RankView> {
    Seq::new(nodes.len(), |v: int| RankView { title: nodes[v].title, score: scores[v] })
}

/// Whether some entry carries `title`.
pub open spec fn is_ranked(entries: Seq<RankView>, title: Seq<char>) -> bool {
    exists|k: int| 0 <= k < entries.len() && #[trigger] entries[k].title == title
}

/// The score of an entry that carries `title`.
pub open spec fn score_of(entries: Seq<RankView>, title: Seq<char>) -> nat {
    entries[choose|k: int| 0 <= k < entries.len() && #[trigger] entries[k].title == title].score
}

/// No title names two entries.
pub open spec fn distinct_entries(entries: Seq<RankView>) -> bool {
    forall|i: int, j: int| 0 <= i < j < entries.len() ==> entries[i].title != entries[j].title
}

/// A map from title to rank, with one entry per node of the graph it was
/// computed for, in the order of the nodes.
pub struct RankMap {
    entries: Vec<(String, u64)>,
}

impl View for RankMap {
    type V = Seq<RankView>;

    closed spec fn view(&self) -> Seq<RankView> {
        Seq::new(
            self.entries.len() as nat,
            |k: int| RankView { title: self.entries[k].0@, score: self.entries[k].1 as nat },
        )
    }
}

impl RankMap {
    #[verifier::type_invariant]
    spec fn titles_are_distinct(self) -> bool {
        distinct_entries(self@)
    }

    /// The number of entries.
    pub fn len(&self) -> (n: usize)
        ensures
            n == self@.len(),
            distinct_entries(self@),
    {
        proof {
            use_type_invariant(self);
        }
        self.entries.len()
    }

    /// The title of the entry at position `i`.
    pub fn title_at(&self, i: usize) -> (title: &String)
        requires
            i < self@.len(),
        ensures
            title@ == self@[i as int].title,
    {
        &self.entries[i].0
    }

    /// The score of the entry at position `i`.
    pub fn score_at(&self, i: usize) -> (score: u64)
        requires
            i < self@.len(),
        ensures
            score == self@[i as int].score,
    {
        self.entries[i].1
    }

    /// All entries, each a title with its score, in the order of the nodes.
    pub fn entries(&self) -> (entries: &Vec<(String, u64)>)
        ensures
            entries.len() == self@.len(),
            forall|k: int|
                0 <= k < entries.len() ==> (#[trigger] entries[k]).0@ == self@[k].title
                    && entries[k].1 == self@[k].score,
    {
        &self.entries
    }

    /// The score under `title`, if there is one.
    pub fn get(&self, title: &str) -> (found: Option<u64>)
        ensures
            found is Some <==> is_ranked(self@, title@),
            found is Some ==> found->0 == score_of(self@, title@),
    {
        proof {
            use_type_invariant(self);
        }
        let key: String = title.to_owned();
        let mut i: usize = 0;
        while i < self.entries.len()
            invariant
                i <= self.entries.len(),
                key@ == title@,
                distinct_entries(self@),
                forall|k: int| 0 <= k < i ==> self@[k].title != title@,
            decreases self.entries.len() - i,
        {
            if self.entries[i].0 == key {
                proof {
                    let k = choose|k: int|
                        0 <= k < self@.len() && #[trigger] self@[k].title == title@;
                    assert(self@[i as int].title == title@);
                    if k < i {
                        assert(self@[k].title != self@[i as int].title);
                    } else if i < k {
                        assert(self@[i as int].title != self@[k].title);
                    }
                }
                return Some(self.entries[i].1);
            }
            i += 1;
        }
        None
    }
}

/// Whether `at` is where an edge to `target` lands: the position of the node
/// that carries the title, or the number of nodes where no node does.
spec fn lands(nodes: Seq<NodeView>, target: Seq<char>, at: int) -> bool {
    if has_title(nodes, target) {
        at == index_of(nodes, target)
    } else {
        at == nodes.len()
    }
}

/// Whether `wiring` gives, for every edge of every node, where it lands.
spec fn wired(nodes: Seq<NodeView>, wiring: Seq<Vec<usize>>) -> bool {
    &&& wiring.len() == nodes.len()
    &&& forall|u: int|
        0 <= u < nodes.len() ==> (#[trigger] wiring[u]).len() == nodes[u].edges.len()
    &&& forall|u: int, k: int|
        0 <= u < nodes.len() && 0 <= k < nodes[u].edges.len() ==> lands(
            nodes,
            nodes[u].edges[k].target,
            #[trigger] wiring[u]@[k] as int,
        )
}

/// An edge adds what it carries to the flow towards the node it lands on,
/// and to no other.
proof fn lemma_edge_step(nodes: Seq<NodeView>, amount: nat, u: int, k: int, at: int, v: int)
    requires
        distinct_titles(nodes),
        0 <= u < nodes.len(),
        0 <= k < nodes[u].edges.len(),
        lands(nodes, nodes[u].edges[k].target, at),
        0 <= v < nodes.len(),
    ensures
        flow_along(nodes[u].edges, amount, nodes[v].title, k + 1) == flow_along(
            nodes[u].edges,
            amount,
            nodes[v].title,
            k,
        ) + if v == at {
            carried(nodes[u].edges, amount, k)
        } else {
            0
        },
{
    let edges = nodes[u].edges;
    lemma_index_of_unique(nodes, v);
    if edges[k].target == nodes[v].title {
        assert(has_title(nodes, edges[k].target));
    } else if v == at {
        assert(has_title(nodes, edges[k].target));
    }
}

/// Where every edge of the graph lands.
fn resolve(graph: &Graph) -> (wiring: Vec<Vec<usize>>)
    ensures
        wired(graph@, wiring@),
{
    let n = graph.len();
    let mut wiring: Vec<Vec<usize>> = Vec::new();
    let mut u: usize = 0;
    while u < n
        invariant
            u <= n == graph@.len(),
            wiring.len() == u,
            forall|a: int| 0 <= a < u ==> (#[trigger] wiring[a]).len() == graph@[a].edges.len(),
            forall|a: int, k: int|
                0 <= a < u && 0 <= k < graph@[a].edges.len() ==> lands(
                    graph@,
                    graph@[a].edges[k].target,
                    #[trigger] wiring[a]@[k] as int,
                ),
        decreases n - u,
    {
        let edges = graph.edges_at(u);
        let mut row: Vec<usize> = Vec::new();
        let mut k: usize = 0;
        while k < edges.len()
            invariant
                k <= edges.len(),
                u < n == graph@.len(),
                edge_views(edges@) == graph@[u as int].edges,
                row.len() == k,
                forall|b: int|
                    0 <= b < k ==> lands(graph@, graph@[u as int].edges[b].target, #[trigger] row[b] as int),
            decreases edges.len() - k,
        {
            assert(edge_views(edges@)[k as int].target == edges[k as int].0@);
            let at: usize = match graph.position(&edges[k].0) {
                Some(i) => i,
                None => n,
            };
            row.push(at);
            k += 1;
        }
        assert(edge_views(edges@).len() == edges.len());
        wiring.push(row);
        u += 1;
    }
    wiring
}

/// The ranks that every node starts from.
fn starting_ranks(n: usize) -> (ranks: Vec<u64>)
    requires
        n > 0,
    ensures
        ranks.len() == n,
        forall|v: int| 0 <= v < n ==> #[trigger] ranks[v] == uniform_rank(n as nat, v),
{
    even_parts(SCALE, n)
}

/// The even parts of `amount` among `n` places.
fn even_parts(amount: u64, n: usize) -> (parts: Vec<u64>)
    requires
        n > 0,
        amount <= SCALE,
    ensures
        parts.len() == n,
        forall|v: int| 0 <= v < n ==> #[trigger] parts[v] == even_part(amount as nat, n as nat, v),
{
    let mut parts: Vec<u64> = Vec::new();
    let mut carry: u128 = 0;
    let mut v: usize = 0;
    assert((amount as int * 0) % (n as int) == 0) by (nonlinear_arith)
        requires
            n > 0,
    ;
    while v < n
        invariant
            v <= n,
            n > 0,
            amount <= SCALE,
            parts.len() == v,
            carry == (amount as int * v as int) % (n as int),
            carry < n,
            forall|a: int|
                0 <= a < v ==> #[trigger] parts[a] == even_part(amount as nat, n as nat, a),
        decreases n - v,
    {
        proof {
            lemma_even_part_by_carry(amount as nat, n as nat, v as int);
        }
        let scaled: u128 = amount as u128 + carry;
        let part: u128 = scaled / (n as u128);
        carry = scaled % (n as u128);
        parts.push(part as u64);
        v += 1;
    }
    parts
}

/// One round of the iteration: the ranks that follow from the snapshot
/// `current`.
fn advance(graph: &Graph, wiring: &Vec<Vec<usize>>, current: &Vec<u64>, damping: u64) -> (next:
    Vec<u64>)
    requires
        wired(graph@, wiring@),
        current.len() == graph@.len(),
        graph@.len() > 0,
        damping <= SCALE,
    ensures
        next.len() == current.len(),
        naturals(next@) == step(graph@, naturals(current@), damping as nat),
{
    let n = graph.len();
    let ghost nodes = graph@;
    let ghost ranks = naturals(current@);
    let ghost senders = sending(nodes, ranks);
    let ghost outs = outflows(nodes, ranks, damping as nat);
    let mut next = even_parts(SCALE - damping, n);
    let mut carry: u128 = 0;
    let mut u: usize = 0;
    proof {
        assert(senders.take(0) =~= Seq::<nat>::empty());
        assert((damping as int * 0) % (SCALE as int) == 0) by (nonlinear_arith);
    }
    while u < n
        invariant
            u <= n == nodes.len(),
            nodes == graph@,
            ranks == naturals(current@),
            senders == sending(nodes, ranks),
            outs == outflows(nodes, ranks, damping as nat),
            current.len() == n,
            damping <= SCALE,
            distinct_titles(nodes),
            wired(nodes, wiring@),
            carry == (damping as int * total(senders.take(u as int))) % (SCALE as int),
            next.len() == n,
            forall|a: int|
                0 <= a < n ==> #[trigger] next[a] == capped(
                    injection(damping as nat, n as nat, a) + inflow(
                        nodes,
                        outs,
                        nodes[a].title,
                        u as int,
                    ),
                ),
        decreases n - u,
    {
        let edges = graph.edges_at(u);
        let row = &wiring[u];
        let send: u64 = if edges.len() > 0 {
            current[u]
        } else {
            0
        };
        proof {
            assert(edge_views(edges@).len() == edges.len());
            assert(senders[u as int] == send);
            lemma_portion_by_carry(damping as nat, senders, SCALE as nat, u as int);
        }
        assert(damping * send + carry <= u128::MAX && (damping * send + carry) / (SCALE as int)
            <= send) by (nonlinear_arith)
            requires
                damping <= SCALE,
                send <= u64::MAX,
                0 <= carry < SCALE,
                SCALE == 1_000_000_000,
        ;
        let scaled: u128 = (damping as u128) * (send as u128) + carry;
        let out: u64 = (scaled / (SCALE as u128)) as u64;
        carry = scaled % (SCALE as u128);
        assert(out == outs[u as int]);
        let ghost weights = edge_weights(nodes[u as int].edges);
        let mut rest: u128 = 0;
        let mut k: usize = 0;
        proof {
            assert(weights.take(0) =~= Seq::<nat>::empty());
            assert((out as int * 0) % (SCALE as int) == 0) by (nonlinear_arith);
        }
        while k < edges.len()
            invariant
                k <= edges.len(),
                u < n == nodes.len(),
                nodes == graph@,
                outs == outflows(nodes, ranks, damping as nat),
                out == outs[u as int],
                distinct_titles(nodes),
                wired(nodes, wiring@),
                row == wiring[u as int],
                edge_views(edges@) == nodes[u as int].edges,
                weights == edge_weights(nodes[u as int].edges),
                rest == (out as int * total(weights.take(k as int))) % (SCALE as int),
                next.len() == n,
                forall|a: int|
                    0 <= a < n ==> #[trigger] next[a] == capped(
                        injection(damping as nat, n as nat, a) + inflow(
                            nodes,
                            outs,
                            nodes[a].title,
                            u as int,
                        ) + flow_along(nodes[u as int].edges, out as nat, nodes[a].title, k as int),
                    ),
            decreases edges.len() - k,
        {
            let at = row[k];
            let weight = edges[k].1;
            proof {
                assert(edge_views(edges@)[k as int].weight == weight);
                assert(weights[k as int] == weight);
                assert(lands(
                    nodes,
                    nodes[u as int].edges[k as int].target,
                    wiring[u as int]@[k as int] as int,
                ));
                lemma_portion_by_carry(out as nat, weights, SCALE as nat, k as int);
                assert forall|a: int| 0 <= a < n implies flow_along(
                    nodes[u as int].edges,
                    out as nat,
                    nodes[a].title,
                    k as int + 1,
                ) == flow_along(nodes[u as int].edges, out as nat, nodes[a].title, k as int)
                    + if a == at {
                    carried(nodes[u as int].edges, out as nat, k as int)
                } else {
                    0
                } by {
                    lemma_edge_step(nodes, out as nat, u as int, k as int, at as int, a);
                }
            }
            assert(out * weight + rest <= u128::MAX) by (nonlinear_arith)
                requires
                    out <= u64::MAX,
                    weight <= u64::MAX,
                    0 <= rest < SCALE,
                    SCALE == 1_000_000_000,
            ;
            let scaled_edge: u128 = (out as u128) * (weight as u128) + rest;
            let part: u128 = scaled_edge / (SCALE as u128);
            rest = scaled_edge % (SCALE as u128);
            assert(part == carried(nodes[u as int].edges, out as nat, k as int));
            if at < n {
                let sum: u128 = next[at] as u128 + part;
                let kept: u64 = if sum > CEILING as u128 {
                    CEILING
                } else {
                    sum as u64
                };
                next.set(at, kept);
            }
            k += 1;
        }
        u += 1;
    }
    assert(naturals(next@) =~= step(nodes, ranks, damping as nat));
    next
}

/// Ranks the nodes of `graph` by `iterations` rounds of damped power
/// iteration. The nodes start with even parts of one whole unit. In every
/// round each node receives its even part of `1 - damping`, and each node
/// that has outgoing edges gives out `damping` times the rank it held the
/// round before, to each target in proportion to the weight of the edge. An
/// edge whose target is not a node of the graph carries its part away.
///
/// Where every node gives out exactly one whole unit over edges that all
/// point to nodes of the graph, the ranks add up to exactly one whole unit
/// after every round. Where no node gives out more than one whole unit, as in
/// every graph that `build_graph` makes, they never add up to more.
pub fn compute_pagerank(graph: &Graph, damping: u64, iterations: usize) -> (ranks: RankMap)
    requires
        damping <= SCALE,
    ensures
        ranks@ == rank_entries(graph@, ranks_after(graph@, damping as nat, iterations as nat)),
        ranks@.len() == graph@.len(),
        forall|v: int| 0 <= v < graph@.len() ==> (#[trigger] ranks@[v]).title == graph@[v].title,
        bounded_outflow(graph@) ==> total(
            ranks_after(graph@, damping as nat, iterations as nat),
        ) <= SCALE,
        conserving(graph@) && graph@.len() > 0 ==> total(
            ranks_after(graph@, damping as nat, iterations as nat),
        ) == SCALE,
{
    let n = graph.len();
    proof {
        if bounded_outflow(graph@) {
            lemma_ranks_keep_mass(graph@, damping as nat, iterations as nat);
        }
        if conserving(graph@) && graph@.len() > 0 {
            lemma_ranks_conserve_mass(graph@, damping as nat, iterations as nat);
        }
    }
    let mut entries: Vec<(String, u64)> = Vec::new();
    if n == 0 {
        let ranks = RankMap { entries };
        assert(ranks@ =~= rank_entries(
            graph@,
            ranks_after(graph@, damping as nat, iterations as nat),
        ));
        return ranks;
    }
    let wiring = resolve(graph);
    let mut current = starting_ranks(n);
    assert(naturals(current@) =~= ranks_after(graph@, damping as nat, 0));
    let mut round: usize = 0;
    while round < iterations
        invariant
            round <= iterations,
            n == graph@.len(),
            n > 0,
            damping <= SCALE,
            wired(graph@, wiring@),
            current.len() == n,
            naturals(current@) == ranks_after(graph@, damping as nat, round as nat),
        decreases iterations - round,
    {
        current = advance(graph, &wiring, &current, damping);
        round += 1;
    }
    let mut v: usize = 0;
    while v < n
        invariant
            v <= n == graph@.len(),
            current.len() == n,
            distinct_titles(graph@),
            entries.len() == v,
            forall|a: int|
                0 <= a < v ==> (#[trigger] entries[a]).0@ == graph@[a].title && entries[a].1
                    == current[a],
        decreases n - v,
    {
        entries.push((graph.title_at(v).clone(), current[v]));
        v += 1;
    }
    let ghost expected = rank_entries(
        graph@,
        ranks_after(graph@, damping as nat, iterations as nat),
    );
    assert(Seq::new(
        entries.len() as nat,
        |k: int| RankView { title: entries[k].0@, score: entries[k].1 as nat },
    ) =~= expected);
    assert(distinct_entries(expected)) by {
        assert forall|i: int, j: int| 0 <= i < j < expected.len() implies expected[i].title
            != expected[j].title by {
            assert(graph@[i].title != graph@[j].title);
        }
    }
    RankMap { entries }
}

/// A node without outgoing edges never passes rank on: two snapshots that
/// differ only in the ranks of such nodes lead to the same next ranks.
pub proof fn lemma_dangling_node_sends_nothing(
    nodes: Seq<NodeView>,
    first: Seq<nat>,
    second: Seq<nat>,
    damping: nat,
)
    requires
        first.len() == nodes.len(),
        second.len() == nodes.len(),
        forall|u: int|
            0 <= u < nodes.len() && (#[trigger] nodes[u]).edges.len() > 0 ==> first[u] == second[u],
    ensures
        step(nodes, first, damping) == step(nodes, second, damping),
{
    assert(sending(nodes, first) =~= sending(nodes, second)) by {
        assert forall|u: int| 0 <= u < nodes.len() implies sending(nodes, first)[u] == sending(
            nodes,
            second,
        )[u] by {
            let sender = nodes[u];
            assert(sender.edges.len() > 0 ==> first[u] == second[u]);
        }
    }
    assert(outflows(nodes, first, damping) =~= outflows(nodes, second, damping));
    assert(step(nodes, first, damping) =~= step(nodes, second, damping));
}

/// In every round every node, with or without edges, receives at least the
/// injection, and the injection is `(1 - damping) / n`, rounded down or up to
/// a whole billionth.
pub proof fn lemma_rank_is_at_least_injection(
    nodes: Seq<NodeView>,
    ranks: Seq<nat>,
    damping: nat,
    v: int,
)
    requires
        damping <= SCALE,
        0 <= v < nodes.len(),
    ensures
        step(nodes, ranks, damping)[v] >= injection(damping, nodes.len(), v),
        (SCALE - damping) / (nodes.len() as int) <= injection(damping, nodes.len(), v) <= (SCALE
            - damping) / (nodes.len() as int) + 1,
{
    lemma_even_part_by_carry((SCALE - damping) as nat, nodes.len(), v);
    let n = nodes.len();
    assert((SCALE - damping) / (n as int) <= SCALE) by (nonlinear_arith)
        requires
            0 <= damping <= SCALE,
            n >= 1,
    ;
}

/// A node that no edge points to holds exactly the injection after every
/// round.
pub proof fn lemma_unreached_node_holds_injection(
    nodes: Seq<NodeView>,
    ranks: Seq<nat>,
    damping: nat,
    v: int,
)
    requires
        damping <= SCALE,
        0 <= v < nodes.len(),
        forall|u: int, k: int|
            0 <= u < nodes.len() && 0 <= k < nodes[u].edges.len() ==> (
            #[trigger] nodes[u].edges[k]).target != nodes[v].title,
    ensures
        step(nodes, ranks, damping)[v] == injection(damping, nodes.len(), v),
{
    let n = nodes.len();
    lemma_no_inflow(nodes, outflows(nodes, ranks, damping), nodes[v].title, n as int);
    lemma_rank_is_at_least_injection(nodes, ranks, damping, v);
}

proof fn lemma_no_flow(edges: Seq<EdgeView>, amount: nat, to: Seq<char>, upto: int)
    requires
        0 <= upto <= edges.len(),
        forall|k: int| 0 <= k < edges.len() ==> (#[trigger] edges[k]).target != to,
    ensures
        flow_along(edges, amount, to, upto) == 0,
    decreases upto,
{
    if upto > 0 {
        lemma_no_flow(edges, amount, to, upto - 1);
    }
}

proof fn lemma_no_inflow(nodes: Seq<NodeView>, outs: Seq<nat>, to: Seq<char>, upto: int)
    requires
        0 <= upto <= nodes.len(),
        forall|u: int, k: int|
            0 <= u < nodes.len() && 0 <= k < nodes[u].edges.len() ==> (
            #[trigger] nodes[u].edges[k]).target != to,
    ensures
        inflow(nodes, outs, to, upto) == 0,
    decreases upto,
{
    if upto > 0 {
        lemma_no_inflow(nodes, outs, to, upto - 1);
        lemma_no_flow(
            nodes[upto - 1].edges,
            outs[upto - 1],
            to,
            nodes[upto - 1].edges.len() as int,
        );
    }
}

/// Ranking is repeatable: two rank maps computed for the same graph with the
/// same damping and the same number of rounds have the same entries in the
/// same order.
pub proof fn lemma_compute_pagerank_is_repeatable(
    first: Seq<RankView>,
    second: Seq<RankView>,
    nodes: Seq<NodeView>,
    damping: nat,
    rounds: nat,
)
    requires
        first == rank_entries(nodes, ranks_after(nodes, damping, rounds)),
        second == rank_entries(nodes, ranks_after(nodes, damping, rounds)),
    ensures
        first == second,
{
}

} // verus!
