//! The similarity graph: a map from a title to the ordered list of its
//! weighted outgoing edges.

use vstd::prelude::*;
use crate::score::SCALE;

verus! {

/// The model of one outgoing edge.
pub struct EdgeView {
    pub target: Seq<char>,
    pub weight: nat,
}

/// The model of one node: its title and its outgoing edges, in order.
pub struct NodeView {
    pub title: Seq<char>,
    pub edges: Seq<EdgeView>,
}

/// The model of an edge list.
pub open spec fn edge_views(edges: Seq<(String, u64)>) -> Seq<EdgeView> {
    Seq::new(edges.len(), |k: int| EdgeView { target: edges[k].0@, weight: edges[k].1 as nat })
}

/// No title names two nodes.
pub open spec fn distinct_titles(nodes: Seq<NodeView>) -> bool {
    forall|i: int, j: int| 0 <= i < j < nodes.len() ==> nodes[i].title != nodes[j].title
}

/// Whether some node carries `title`.
pub open spec fn has_title(nodes: Seq<NodeView>, title: Seq<char>) -> bool {
    exists|k: int| 0 <= k < nodes.len() && #[trigger] nodes[k].title == title
}

/// The position of a node that carries `title`.
pub open spec fn index_of(nodes: Seq<NodeView>, title: Seq<char>) -> int {
    choose|k: int| 0 <= k < nodes.len() && #[trigger] nodes[k].title == title
}

/// `nodes` after `title` is given the edge list `edges`: the node that carries
/// the title gets the new list, or a new node is added at the end.
pub open spec fn put(nodes: Seq<NodeView>, title: Seq<char>, edges: Seq<EdgeView>) -> Seq<
    NodeView,
> {
    if has_title(nodes, title) {
        nodes.update(index_of(nodes, title), NodeView { title, edges })
    } else {
        nodes.push(NodeView { title, edges })
    }
}

/// The nodes read as a map from title to edge list.
pub open spec fn as_map(nodes: Seq<NodeView>) -> Map<Seq<char>, Seq<EdgeView>> {
    Map::new(
        |title: Seq<char>| has_title(nodes, title),
        |title: Seq<char>| nodes[index_of(nodes, title)].edges,
    )
}

/// The sum of the weights of an edge list.
pub open spec fn weight_sum(edges: Seq<EdgeView>) -> nat
    decreases edges.len(),
{
    if edges.len() == 0 {
        0
    } else {
        weight_sum(edges.drop_last()) + edges.last().weight
    }
}

/// Every node either has no outgoing edge or spreads exactly one whole unit
/// over its outgoing edges.
pub open spec fn normalized(nodes: Seq<NodeView>) -> bool {
    forall|k: int|
        0 <= k < nodes.len() ==> (#[trigger] nodes[k]).edges.len() == 0 || weight_sum(
            nodes[k].edges,
        ) == SCALE
}

/// With distinct titles, the node at `k` is the one that its title finds.
pub proof fn lemma_index_of_unique(nodes: Seq<NodeView>, k: int)
    requires
        distinct_titles(nodes),
        0 <= k < nodes.len(),
    ensures
        has_title(nodes, nodes[k].title),
        index_of(nodes, nodes[k].title) == k,
{
    let found = index_of(nodes, nodes[k].title);
    assert(0 <= found < nodes.len() && nodes[found].title == nodes[k].title);
    if found < k {
        assert(nodes[found].title != nodes[k].title);
    } else if k < found {
        assert(nodes[k].title != nodes[found].title);
    }
}

/// Giving a title an edge list keeps the titles distinct.
pub proof fn lemma_put_keeps_distinct(nodes: Seq<NodeView>, title: Seq<char>, edges: Seq<EdgeView>)
    requires
        distinct_titles(nodes),
    ensures
        distinct_titles(put(nodes, title, edges)),
{
    let after = put(nodes, title, edges);
    if has_title(nodes, title) {
        let at = index_of(nodes, title);
        assert forall|i: int, j: int| 0 <= i < j < after.len() implies after[i].title
            != after[j].title by {
            assert(after[i].title == nodes[i].title);
            assert(after[j].title == nodes[j].title);
        }
    } else {
        assert forall|i: int, j: int| 0 <= i < j < after.len() implies after[i].title
            != after[j].title by {
            if j == nodes.len() {
                assert(nodes[i].title != title);
            }
        }
    }
}

/// Read as a map, giving a title an edge list is an insertion.
pub proof fn lemma_put_is_insert(nodes: Seq<NodeView>, title: Seq<char>, edges: Seq<EdgeView>)
    requires
        distinct_titles(nodes),
    ensures
        as_map(put(nodes, title, edges)) == as_map(nodes).insert(title, edges),
{
    let after = put(nodes, title, edges);
    lemma_put_keeps_distinct(nodes, title, edges);
    let at = if has_title(nodes, title) {
        index_of(nodes, title)
    } else {
        nodes.len() as int
    };
    assert(after[at].title == title && after[at].edges == edges);
    assert(after.len() >= nodes.len());
    assert forall|t: Seq<char>| has_title(after, t) <==> (t == title || has_title(nodes, t)) by {
        if has_title(after, t) {
            let k = index_of(after, t);
            if k != at {
                assert(nodes[k].title == t);
            }
        }
        if t == title {
            assert(after[at].title == t);
        }
        if has_title(nodes, t) {
            let k = index_of(nodes, t);
            assert(after[k].title == t);
        }
    }
    assert forall|t: Seq<char>| has_title(after, t) implies #[trigger] as_map(after)[t] == as_map(
        nodes,
    ).insert(title, edges)[t] by {
        let k = index_of(after, t);
        lemma_index_of_unique(after, k);
        if t == title {
            lemma_index_of_unique(after, at);
        } else {
            assert(k != at);
            assert(nodes[k].title == t);
            lemma_index_of_unique(nodes, k);
        }
    }
    assert(as_map(after) =~= as_map(nodes).insert(title, edges));
}

/// One node of a graph.
struct Node {
    title: String,
    edges: Vec<(String, u64)>,
}

/// A directed weighted graph keyed by title. Each title names at most one
/// node; nodes keep the order in which their titles first arrived.
pub struct Graph {
    nodes: Vec<Node>,
}

impl View for Graph {
    type V = Seq<NodeView>;

    closed spec fn view(&self) -> Seq<NodeView> {
        Seq::new(
            self.nodes.len() as nat,
            |k: int| NodeView { title: self.nodes[k].title@, edges: edge_views(self.nodes[k].edges@) },
        )
    }
}

impl Graph {
    #[verifier::type_invariant]
    spec fn titles_are_distinct(self) -> bool {
        distinct_titles(self@)
    }

    /// A graph without nodes.
    pub fn new() -> (graph: Graph)
        ensures
            graph@ == Seq::<NodeView>::empty(),
    {
        let graph = Graph { nodes: Vec::new() };
        assert(graph@ =~= Seq::<NodeView>::empty());
        graph
    }

    /// The number of nodes.
    pub fn len(&self) -> (n: usize)
        ensures
            n == self@.len(),
            distinct_titles(self@),
    {
        proof {
            use_type_invariant(self);
        }
        self.nodes.len()
    }

    /// The title of the node at position `i`.
    pub fn title_at(&self, i: usize) -> (title: &String)
        requires
            i < self@.len(),
        ensures
            title@ == self@[i as int].title,
    {
        &self.nodes[i].title
    }

    /// The outgoing edges of the node at position `i`.
    pub fn edges_at(&self, i: usize) -> (edges: &Vec<(String, u64)>)
        requires
            i < self@.len(),
        ensures
            edge_views(edges@) == self@[i as int].edges,
    {
        &self.nodes[i].edges
    }

    /// The position of the node that carries `title`, if there is one.
    pub fn position(&self, title: &String) -> (found: Option<usize>)
        ensures
            found is Some <==> has_title(self@, title@),
            found is Some ==> found->0 == index_of(self@, title@) && found->0 < self@.len(),
    {
        proof {
            use_type_invariant(self);
        }
        let mut i: usize = 0;
        while i < self.nodes.len()
            invariant
                i <= self.nodes.len(),
                distinct_titles(self@),
                forall|k: int| 0 <= k < i ==> self@[k].title != title@,
            decreases self.nodes.len() - i,
        {
            if self.nodes[i].title == *title {
                proof {
                    lemma_index_of_unique(self@, i as int);
                }
                return Some(i);
            }
            i += 1;
        }
        None
    }

    /// Whether a node carries `title`.
    pub fn contains_key(&self, title: &str) -> (found: bool)
        ensures
            found == has_title(self@, title@),
            found == as_map(self@).dom().contains(title@),
    {
        let key: String = title.to_owned();
        self.position(&key).is_some()
    }

    /// The outgoing edges of the node that carries `title`, if there is one.
    pub fn get(&self, title: &str) -> (found: Option<&Vec<(String, u64)>>)
        ensures
            found is Some <==> has_title(self@, title@),
            found is Some ==> edge_views(found->0@) == as_map(self@)[title@],
    {
        let key: String = title.to_owned();
        match self.position(&key) {
            Some(i) => Some(&self.nodes[i].edges),
            None => None,
        }
    }

    /// Gives `title` the edge list `edges`, replacing the list it had.
    pub fn insert(&mut self, title: String, edges: Vec<(String, u64)>)
        ensures
            final(self)@ == put(old(self)@, title@, edge_views(edges@)),
            as_map(final(self)@) == as_map(old(self)@).insert(title@, edge_views(edges@)),
    {
        proof {
            use_type_invariant(&*self);
            lemma_put_keeps_distinct(self@, title@, edge_views(edges@));
            lemma_put_is_insert(self@, title@, edge_views(edges@));
        }
        let ghost after = put(self@, title@, edge_views(edges@));
        let found = self.position(&title);
        let mut nodes: Vec<Node> = Vec::new();
        core::mem::swap(&mut self.nodes, &mut nodes);
        match found {
            Some(i) => {
                nodes.set(i, Node { title, edges });
            },
            None => {
                nodes.push(Node { title, edges });
            },
        }
        assert(Seq::new(
            nodes.len() as nat,
            |k: int| NodeView { title: nodes[k].title@, edges: edge_views(nodes[k].edges@) },
        ) =~= after);
        self.nodes = nodes;
    }
}

} // verus!
