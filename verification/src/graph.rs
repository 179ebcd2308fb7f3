//! A simple adjacency list based directed graph.

pub mod search;

use vstd::prelude::*;

verus! {

/// The position of a node in its graph.
#[derive(Debug, Clone, Copy, PartialEq, Eq, PartialOrd, Ord, Hash, Structural)]
pub struct NodeIndex(pub usize);

/// The position of an edge in its graph.
#[derive(Debug, Clone, Copy, PartialEq, Eq, PartialOrd, Ord, Structural)]
pub struct EdgeIndex(pub usize);

/// A node: its value and the head of the list of its outgoing edges.
#[derive(Debug)]
pub struct Node<T> {
    value: T,
    first_outgoing_edge: Option<EdgeIndex>,
}

/// An edge: its weight, its target and the next edge of the same source.
#[derive(Debug)]
pub struct Edge {
    weight: usize,
    target: NodeIndex,
    next_outgoing_edge: Option<EdgeIndex>,
}

/// An edge as it is given when a graph is built.
#[derive(Debug)]
pub struct InputEdge {
    pub weight: usize,
    pub source: NodeIndex,
    pub target: NodeIndex,
}

/// The tables of a graph: its nodes and its edges.
#[derive(Debug)]
struct Tables<T> {
    nodes: Vec<Node<T>>,
    edges: Vec<Edge>,
}

/// A directed graph with weighted edges. The outgoing edges of a node form a
/// linked list through the edge table, newest first.
#[derive(Debug)]
pub struct Graph<T> {
    tables: Tables<T>,
}

/// What follows a node: the node reached and the weight of the edge.
pub type Hop = (usize, usize);

/// The mathematical content of a graph: the values of its nodes and, for
/// every node, the hops that leave it, newest first.
pub struct GraphView<T> {
    pub values: Seq<T>,
    pub outgoing: Seq<Seq<Hop>>,
}

impl<T> GraphView<T> {
    /// Whether an edge leads from `a` to `b`.
    pub open spec fn has_edge(self, a: int, b: int) -> bool {
        0 <= a < self.outgoing.len() && exists|j: int|
            0 <= j < self.outgoing[a].len() && (#[trigger] self.outgoing[a][j]).0 == b
    }

    /// Whether `path` walks along edges of the graph, through nodes that exist.
    pub open spec fn is_path(self, path: Seq<usize>) -> bool {
        &&& path.len() >= 1
        &&& forall|k: int| 0 <= k < path.len() ==> (#[trigger] path[k]) < self.values.len()
        &&& forall|k: int|
            0 <= k < path.len() - 1 ==> self.has_edge(#[trigger] path[k] as int, path[k + 1] as int)
    }

    /// Whether a path leads from `source` to `target`.
    pub open spec fn reaches(self, source: usize, target: usize) -> bool {
        exists|path: Seq<usize>| #[trigger]
            self.is_path(path) && path[0] == source && path.last() == target
    }

    /// The largest number of hops that leave one node.
    pub open spec fn edge_bound(self) -> nat
        decreases self.outgoing.len(),
    {
        hop_bound(self.outgoing)
    }

    /// Whether the graph lists the hops of every node, none has more hops
    /// than the bound, and every hop leads to a node of the graph.
    pub open spec fn regular(self) -> bool {
        &&& self.outgoing.len() == self.values.len()
        &&& forall|i: int|
            0 <= i < self.outgoing.len() ==> (#[trigger] self.outgoing[i]).len() <= self.edge_bound()
        &&& forall|i: int, j: int|
            0 <= i < self.outgoing.len() && 0 <= j < self.outgoing[i].len() ==> (
            #[trigger] self.outgoing[i][j]).0 < self.values.len()
    }

    /// The graph with one more node, which has no edges.
    pub open spec fn with_node(self, value: T) -> Self {
        GraphView { values: self.values.push(value), outgoing: self.outgoing.push(Seq::empty()) }
    }

    /// The graph with one more edge, which becomes the first of its source.
    pub open spec fn with_edge(self, weight: usize, source: usize, target: usize) -> Self
        recommends
            source < self.outgoing.len(),
    {
        if source < self.outgoing.len() {
            GraphView {
                values: self.values,
                outgoing: self.outgoing.update(
                    source as int,
                    seq![(target, weight)] + self.outgoing[source as int],
                ),
            }
        } else {
            self
        }
    }

    /// The graph with the first `n` of `edges` added in their order.
    pub open spec fn with_edges(self, edges: Seq<InputEdge>, n: int) -> Self
        decreases n,
    {
        if n <= 0 {
            self
        } else {
            self.with_edges(edges, n - 1).with_edge(
                edges[n - 1].weight,
                edges[n - 1].source.0,
                edges[n - 1].target.0,
            )
        }
    }

    /// Whether the first `n` of `edges` name nodes that exist.
    pub open spec fn accepts(self, edges: Seq<InputEdge>, n: int) -> bool {
        forall|k: int|
            0 <= k < n ==> (#[trigger] edges[k]).source.0 < self.values.len() && edges[k].target.0
                < self.values.len()
    }
}

/// The length of the longest of the lists.
pub open spec fn hop_bound(outgoing: Seq<Seq<Hop>>) -> nat
    decreases outgoing.len(),
{
    if outgoing.len() == 0 {
        0
    } else {
        let rest = hop_bound(outgoing.drop_last());
        if outgoing.last().len() > rest {
            outgoing.last().len()
        } else {
            rest
        }
    }
}

/// No list is longer than the bound.
pub proof fn lemma_hop_bound(outgoing: Seq<Seq<Hop>>)
    ensures
        forall|i: int|
            0 <= i < outgoing.len() ==> (#[trigger] outgoing[i]).len() <= hop_bound(outgoing),
    decreases outgoing.len(),
{
    if outgoing.len() > 0 {
        lemma_hop_bound(outgoing.drop_last());
        assert forall|i: int| 0 <= i < outgoing.len() implies (#[trigger] outgoing[i]).len()
            <= hop_bound(outgoing) by {
            if i < outgoing.len() - 1 {
                assert(outgoing.drop_last()[i] == outgoing[i]);
            }
        }
    }
}

/// The hops found by following the list of edges from `start`.
spec fn chain(edges: Seq<Edge>, start: Option<EdgeIndex>) -> Seq<Hop>
    decreases
        (match start {
            Some(e) => e.0 + 1,
            None => 0,
        }),
{
    match start {
        Some(e) => if e.0 < edges.len() && links_back(edges, e.0 as int) {
            seq![(edges[e.0 as int].target.0, edges[e.0 as int].weight)] + chain(
                edges,
                edges[e.0 as int].next_outgoing_edge,
            )
        } else {
            Seq::empty()
        },
        None => Seq::empty(),
    }
}

/// Whether the edge at `e` is followed by none or by an earlier one.
spec fn links_back(edges: Seq<Edge>, e: int) -> bool {
    match edges[e].next_outgoing_edge {
        Some(next) => next.0 < e,
        None => true,
    }
}

/// Whether a head of list points into the edge table.
spec fn head_fits(head: Option<EdgeIndex>, n_edges: int) -> bool {
    match head {
        Some(e) => e.0 < n_edges,
        None => true,
    }
}

/// A list of edges is as it was after more edges were added to the table.
proof fn lemma_chain_stable(edges: Seq<Edge>, more: Seq<Edge>, start: Option<EdgeIndex>)
    requires
        head_fits(start, edges.len() as int),
        forall|e: int| 0 <= e < edges.len() ==> links_back(edges, e),
    ensures
        chain(edges + more, start) == chain(edges, start),
    decreases
        (match start {
            Some(e) => e.0 + 1,
            None => 0,
        }),
{
    match start {
        Some(e) => {
            assert(links_back(edges, e.0 as int));
            assert((edges + more)[e.0 as int] == edges[e.0 as int]);
            lemma_chain_stable(edges, more, edges[e.0 as int].next_outgoing_edge);
        },
        None => {},
    }
}

/// The hops of a list of edges lead where the edges lead.
proof fn lemma_chain_targets(edges: Seq<Edge>, start: Option<EdgeIndex>, nodes: int, j: int)
    requires
        forall|e: int| 0 <= e < edges.len() ==> (#[trigger] edges[e]).target.0 < nodes,
        0 <= j < chain(edges, start).len(),
    ensures
        chain(edges, start)[j].0 < nodes,
    decreases
        (match start {
            Some(e) => e.0 + 1,
            None => 0,
        }),
{
    match start {
        Some(e) => {
            if e.0 < edges.len() && links_back(edges, e.0 as int) {
                if j > 0 {
                    lemma_chain_targets(edges, edges[e.0 as int].next_outgoing_edge, nodes, j - 1);
                }
            }
        },
        None => {},
    }
}

/// A list of edges is no longer than the table up to its head.
proof fn lemma_chain_len(edges: Seq<Edge>, start: Option<EdgeIndex>)
    ensures
        chain(edges, start).len() <= (match start {
            Some(e) => e.0 + 1,
            None => 0,
        }),
        chain(edges, start).len() <= edges.len(),
    decreases
        (match start {
            Some(e) => e.0 + 1,
            None => 0,
        }),
{
    match start {
        Some(e) => {
            if e.0 < edges.len() && links_back(edges, e.0 as int) {
                lemma_chain_len(edges, edges[e.0 as int].next_outgoing_edge);
            }
        },
        None => {},
    }
}

impl<T> View for Graph<T> {
    type V = GraphView<T>;

    closed spec fn view(&self) -> GraphView<T> {
        GraphView {
            values: self.tables.nodes@.map_values(|node: Node<T>| node.value),
            outgoing: self.tables.nodes@.map_values(
                |node: Node<T>| chain(self.tables.edges@, node.first_outgoing_edge),
            ),
        }
    }
}

impl<T> Graph<T> {
    /// The tables are consistent: every head and every link points at an
    /// edge that exists, links point backward, and targets are nodes.
    #[verifier::type_invariant]
    pub closed spec fn wf(&self) -> bool {
        &&& forall|i: int|
            0 <= i < self.tables.nodes.len() ==> head_fits(
                (#[trigger] self.tables.nodes[i]).first_outgoing_edge,
                self.tables.edges.len() as int,
            )
        &&& forall|e: int| 0 <= e < self.tables.edges.len() ==> links_back(self.tables.edges@, e)
        &&& forall|e: int|
            0 <= e < self.tables.edges.len() ==> (#[trigger] self.tables.edges[e]).target.0 < self.tables.nodes.len()
    }

    /// The graph without nodes.
    pub fn new_empty() -> (graph: Self)
        ensures
            graph@.values.len() == 0,
            graph@.outgoing.len() == 0,
    {
        Graph { tables: Tables { nodes: vec![], edges: vec![] } }
    }

    /// Adds a node and returns its position.
    pub fn add_node(&mut self, value: T) -> (index: NodeIndex)
        ensures
            index.0 == old(self)@.values.len(),
            final(self)@ == old(self)@.with_node(value),
    {
        proof {
            use_type_invariant(&*self);
        }
        let mut tables = Tables { nodes: vec![], edges: vec![] };
        core::mem::swap(&mut tables, &mut self.tables);
        let index = tables.nodes.len();
        tables.nodes.push(Node::<T> { value, first_outgoing_edge: None });
        self.tables = tables;
        proof {
            assert(self@.values =~= old(self)@.values.push(value));
            assert(self@.outgoing =~= old(self)@.outgoing.push(Seq::empty()));
        }
        NodeIndex(index)
    }

    /// Adds an edge from `source` to `target`, or fails if one of them is
    /// not a node of the graph.
    pub fn add_edge(&mut self, weight: usize, source: NodeIndex, target: NodeIndex) -> (outcome:
        Result<(), ()>)
        ensures
            outcome is Ok <==> source.0 < old(self)@.values.len() && target.0
                < old(self)@.values.len(),
            outcome is Ok ==> final(self)@ == old(self)@.with_edge(weight, source.0, target.0),
            outcome is Err ==> final(self)@ == old(self)@,
    {
        proof {
            use_type_invariant(&*self);
        }
        if source.0 >= self.tables.nodes.len() || target.0 >= self.tables.nodes.len() {
            return Err(());
        }
        let mut tables = Tables { nodes: vec![], edges: vec![] };
        core::mem::swap(&mut tables, &mut self.tables);
        let ghost old_nodes = tables.nodes@;
        let ghost old_edges = tables.edges@;
        let edge_index = EdgeIndex(tables.edges.len());
        let previous = tables.nodes[source.0].first_outgoing_edge;
        let edge = Edge { weight, target, next_outgoing_edge: previous };
        tables.edges.push(edge);
        tables.nodes[source.0].first_outgoing_edge = Some(edge_index);
        proof {
            assert(tables.edges@ =~= old_edges + seq![edge]);
            assert forall|e: int| 0 <= e < tables.edges.len() implies links_back(
                tables.edges@,
                e,
            ) by {
                if e < old_edges.len() {
                    assert(links_back(old_edges, e));
                } else {
                    assert(head_fits(old_nodes[source.0 as int].first_outgoing_edge, e));
                }
            }
            assert forall|i: int| 0 <= i < tables.nodes.len() implies head_fits(
                (#[trigger] tables.nodes[i]).first_outgoing_edge,
                tables.edges.len() as int,
            ) by {
                if i != source.0 {
                    assert(tables.nodes[i] == old_nodes[i]);
                    assert(head_fits(old_nodes[i].first_outgoing_edge, old_edges.len() as int));
                }
            }
        }
        self.tables = tables;
        proof {
            let goal = old(self)@.with_edge(weight, source.0, target.0);
            assert forall|i: int| 0 <= i < self.tables.nodes.len() implies #[trigger] self@.outgoing[i]
                == goal.outgoing[i] by {
                assert(head_fits(old_nodes[i].first_outgoing_edge, old_edges.len() as int));
                lemma_chain_stable(old_edges, seq![edge], old_nodes[i].first_outgoing_edge);
                if i != source.0 {
                    assert(self.tables.nodes[i] == old_nodes[i]);
                }
            }
            assert(self@.outgoing =~= goal.outgoing);
            assert(self@.values =~= old(self)@.values);
        }
        Ok(())
    }

    /// Builds a graph from the values of its nodes and a list of edges,
    /// which are added in their order. Fails if an edge names a node that
    /// does not exist.
    pub fn new(nodes: Vec<T>, edges: Vec<InputEdge>) -> (built: Result<Self, ()>)
        ensures
            built is Ok <==> unlinked(nodes@).accepts(edges@, edges.len() as int),
            built matches Ok(graph) ==> graph@ == unlinked(nodes@).with_edges(
                edges@,
                edges.len() as int,
            ),
    {
        let mut graph = Graph::new_empty();
        let ghost values = nodes@;
        assert(graph@.values =~= unlinked(values.take(0)).values);
        assert(graph@.outgoing =~= unlinked(values.take(0)).outgoing);
        for node in iter: nodes
            invariant
                iter.seq() == values,
                graph@ == unlinked(values.take(iter.index())),
        {
            let ghost before = graph@;
            graph.add_node(node);
            proof {
                let i = iter.index();
                assert(values.take(i + 1) =~= values.take(i).push(node));
                assert(graph@.values =~= unlinked(values.take(i + 1)).values);
                assert(graph@.outgoing =~= unlinked(values.take(i + 1)).outgoing);
            }
        }
        assert(values.take(values.len() as int) =~= values);
        let mut k: usize = 0;
        while k < edges.len()
            invariant
                k <= edges.len(),
                values == nodes@,
                unlinked(values).accepts(edges@, k as int),
                graph@ == unlinked(values).with_edges(edges@, k as int),
            decreases edges.len() - k,
        {
            let edge = &edges[k];
            proof {
                lemma_with_edges_keeps_values(unlinked(values), edges@, k as int);
            }
            match graph.add_edge(edge.weight, edge.source, edge.target) {
                Ok(_) => {},
                Err(_) => {
                    assert(!(edges@[k as int].source.0 < values.len() && edges@[k as int].target.0
                        < values.len()));
                    return Err(());
                },
            }
            k += 1;
        }
        Ok(graph)
    }

    /// The hops that leave `source`, newest first.
    pub fn successors(&self, source: NodeIndex) -> (hops: Successors<'_, T>)
        requires
            source.0 < self@.values.len(),
        ensures
            hops.graph() == self,
            hops.remaining() == self@.outgoing[source.0 as int],
    {
        proof {
            use_type_invariant(self);
        }
        Successors { graph: self, current_edge_index: self.tables.nodes[source.0].first_outgoing_edge }
    }

    /// Brings to mind that the tables of the graph are consistent. Nothing
    /// happens when this runs.
    pub fn recall_wf(&self)
        ensures
            self.wf(),
    {
        proof {
            use_type_invariant(self);
        }
    }

    /// The number of nodes.
    pub fn node_count(&self) -> (count: usize)
        ensures
            count == self@.values.len(),
            count == self@.outgoing.len(),
    {
        proof {
            use_type_invariant(self);
        }
        self.tables.nodes.len()
    }

    /// The number of edges.
    pub closed spec fn edge_total(&self) -> nat {
        self.tables.edges.len() as nat
    }

    /// The newest edge that leaves the node at `node`, if any does.
    pub closed spec fn head_of(&self, node: int) -> Option<EdgeIndex> {
        self.tables.nodes[node].first_outgoing_edge
    }

    /// The node that the edge at `edge` leads to.
    pub closed spec fn target_of(&self, edge: int) -> NodeIndex {
        self.tables.edges[edge].target
    }

    /// The weight of the edge at `edge`.
    pub closed spec fn weight_of(&self, edge: int) -> usize {
        self.tables.edges[edge].weight
    }

    /// The edge that was added before the edge at `edge` with the same
    /// source, if any was.
    pub closed spec fn next_of(&self, edge: int) -> Option<EdgeIndex> {
        self.tables.edges[edge].next_outgoing_edge
    }

    /// The hops of a list of edges that starts with `start`.
    pub closed spec fn hops_from(&self, start: Option<EdgeIndex>) -> Seq<Hop> {
        chain(self.tables.edges@, start)
    }

    /// The hops that leave a node are those of the list of edges that
    /// starts with its newest edge, and the hops of a list are that of its
    /// first edge and then those of the list that starts with the next.
    pub proof fn lemma_hops(&self)
        requires
            self.wf(),
        ensures
            forall|node: int|
                0 <= node < self@.outgoing.len() ==> #[trigger] self@.outgoing[node]
                    == self.hops_from(self.head_of(node)),
            self.hops_from(None).len() == 0,
            forall|edge: int|
                0 <= edge < self.edge_total() ==> #[trigger] self.hops_from(
                    Some(EdgeIndex(edge as usize)),
                ) == seq![(self.target_of(edge).0, self.weight_of(edge))] + self.hops_from(
                    self.next_of(edge),
                ),
    {
        assert forall|edge: int| 0 <= edge < self.edge_total() implies #[trigger] self.hops_from(
            Some(EdgeIndex(edge as usize)),
        ) == seq![(self.target_of(edge).0, self.weight_of(edge))] + self.hops_from(
            self.next_of(edge),
        ) by {
            assert(links_back(self.tables.edges@, edge));
        }
    }

    /// The newest edge that leaves `node`, if any does.
    pub fn first_outgoing_edge(&self, node: NodeIndex) -> (head: Option<EdgeIndex>)
        requires
            node.0 < self@.values.len(),
        ensures
            head == self.head_of(node.0 as int),
            head is None <==> self@.outgoing[node.0 as int].len() == 0,
            head matches Some(edge) ==> edge.0 < self.edge_total(),
    {
        proof {
            use_type_invariant(self);
        }
        let head = self.tables.nodes[node.0].first_outgoing_edge;
        proof {
            match head {
                Some(edge) => {
                    assert(head_fits(
                        self.tables.nodes[node.0 as int].first_outgoing_edge,
                        self.tables.edges.len() as int,
                    ));
                    assert(links_back(self.tables.edges@, edge.0 as int));
                },
                None => {},
            }
        }
        head
    }

    /// The node that `edge` leads to.
    pub fn edge_target(&self, edge: EdgeIndex) -> (target: NodeIndex)
        requires
            edge.0 < self.edge_total(),
        ensures
            target == self.target_of(edge.0 as int),
            target.0 < self@.values.len(),
    {
        proof {
            use_type_invariant(self);
        }
        self.tables.edges[edge.0].target
    }

    /// The weight of `edge`.
    pub fn edge_weight(&self, edge: EdgeIndex) -> (weight: usize)
        requires
            edge.0 < self.edge_total(),
        ensures
            weight == self.weight_of(edge.0 as int),
    {
        proof {
            use_type_invariant(self);
        }
        self.tables.edges[edge.0].weight
    }

    /// The edge that was added before `edge` with the same source, if any was.
    pub fn next_outgoing_edge(&self, edge: EdgeIndex) -> (next: Option<EdgeIndex>)
        requires
            edge.0 < self.edge_total(),
        ensures
            next == self.next_of(edge.0 as int),
            next matches Some(earlier) ==> earlier.0 < edge.0,
    {
        proof {
            use_type_invariant(self);
        }
        assert(links_back(self.tables.edges@, edge.0 as int));
        self.tables.edges[edge.0].next_outgoing_edge
    }

    /// The number of edges. No node has more hops.
    pub fn edge_count(&self) -> (count: usize)
        ensures
            count == self.edge_total(),
            forall|i: int|
                0 <= i < self@.outgoing.len() ==> (#[trigger] self@.outgoing[i]).len() <= count,
    {
        proof {
            use_type_invariant(self);
        }
        proof {
            assert forall|i: int| 0 <= i < self@.outgoing.len() implies (
            #[trigger] self@.outgoing[i]).len() <= self.tables.edges.len() by {
                lemma_chain_len(self.tables.edges@, self.tables.nodes[i].first_outgoing_edge);
            }
        }
        self.tables.edges.len()
    }

    /// The view lists the hops of every node, none has more than the bound,
    /// and every hop leads to a node of the graph.
    pub proof fn lemma_edge_bound(&self)
        requires
            self.wf(),
        ensures
            self@.regular(),
    {
        lemma_hop_bound(self@.outgoing);
        assert forall|i: int, j: int|
            0 <= i < self@.outgoing.len() && 0 <= j < self@.outgoing[i].len() implies (
        #[trigger] self@.outgoing[i][j]).0 < self@.values.len() by {
            lemma_chain_targets(
                self.tables.edges@,
                self.tables.nodes[i].first_outgoing_edge,
                self.tables.nodes.len() as int,
                j,
            );
        }
    }
}

/// The graph of the given nodes without any edge.
pub open spec fn unlinked<T>(values: Seq<T>) -> GraphView<T> {
    GraphView { values, outgoing: Seq::new(values.len(), |i: int| Seq::<Hop>::empty()) }
}

/// Adding edges keeps the nodes.
pub proof fn lemma_with_edges_keeps_values<T>(graph: GraphView<T>, edges: Seq<InputEdge>, n: int)
    ensures
        graph.with_edges(edges, n).values == graph.values,
        graph.with_edges(edges, n).outgoing.len() == graph.outgoing.len(),
    decreases n,
{
    if n > 0 {
        lemma_with_edges_keeps_values(graph, edges, n - 1);
    }
}

/// A walk through the hops that leave one node.
#[derive(Debug)]
pub struct Successors<'graph, T> {
    graph: &'graph Graph<T>,
    current_edge_index: Option<EdgeIndex>,
}

impl<'graph, T> Successors<'graph, T> {
    /// The graph that is walked.
    pub closed spec fn graph(&self) -> &Graph<T> {
        self.graph
    }

    /// The hops that are still to come.
    pub closed spec fn remaining(&self) -> Seq<Hop> {
        chain(self.graph.tables.edges@, self.current_edge_index)
    }

    /// The walk stands on an edge of its graph.
    #[verifier::type_invariant]
    pub closed spec fn wf(&self) -> bool {
        head_fits(self.current_edge_index, self.graph.tables.edges.len() as int)
    }

    /// The next hop: the node reached and the weight of the edge.
    pub fn next(&mut self) -> (hop: Option<(NodeIndex, usize)>)
        ensures
            final(self).graph() == old(self).graph(),
            match hop {
                Some((node, weight)) => old(self).remaining().len() > 0 && (node.0, weight) == old(
                    self,
                ).remaining()[0] && final(self).remaining() == old(self).remaining().drop_first()
                    && node.0 < old(self).graph()@.values.len(),
                None => old(self).remaining().len() == 0 && final(self).remaining().len() == 0,
            },
    {
        proof {
            use_type_invariant(&*self);
            use_type_invariant(self.graph);
        }
        match self.current_edge_index {
            Some(index) => {
                let edge = &self.graph.tables.edges[index.0];
                assert(links_back(self.graph.tables.edges@, index.0 as int));
                self.current_edge_index = edge.next_outgoing_edge;
                assert(self.remaining() =~= old(self).remaining().drop_first());
                Some((edge.target, edge.weight))
            },
            None => None,
        }
    }
}

} // verus!
