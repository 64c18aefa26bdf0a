//! The graph value: nodes and edges by id, an id allocator, and the
//! adjacency and relation views derived from them.
use vstd::prelude::*;
use crate::edge::{CreateEdgeDTO, Edge, EdgeView};
use crate::groups::{group_push, group_view, grouped_insert};
use crate::id_generator::IdGenerator;
use crate::node::{CreateNodeDTO, Node, NodeView};
use crate::pairs::{keys_distinct, map_of_pairs, lemma_empty};
use crate::table::{Keyed, find, ids_increasing, lemma_at, lemma_index_of, put, table_map, table_seq, take_out};

verus! {

/// What a graph is.
pub struct GraphView {
    pub name: Seq<char>,
    pub nodes: Map<u64, NodeView>,
    pub edges: Map<u64, EdgeView>,
    pub next_node_id: u64,
    pub next_edge_id: u64,
}

/// One relation: an edge together with the labels of its endpoints.
pub struct RelationView {
    pub from_node_id: u64,
    pub from_node_label: Seq<char>,
    pub edge_label: Seq<char>,
    pub to_node_id: u64,
    pub to_node_label: Seq<char>,
}

/// An edge together with the ids and labels of its endpoints.
#[derive(Debug)]
pub struct Relation {
    pub from_node_id: u64,
    pub from_node_label: String,
    pub edge_label: String,
    pub to_node_id: u64,
    pub to_node_label: String,
}

impl View for Relation {
    type V = RelationView;

    open spec fn view(&self) -> RelationView {
        RelationView {
            from_node_id: self.from_node_id,
            from_node_label: self.from_node_label@,
            edge_label: self.edge_label@,
            to_node_id: self.to_node_id,
            to_node_label: self.to_node_label@,
        }
    }
}

impl Clone for Relation {
    fn clone(&self) -> (r: Self)
        ensures
            r@ == self@,
    {
        Relation {
            from_node_id: self.from_node_id,
            from_node_label: self.from_node_label.clone(),
            edge_label: self.edge_label.clone(),
            to_node_id: self.to_node_id,
            to_node_label: self.to_node_label.clone(),
        }
    }
}

/// Node id to the `to` ids of its outgoing edges, taking the edges in order.
pub open spec fn adjacency_of(edges: Seq<EdgeView>) -> Map<u64, Seq<u64>>
    decreases edges.len(),
{
    if edges.len() == 0 {
        Map::empty()
    } else {
        let e = edges.last();
        grouped_insert(adjacency_of(edges.drop_last()), e.from, e.to)
    }
}

/// Node id to the relations of its outgoing edges whose endpoints are both
/// nodes of `nodes`, taking the edges in order.
pub open spec fn relations_of(nodes: Map<u64, NodeView>, edges: Seq<EdgeView>) -> Map<
    u64,
    Seq<RelationView>,
>
    decreases edges.len(),
{
    if edges.len() == 0 {
        Map::empty()
    } else {
        let e = edges.last();
        let m = relations_of(nodes, edges.drop_last());
        if nodes.contains_key(e.from) && nodes.contains_key(e.to) {
            grouped_insert(m, e.from, relation_of(nodes[e.from], e, nodes[e.to]))
        } else {
            m
        }
    }
}

pub open spec fn relation_of(from: NodeView, e: EdgeView, to: NodeView) -> RelationView {
    RelationView {
        from_node_id: from.id,
        from_node_label: from.label,
        edge_label: e.label,
        to_node_id: to.id,
        to_node_label: to.label,
    }
}

/// `g` after node `u.id`, if present, is replaced by `u`: its label and
/// properties become `u`'s.
pub open spec fn node_updated(g: GraphView, u: NodeView) -> GraphView {
    GraphView {
        nodes: if g.nodes.contains_key(u.id) {
            g.nodes.insert(u.id, u)
        } else {
            g.nodes
        },
        ..g
    }
}

/// `g` after edge `u.id`, if present, is replaced by `u`: its label,
/// endpoints and properties become `u`'s.
pub open spec fn edge_updated(g: GraphView, u: EdgeView) -> GraphView {
    GraphView {
        edges: if g.edges.contains_key(u.id) {
            g.edges.insert(u.id, u)
        } else {
            g.edges
        },
        ..g
    }
}

/// Every edge of `g` starts and ends at a node of `g`.
pub open spec fn endpoints_present(g: GraphView) -> bool {
    forall|id: u64|
        #[trigger] g.edges.contains_key(id) ==> g.nodes.contains_key(g.edges[id].from)
            && g.nodes.contains_key(g.edges[id].to)
}

/// The allocator's next ids exceed every id in use.
pub open spec fn ids_below_next(g: GraphView) -> bool {
    &&& forall|id: u64| #[trigger] g.nodes.contains_key(id) ==> id < g.next_node_id
    &&& forall|id: u64| #[trigger] g.edges.contains_key(id) ==> id < g.next_edge_id
}

/// A named property graph.
pub struct Graph {
    name: String,
    nodes: Vec<Node>,
    edges: Vec<Edge>,
    id_generator: IdGenerator,
}

impl View for Graph {
    type V = GraphView;

    closed spec fn view(&self) -> GraphView {
        GraphView {
            name: self.name@,
            nodes: table_map(self.nodes@),
            edges: table_map(self.edges@),
            next_node_id: self.id_generator@.0,
            next_edge_id: self.id_generator@.1,
        }
    }
}

impl Graph {
    /// Ids strictly increase along both vectors and stay below the allocator's next ids.
    pub closed spec fn wf(&self) -> bool {
        &&& ids_increasing(self.nodes@)
        &&& ids_increasing(self.edges@)
        &&& forall|i: int|
            0 <= i < self.nodes@.len() ==> #[trigger] self.nodes@[i].id < self.id_generator@.0
        &&& forall|i: int|
            0 <= i < self.edges@.len() ==> #[trigger] self.edges@[i].id < self.id_generator@.1
    }

    /// The edges in increasing order of id.
    pub closed spec fn edge_seq(&self) -> Seq<EdgeView> {
        table_seq(self.edges@)
    }

    /// The nodes in increasing order of id.
    pub closed spec fn node_seq(&self) -> Seq<NodeView> {
        table_seq(self.nodes@)
    }

    /// The node and edge sequences list exactly the nodes and edges, in
    /// strictly increasing order of id, and the allocator is ahead of every id.
    #[verifier::rlimit(60)]
    pub proof fn lemma_seqs(&self)
        requires
            self.wf(),
        ensures
            forall|i: int, j: int|
                0 <= i < j < self.edge_seq().len() ==> #[trigger] self.edge_seq()[i].id
                    < #[trigger] self.edge_seq()[j].id,
            forall|i: int, j: int|
                0 <= i < j < self.node_seq().len() ==> #[trigger] self.node_seq()[i].id
                    < #[trigger] self.node_seq()[j].id,
            forall|i: int|
                0 <= i < self.edge_seq().len() ==> self@.edges.contains_key(
                    #[trigger] self.edge_seq()[i].id,
                ) && self@.edges[self.edge_seq()[i].id] == self.edge_seq()[i],
            forall|id: u64|
                #[trigger] self@.edges.contains_key(id) ==> exists|i: int|
                    0 <= i < self.edge_seq().len() && #[trigger] self.edge_seq()[i].id == id,
            forall|i: int|
                0 <= i < self.node_seq().len() ==> self@.nodes.contains_key(
                    #[trigger] self.node_seq()[i].id,
                ) && self@.nodes[self.node_seq()[i].id] == self.node_seq()[i],
            forall|id: u64|
                #[trigger] self@.nodes.contains_key(id) ==> exists|i: int|
                    0 <= i < self.node_seq().len() && #[trigger] self.node_seq()[i].id == id,
            ids_below_next(self@),
    {
        assert forall|i: int| 0 <= i < self.edge_seq().len() implies self@.edges.contains_key(
            #[trigger] self.edge_seq()[i].id,
        ) && self@.edges[self.edge_seq()[i].id] == self.edge_seq()[i] by {
            lemma_at(self.edges@, i);
        }
        assert forall|id: u64| #[trigger] self@.edges.contains_key(id) implies exists|i: int|
            0 <= i < self.edge_seq().len() && #[trigger] self.edge_seq()[i].id == id by {
            let i = lemma_index_of(self.edges@, id);
            assert(self.edge_seq()[i].id == id);
        }
        assert forall|i: int| 0 <= i < self.node_seq().len() implies self@.nodes.contains_key(
            #[trigger] self.node_seq()[i].id,
        ) && self@.nodes[self.node_seq()[i].id] == self.node_seq()[i] by {
            lemma_at(self.nodes@, i);
        }
        assert forall|id: u64| #[trigger] self@.nodes.contains_key(id) implies exists|i: int|
            0 <= i < self.node_seq().len() && #[trigger] self.node_seq()[i].id == id by {
            let i = lemma_index_of(self.nodes@, id);
            assert(self.node_seq()[i].id == id);
        }
        assert forall|i: int, j: int|
            0 <= i < j < self.edge_seq().len() implies #[trigger] self.edge_seq()[i].id
            < #[trigger] self.edge_seq()[j].id by {
            assert(self.edges@[i].key_of() < self.edges@[j].key_of());
        }
        assert forall|i: int, j: int|
            0 <= i < j < self.node_seq().len() implies #[trigger] self.node_seq()[i].id
            < #[trigger] self.node_seq()[j].id by {
            assert(self.nodes@[i].key_of() < self.nodes@[j].key_of());
        }
        assert forall|id: u64| #[trigger] self@.nodes.contains_key(id) implies id
            < self@.next_node_id by {
            let i = lemma_index_of(self.nodes@, id);
        }
        assert forall|id: u64| #[trigger] self@.edges.contains_key(id) implies id
            < self@.next_edge_id by {
            let i = lemma_index_of(self.edges@, id);
        }
    }

    /// An empty graph named `name` whose ids come from `id_generator`.
    pub fn new(name: String, id_generator: IdGenerator) -> (r: Graph)
        ensures
            r@.name == name@,
            r@.nodes == Map::<u64, NodeView>::empty(),
            r@.edges == Map::<u64, EdgeView>::empty(),
            r@.next_node_id == id_generator@.0,
            r@.next_edge_id == id_generator@.1,
            r.edge_seq() == Seq::<EdgeView>::empty(),
            r.wf(),
    {
        let r = Graph { name, nodes: Vec::new(), edges: Vec::new(), id_generator };
        proof {
            lemma_empty::<u64, NodeView>();
            lemma_empty::<u64, EdgeView>();
            assert(crate::table::table_pairs(r.nodes@) =~= Seq::empty());
            assert(crate::table::table_pairs(r.edges@) =~= Seq::empty());
            assert(r.edge_seq() =~= Seq::empty());
        }
        r
    }

    pub fn name(&self) -> (r: &String)
        ensures
            r@ == self@.name,
    {
        &self.name
    }

    /// The nodes in increasing order of id.
    pub fn nodes(&self) -> (r: &Vec<Node>)
        requires
            self.wf(),
        ensures
            table_seq(r@) == self.node_seq(),
            table_map(r@) == self@.nodes,
    {
        &self.nodes
    }

    /// The edges in increasing order of id.
    pub fn edges(&self) -> (r: &Vec<Edge>)
        requires
            self.wf(),
        ensures
            table_seq(r@) == self.edge_seq(),
            table_map(r@) == self@.edges,
    {
        &self.edges
    }

    pub fn id_generator(&self) -> (r: &IdGenerator)
        ensures
            r@ == (self@.next_node_id, self@.next_edge_id),
    {
        &self.id_generator
    }

    /// Each node id to the ids that its outgoing edges lead to, in order of
    /// edge id; a node without outgoing edges has no entry.
    pub fn adjacency_list(&self) -> (r: Vec<(u64, Vec<u64>)>)
        requires
            self.wf(),
        ensures
            keys_distinct(group_view(r@)),
            map_of_pairs(group_view(r@)) == adjacency_of(self.edge_seq()),
    {
        let mut r: Vec<(u64, Vec<u64>)> = Vec::new();
        proof {
            assert(group_view(r@) =~= Seq::empty());
            lemma_empty::<u64, Seq<u64>>();
        }
        let n = self.edges.len();
        let mut i: usize = 0;
        while i < n
            invariant
                self.wf(),
                n == self.edges@.len(),
                i <= n,
                keys_distinct(group_view(r@)),
                map_of_pairs(group_view(r@)) == adjacency_of(self.edge_seq().take(i as int)),
            decreases n - i,
        {
            let e = &self.edges[i];
            group_push(&mut r, e.from, e.to);
            proof {
                assert(self.edge_seq().take(i + 1).drop_last() =~= self.edge_seq().take(i as int));
            }
            i = i + 1;
        }
        proof {
            assert(self.edge_seq().take(n as int) =~= self.edge_seq());
        }
        r
    }

    /// Each node id to the relations of its outgoing edges, in order of edge
    /// id; an edge with a missing endpoint is left out.
    pub fn relations_list(&self) -> (r: Vec<(u64, Vec<Relation>)>)
        requires
            self.wf(),
        ensures
            keys_distinct(group_view(r@)),
            map_of_pairs(group_view(r@)) == relations_of(self@.nodes, self.edge_seq()),
    {
        let mut r: Vec<(u64, Vec<Relation>)> = Vec::new();
        proof {
            assert(group_view(r@) =~= Seq::empty());
            lemma_empty::<u64, Seq<RelationView>>();
        }
        let n = self.edges.len();
        let mut i: usize = 0;
        while i < n
            invariant
                self.wf(),
                n == self.edges@.len(),
                i <= n,
                keys_distinct(group_view(r@)),
                map_of_pairs(group_view(r@)) == relations_of(
                    self@.nodes,
                    self.edge_seq().take(i as int),
                ),
            decreases n - i,
        {
            let e = &self.edges[i];
            proof {
                assert(self.edge_seq().take(i + 1).drop_last() =~= self.edge_seq().take(i as int));
            }
            match (self.get_node(e.from), self.get_node(e.to)) {
                (Some(from), Some(to)) => {
                    let rel = Relation {
                        from_node_id: from.id,
                        from_node_label: from.label,
                        edge_label: e.label.clone(),
                        to_node_id: to.id,
                        to_node_label: to.label,
                    };
                    group_push(&mut r, e.from, rel);
                },
                _ => {},
            }
            i = i + 1;
        }
        proof {
            assert(self.edge_seq().take(n as int) =~= self.edge_seq());
        }
        r
    }

    /// Adds a node with a freshly allocated id.
    pub fn add_node(&mut self, data: &CreateNodeDTO) -> (r: Node)
        requires
            old(self).wf(),
            old(self)@.next_node_id < u64::MAX,
        ensures
            final(self).wf(),
            r.id == old(self)@.next_node_id,
            r.label@ == data.label@,
            r.properties@ == data.properties@,
            final(self)@ == (GraphView {
                nodes: old(self)@.nodes.insert(r.id, r@),
                next_node_id: (old(self)@.next_node_id + 1) as u64,
                ..old(self)@
            }),
            final(self).edge_seq() == old(self).edge_seq(),
    {
        let id = self.id_generator.generate_node_id();
        let node = Node::new(id, data.label.clone(), data.properties.clone());
        let r = node.clone();
        let mut nodes: Vec<Node> = Vec::new();
        std::mem::swap(&mut nodes, &mut self.nodes);
        put(&mut nodes, node);
        proof {
            assert forall|i: int| 0 <= i < nodes@.len() implies #[trigger] nodes@[i].id
                < self.id_generator@.0 by {
                lemma_at(nodes@, i);
                if nodes@[i].id != id {
                    let k = lemma_index_of(old(self).nodes@, nodes@[i].id);
                }
            }
        }
        self.nodes = nodes;
        r
    }

    /// Puts `node` in the graph under its own id, replacing any node with that
    /// id, and keeps the allocator ahead of it.
    pub fn add_full_node(&mut self, node: Node) -> (r: Node)
        requires
            old(self).wf(),
            node.id < u64::MAX,
        ensures
            final(self).wf(),
            r@ == node@,
            final(self)@ == (GraphView {
                nodes: old(self)@.nodes.insert(node.id, node@),
                next_node_id: if node.id < old(self)@.next_node_id {
                    old(self)@.next_node_id
                } else {
                    (node.id + 1) as u64
                },
                ..old(self)@
            }),
            final(self).edge_seq() == old(self).edge_seq(),
    {
        let id = node.id;
        self.id_generator.observe_node_id(id);
        let r = node.clone();
        let mut nodes: Vec<Node> = Vec::new();
        std::mem::swap(&mut nodes, &mut self.nodes);
        put(&mut nodes, node);
        proof {
            assert forall|i: int| 0 <= i < nodes@.len() implies #[trigger] nodes@[i].id
                < self.id_generator@.0 by {
                lemma_at(nodes@, i);
                if nodes@[i].id != id {
                    let k = lemma_index_of(old(self).nodes@, nodes@[i].id);
                }
            }
        }
        self.nodes = nodes;
        r
    }

    /// The node with id `id`, if there is one.
    pub fn get_node(&self, id: u64) -> (r: Option<Node>)
        requires
            self.wf(),
        ensures
            match r {
                Some(n) => self@.nodes.contains_key(id) && n@ == self@.nodes[id],
                None => !self@.nodes.contains_key(id),
            },
    {
        match find(&self.nodes, id) {
            Ok(i) => {
                proof {
                    lemma_at(self.nodes@, i as int);
                }
                Some(self.nodes[i].clone())
            },
            Err(_) => None,
        }
    }

    /// Replaces the node with `updated_node`'s id by `updated_node`. Does
    /// nothing if there is no such node.
    pub fn update_node(&mut self, updated_node: Node)
        requires
            old(self).wf(),
        ensures
            final(self).wf(),
            final(self)@ == node_updated(old(self)@, updated_node@),
            final(self).edge_seq() == old(self).edge_seq(),
    {
        match find(&self.nodes, updated_node.id) {
            Ok(i) => {
                proof {
                    lemma_at(self.nodes@, i as int);
                }
                let mut nodes: Vec<Node> = Vec::new();
                std::mem::swap(&mut nodes, &mut self.nodes);
                put(&mut nodes, updated_node);
                proof {
                    assert forall|j: int| 0 <= j < nodes@.len() implies #[trigger] nodes@[j].id
                        < self.id_generator@.0 by {
                        lemma_at(nodes@, j);
                        if nodes@[j].id != updated_node.id {
                            let b = lemma_index_of(old(self).nodes@, nodes@[j].id);
                        }
                    }
                }
                self.nodes = nodes;
            },
            Err(_) => {},
        }
    }

    /// Removes the node with id `id`, if there is one. Edges are left as they are.
    pub fn delete_node(&mut self, id: u64)
        requires
            old(self).wf(),
        ensures
            final(self).wf(),
            final(self)@ == (GraphView { nodes: old(self)@.nodes.remove(id), ..old(self)@ }),
            final(self).edge_seq() == old(self).edge_seq(),
    {
        let mut nodes: Vec<Node> = Vec::new();
        std::mem::swap(&mut nodes, &mut self.nodes);
        take_out(&mut nodes, id);
        proof {
            assert forall|j: int| 0 <= j < nodes@.len() implies #[trigger] nodes@[j].id
                < self.id_generator@.0 by {
                lemma_at(nodes@, j);
                let b = lemma_index_of(old(self).nodes@, nodes@[j].id);
            }
        }
        self.nodes = nodes;
    }

    /// Adds an edge with a freshly allocated id. Its endpoints are not checked.
    pub fn add_edge(&mut self, data: &CreateEdgeDTO) -> (r: Edge)
        requires
            old(self).wf(),
            old(self)@.next_edge_id < u64::MAX,
        ensures
            final(self).wf(),
            r.id == old(self)@.next_edge_id,
            r.label@ == data.label@,
            r.from == data.from,
            r.to == data.to,
            r.properties@ == data.properties@,
            final(self)@ == (GraphView {
                edges: old(self)@.edges.insert(r.id, r@),
                next_edge_id: (old(self)@.next_edge_id + 1) as u64,
                ..old(self)@
            }),
            final(self).edge_seq() == old(self).edge_seq().push(r@),
    {
        let id = self.id_generator.generate_edge_id();
        let edge = Edge::new(id, data.label.clone(), data.from, data.to, data.properties.clone());
        let r = edge.clone();
        let mut edges: Vec<Edge> = Vec::new();
        std::mem::swap(&mut edges, &mut self.edges);
        put(&mut edges, edge);
        proof {
            assert forall|i: int| 0 <= i < edges@.len() implies #[trigger] edges@[i].id
                < self.id_generator@.1 by {
                lemma_at(edges@, i);
                if edges@[i].id != id {
                    let k = lemma_index_of(old(self).edges@, edges@[i].id);
                }
            }
            assert forall|i: int| 0 <= i < old(self).edges@.len() implies #[trigger] old(
                self,
            ).edges@[i].key_of() < id by {}
            assert(table_seq(edges@) =~= table_seq(old(self).edges@).push(r@));
        }
        self.edges = edges;
        r
    }

    /// Puts `edge` in the graph under its own id, replacing any edge with that
    /// id, and keeps the allocator ahead of it. Its endpoints are not checked.
    pub fn add_full_edge(&mut self, edge: Edge) -> (r: Edge)
        requires
            old(self).wf(),
            edge.id < u64::MAX,
        ensures
            final(self).wf(),
            r@ == edge@,
            final(self)@ == (GraphView {
                edges: old(self)@.edges.insert(edge.id, edge@),
                next_edge_id: if edge.id < old(self)@.next_edge_id {
                    old(self)@.next_edge_id
                } else {
                    (edge.id + 1) as u64
                },
                ..old(self)@
            }),
    {
        let id = edge.id;
        self.id_generator.observe_edge_id(id);
        let r = edge.clone();
        let mut edges: Vec<Edge> = Vec::new();
        std::mem::swap(&mut edges, &mut self.edges);
        put(&mut edges, edge);
        proof {
            assert forall|i: int| 0 <= i < edges@.len() implies #[trigger] edges@[i].id
                < self.id_generator@.1 by {
                lemma_at(edges@, i);
                if edges@[i].id != id {
                    let k = lemma_index_of(old(self).edges@, edges@[i].id);
                }
            }
        }
        self.edges = edges;
        r
    }

    /// The edge with id `id`, if there is one.
    pub fn get_edge(&self, id: u64) -> (r: Option<Edge>)
        requires
            self.wf(),
        ensures
            match r {
                Some(e) => self@.edges.contains_key(id) && e@ == self@.edges[id],
                None => !self@.edges.contains_key(id),
            },
    {
        match find(&self.edges, id) {
            Ok(i) => {
                proof {
                    lemma_at(self.edges@, i as int);
                }
                Some(self.edges[i].clone())
            },
            Err(_) => None,
        }
    }

    /// Replaces the edge with `updated_edge`'s id by `updated_edge`. Does
    /// nothing if there is no such edge.
    pub fn update_edge(&mut self, updated_edge: Edge)
        requires
            old(self).wf(),
        ensures
            final(self).wf(),
            final(self)@ == edge_updated(old(self)@, updated_edge@),
    {
        match find(&self.edges, updated_edge.id) {
            Ok(i) => {
                proof {
                    lemma_at(self.edges@, i as int);
                }
                let mut edges: Vec<Edge> = Vec::new();
                std::mem::swap(&mut edges, &mut self.edges);
                put(&mut edges, updated_edge);
                proof {
                    assert forall|j: int| 0 <= j < edges@.len() implies #[trigger] edges@[j].id
                        < self.id_generator@.1 by {
                        lemma_at(edges@, j);
                        if edges@[j].id != updated_edge.id {
                            let b = lemma_index_of(old(self).edges@, edges@[j].id);
                        }
                    }
                }
                self.edges = edges;
            },
            Err(_) => {},
        }
    }

    /// Removes the edge with id `edge_id`, if there is one.
    pub fn delete_edge(&mut self, edge_id: u64)
        requires
            old(self).wf(),
        ensures
            final(self).wf(),
            final(self)@ == (GraphView { edges: old(self)@.edges.remove(edge_id), ..old(self)@ }),
    {
        let mut edges: Vec<Edge> = Vec::new();
        std::mem::swap(&mut edges, &mut self.edges);
        take_out(&mut edges, edge_id);
        proof {
            assert forall|j: int| 0 <= j < edges@.len() implies #[trigger] edges@[j].id
                < self.id_generator@.1 by {
                lemma_at(edges@, j);
                let b = lemma_index_of(old(self).edges@, edges@[j].id);
            }
        }
        self.edges = edges;
    }
}

impl Clone for Graph {
    #[verifier::rlimit(60)]
    fn clone(&self) -> (r: Self)
        ensures
            r@ == self@,
            r.edge_seq() == self.edge_seq(),
            r.node_seq() == self.node_seq(),
            self.wf() ==> r.wf(),
    {
        let mut nodes: Vec<Node> = Vec::new();
        let n = self.nodes.len();
        let mut i: usize = 0;
        while i < n
            invariant
                n == self.nodes@.len(),
                i <= n,
                nodes@.len() == i,
                forall|j: int| 0 <= j < i ==> #[trigger] nodes@[j]@ == self.nodes@[j]@,
            decreases n - i,
        {
            nodes.push(self.nodes[i].clone());
            i = i + 1;
        }
        let mut edges: Vec<Edge> = Vec::new();
        let m = self.edges.len();
        let mut k: usize = 0;
        while k < m
            invariant
                m == self.edges@.len(),
                k <= m,
                edges@.len() == k,
                forall|j: int| 0 <= j < k ==> #[trigger] edges@[j]@ == self.edges@[j]@,
            decreases m - k,
        {
            edges.push(self.edges[k].clone());
            k = k + 1;
        }
        let r = Graph {
            name: self.name.clone(),
            nodes,
            edges,
            id_generator: self.id_generator.clone(),
        };
        proof {
            assert(crate::table::table_pairs(r.nodes@) =~= crate::table::table_pairs(self.nodes@));
            assert(crate::table::table_pairs(r.edges@) =~= crate::table::table_pairs(self.edges@));
            assert(r.edge_seq() =~= self.edge_seq());
            assert(r.node_seq() =~= self.node_seq());
            if self.wf() {
                assert forall|a: int, b: int| 0 <= a < b < r.nodes@.len() implies #[trigger] r.nodes@[a].key_of()
                    < #[trigger] r.nodes@[b].key_of() by {
                    assert(r.nodes@[a]@ == self.nodes@[a]@ && r.nodes@[b]@ == self.nodes@[b]@);
                    assert(self.nodes@[a].key_of() < self.nodes@[b].key_of());
                }
                assert forall|a: int, b: int| 0 <= a < b < r.edges@.len() implies #[trigger] r.edges@[a].key_of()
                    < #[trigger] r.edges@[b].key_of() by {
                    assert(r.edges@[a]@ == self.edges@[a]@ && r.edges@[b]@ == self.edges@[b]@);
                    assert(self.edges@[a].key_of() < self.edges@[b].key_of());
                }
                assert forall|a: int| 0 <= a < r.nodes@.len() implies #[trigger] r.nodes@[a].id
                    < r.id_generator@.0 by {
                    assert(r.nodes@[a]@ == self.nodes@[a]@);
                    assert(self.nodes@[a].id < self.id_generator@.0);
                }
                assert forall|a: int| 0 <= a < r.edges@.len() implies #[trigger] r.edges@[a].id
                    < r.id_generator@.1 by {
                    assert(r.edges@[a]@ == self.edges@[a]@);
                    assert(self.edges@[a].id < self.id_generator@.1);
                }
            }
        }
        r
    }
}

/// Two sequences of edges in strictly increasing order of id that list the
/// same map from id to edge are the same sequence.
proof fn lemma_sorted_edges_unique(s1: Seq<EdgeView>, s2: Seq<EdgeView>, m: Map<u64, EdgeView>)
    requires
        forall|i: int, j: int| 0 <= i < j < s1.len() ==> #[trigger] s1[i].id < #[trigger] s1[j].id,
        forall|i: int, j: int| 0 <= i < j < s2.len() ==> #[trigger] s2[i].id < #[trigger] s2[j].id,
        forall|i: int| 0 <= i < s1.len() ==> m.contains_key(#[trigger] s1[i].id) && m[s1[i].id] == s1[i],
        forall|i: int| 0 <= i < s2.len() ==> m.contains_key(#[trigger] s2[i].id) && m[s2[i].id] == s2[i],
        forall|id: u64| #[trigger] m.contains_key(id) ==> exists|i: int| 0 <= i < s1.len() && #[trigger] s1[i].id == id,
        forall|id: u64| #[trigger] m.contains_key(id) ==> exists|i: int| 0 <= i < s2.len() && #[trigger] s2[i].id == id,
    ensures
        s1 == s2,
{
    assert forall|k: int| 0 <= k < s1.len() && k < s2.len() implies s1[k] == s2[k] by {
        lemma_sorted_prefix_equal(s1, s2, m, k);
    }
    if s1.len() > s2.len() {
        let a = s1[s2.len() as int].id;
        let j = choose|j: int| 0 <= j < s2.len() && #[trigger] s2[j].id == a;
        lemma_sorted_prefix_equal(s1, s2, m, j);
        assert(s1[j].id < s1[s2.len() as int].id);
    }
    if s2.len() > s1.len() {
        let a = s2[s1.len() as int].id;
        let j = choose|j: int| 0 <= j < s1.len() && #[trigger] s1[j].id == a;
        lemma_sorted_prefix_equal(s1, s2, m, j);
        assert(s2[j].id < s2[s1.len() as int].id);
    }
    assert(s1 =~= s2);
}

proof fn lemma_sorted_prefix_equal(s1: Seq<EdgeView>, s2: Seq<EdgeView>, m: Map<u64, EdgeView>, k: int)
    requires
        0 <= k < s1.len(),
        k < s2.len(),
        forall|i: int, j: int| 0 <= i < j < s1.len() ==> #[trigger] s1[i].id < #[trigger] s1[j].id,
        forall|i: int, j: int| 0 <= i < j < s2.len() ==> #[trigger] s2[i].id < #[trigger] s2[j].id,
        forall|i: int| 0 <= i < s1.len() ==> m.contains_key(#[trigger] s1[i].id) && m[s1[i].id] == s1[i],
        forall|i: int| 0 <= i < s2.len() ==> m.contains_key(#[trigger] s2[i].id) && m[s2[i].id] == s2[i],
        forall|id: u64| #[trigger] m.contains_key(id) ==> exists|i: int| 0 <= i < s1.len() && #[trigger] s1[i].id == id,
        forall|id: u64| #[trigger] m.contains_key(id) ==> exists|i: int| 0 <= i < s2.len() && #[trigger] s2[i].id == id,
    ensures
        s1[k] == s2[k],
    decreases k,
{
    if k > 0 {
        lemma_sorted_prefix_equal(s1, s2, m, k - 1);
    }
    let a = s1[k].id;
    let b = s2[k].id;
    assert(m.contains_key(a));
    let j = choose|j: int| 0 <= j < s2.len() && #[trigger] s2[j].id == a;
    assert(m.contains_key(b));
    let i = choose|i: int| 0 <= i < s1.len() && #[trigger] s1[i].id == b;
    if j < k {
        lemma_sorted_prefix_equal(s1, s2, m, j);
        assert(s1[j].id < s1[k].id);
    }
    if i < k {
        lemma_sorted_prefix_equal(s1, s2, m, i);
        assert(s2[i].id < s2[k].id);
    }
    if a < b {
        assert(j < k || j == k || s2[k].id < s2[j].id);
    }
    if b < a {
        assert(i < k || i == k || s1[k].id < s1[i].id);
    }
    assert(a == b);
}

/// The adjacency and relation views of a graph depend on its nodes and
/// edges alone: two well-formed graphs with the same nodes and edges have
/// the same views, whatever their names, allocators or histories.
pub proof fn lemma_projections_depend_on_views(g1: &Graph, g2: &Graph)
    requires
        g1.wf(),
        g2.wf(),
        g1@.nodes == g2@.nodes,
        g1@.edges == g2@.edges,
    ensures
        adjacency_of(g1.edge_seq()) == adjacency_of(g2.edge_seq()),
        relations_of(g1@.nodes, g1.edge_seq()) == relations_of(g2@.nodes, g2.edge_seq()),
{
    g1.lemma_seqs();
    g2.lemma_seqs();
    lemma_sorted_edges_unique(g1.edge_seq(), g2.edge_seq(), g1@.edges);
}

/// Every node and edge id of a well-formed graph is below the allocator's
/// next id; every operation on a graph keeps it well formed.
pub proof fn lemma_ids_below_next(g: &Graph)
    requires
        g.wf(),
    ensures
        ids_below_next(g@),
{
    g.lemma_seqs();
}

/// The operations that add or change nodes and edges keep every edge's
/// endpoints in the graph, provided that an added edge's endpoints are
/// nodes; so do removing an edge and changing labels or properties.
pub proof fn lemma_endpoints_preserved(g: GraphView, n: NodeView, e: EdgeView, id: u64)
    requires
        endpoints_present(g),
    ensures
        endpoints_present(crate::gph_file::with_node(g, n)),
        g.nodes.contains_key(e.from) && g.nodes.contains_key(e.to) ==> endpoints_present(
            crate::gph_file::with_edge(g, e),
        ),
        endpoints_present(GraphView { edges: g.edges.remove(id), ..g }),
        endpoints_present(node_updated(g, n)),
        g.nodes.contains_key(e.from) && g.nodes.contains_key(e.to) ==> endpoints_present(edge_updated(g, e)),
{
    let g1 = crate::gph_file::with_node(g, n);
    assert forall|k: u64| #[trigger] g1.edges.contains_key(k) implies g1.nodes.contains_key(g1.edges[k].from)
        && g1.nodes.contains_key(g1.edges[k].to) by {
        assert(g.edges.contains_key(k));
    }
    if g.nodes.contains_key(e.from) && g.nodes.contains_key(e.to) {
        let g2 = crate::gph_file::with_edge(g, e);
        assert forall|k: u64| #[trigger] g2.edges.contains_key(k) implies g2.nodes.contains_key(g2.edges[k].from)
            && g2.nodes.contains_key(g2.edges[k].to) by {
            if k != e.id {
                assert(g.edges.contains_key(k));
            }
        }
    }
    let g3 = GraphView { edges: g.edges.remove(id), ..g };
    assert forall|k: u64| #[trigger] g3.edges.contains_key(k) implies g3.nodes.contains_key(g3.edges[k].from)
        && g3.nodes.contains_key(g3.edges[k].to) by {
        assert(g.edges.contains_key(k));
    }
    let g4 = node_updated(g, n);
    assert forall|k: u64| #[trigger] g4.edges.contains_key(k) implies g4.nodes.contains_key(g4.edges[k].from)
        && g4.nodes.contains_key(g4.edges[k].to) by {
        assert(g.edges.contains_key(k));
    }
    if g.nodes.contains_key(e.from) && g.nodes.contains_key(e.to) {
        let g5 = edge_updated(g, e);
        assert forall|k: u64| #[trigger] g5.edges.contains_key(k) implies g5.nodes.contains_key(g5.edges[k].from)
            && g5.nodes.contains_key(g5.edges[k].to) by {
            if k != e.id {
                assert(g.edges.contains_key(k));
            }
        }
    }
}

} // verus!
