//! The graph service: the operations that callers use, with validation
//! and error mapping.
use vstd::prelude::*;
use crate::edge::{CreateEdgeDTO, Edge};
use crate::graph::{adjacency_of, endpoints_present, relations_of, Graph, GraphView, Relation, RelationView};
use crate::graph_error::GraphError;
use crate::gph_file::{loaded_graph, with_edge, with_node};
use crate::groups::{group_view, list_view};
use crate::manager::{disk_run, queue_view, StorageManager, WriteOperation, WriteView};
use crate::node::{CreateNodeDTO, Node};
use crate::pairs::{keys_distinct, map_of_pairs};
use crate::properties::Properties;
use crate::text::str_eq;
use crate::traversal::{capped, is_path, path_cost, search_result, shortest_result};

verus! {

/// Which path search a method name asks for.
pub open spec fn method_kind(method: Seq<char>) -> int {
    if method == "bfs"@ {
        0
    } else if method == "dfs"@ {
        1
    } else if method == "dijkstra"@ {
        2
    } else {
        -1
    }
}

/// The graph named `name` as a read sees it, given the in-memory graphs and
/// the graph files: the in-memory copy, or else the one its file holds.
pub open spec fn stored_in(memory: Map<Seq<char>, GraphView>, disk: Map<Seq<char>, Seq<u8>>, name: Seq<char>) -> Option<GraphView> {
    if memory.contains_key(name) {
        Some(memory[name])
    } else if disk.contains_key(name) {
        loaded_graph(disk[name])
    } else {
        None
    }
}

/// The writes that putting the nodes `ns` in graph `name` queues.
pub open spec fn node_writes(name: Seq<char>, ns: Seq<Node>) -> Seq<WriteView> {
    ns.map_values(|n: Node| WriteView::AddNode(name, n@))
}

/// The writes that putting the edges `es` in graph `name` queues.
pub open spec fn edge_writes(name: Seq<char>, es: Seq<Edge>) -> Seq<WriteView> {
    es.map_values(|e: Edge| WriteView::AddEdge(name, e@))
}

/// The first `i` edges of `data` have both endpoints in `g`.
pub open spec fn endpoints_ok_before(g: GraphView, data: Seq<CreateEdgeDTO>, i: int) -> bool {
    forall|j: int| 0 <= j < i ==> g.nodes.contains_key(#[trigger] data[j].from) && g.nodes.contains_key(data[j].to)
}

/// `added` are edges made, in order, from the first entries of `data`, with
/// ids counting from `start`.
pub open spec fn edges_added(added: Seq<Edge>, data: Seq<CreateEdgeDTO>, start: u64) -> bool {
    &&& added.len() <= data.len()
    &&& forall|j: int|
        0 <= j < added.len() ==> (#[trigger] added[j]).id == start + j && added[j].from == data[j].from && added[j].to
            == data[j].to && added[j].label@ == data[j].label@ && added[j].properties@ == data[j].properties@
}

/// `e` reports that graph `name` does not exist.
pub open spec fn names_graph(e: GraphError, name: Seq<char>) -> bool {
    match e {
        GraphError::GraphNotFound(n) => n@ == name,
        _ => false,
    }
}

/// The public operations on named graphs.
pub struct GraphService {
    storage_manager: StorageManager,
}

impl GraphService {
    /// The storage is well formed and the in-memory tier has no writes waiting.
    pub closed spec fn wf(&self) -> bool {
        &&& self.storage_manager.wf()
        &&& self.storage_manager.memory_pending() == Seq::<WriteView>::empty()
    }

    /// The graph named `name` as a read sees it: the in-memory copy, or else
    /// the one its file holds.
    pub closed spec fn stored(&self, name: Seq<char>) -> Option<GraphView> {
        stored_in(self.storage_manager.memory(), self.storage_manager.disk(), name)
    }

    /// The graph files.
    pub closed spec fn files(&self) -> Map<Seq<char>, Seq<u8>> {
        self.storage_manager.disk()
    }

    /// The in-memory graphs.
    pub closed spec fn memory(&self) -> Map<Seq<char>, GraphView> {
        self.storage_manager.memory()
    }

    /// The writes waiting for the disk tier themselves, oldest first.
    pub closed spec fn pending_writes(&self) -> Seq<WriteOperation> {
        self.storage_manager.disk_writes()
    }

    /// The pending views are the views of the pending writes.
    pub proof fn lemma_pending(&self)
        ensures
            self.disk_pending() == queue_view(self.pending_writes()),
    {
        self.storage_manager.lemma_pending();
    }

    /// The graph named `name` is in the in-memory tier.
    pub closed spec fn in_memory(&self, name: Seq<char>) -> bool {
        self.storage_manager.memory().contains_key(name)
    }

    /// Graph `name` has a file in the disk tier.
    pub closed spec fn has_file(&self, name: Seq<char>) -> bool {
        self.storage_manager.disk().contains_key(name)
    }

    /// The in-memory tier holds no graph.
    pub closed spec fn memory_empty(&self) -> bool {
        self.storage_manager.memory().dom() == Set::<Seq<char>>::empty()
    }

    /// The in-memory tier holds no graph exactly when no name is in memory.
    pub proof fn lemma_memory_empty(&self)
        ensures
            self.memory_empty() <==> forall|k: Seq<char>| !#[trigger] self.in_memory(k),
    {
        if forall|k: Seq<char>| !#[trigger] self.in_memory(k) {
            assert forall|k: Seq<char>| !#[trigger] self.storage_manager.memory().dom().contains(k) by {
                assert(!self.in_memory(k));
            }
            assert(self.storage_manager.memory().dom() =~= Set::<Seq<char>>::empty());
        }
        if self.memory_empty() {
            assert forall|k: Seq<char>| !#[trigger] self.in_memory(k) by {
                assert(!self.storage_manager.memory().dom().contains(k));
            }
        }
    }

    /// The writes waiting for the disk tier.
    pub closed spec fn disk_pending(&self) -> Seq<WriteView> {
        self.storage_manager.disk_pending()
    }

    pub fn new(storage_manager: StorageManager) -> (r: GraphService)
        requires
            storage_manager.wf(),
            storage_manager.memory_pending() == Seq::<WriteView>::empty(),
        ensures
            r.wf(),
            r.memory() == storage_manager.memory(),
            r.files() == storage_manager.disk(),
            r.disk_pending() == storage_manager.disk_pending(),
            r.pending_writes() == storage_manager.disk_writes(),
            forall|k: Seq<char>| #[trigger] r.stored(k) == stored_in(storage_manager.memory(), storage_manager.disk(), k),
            forall|k: Seq<char>| #[trigger] r.in_memory(k) == storage_manager.memory().contains_key(k),
            forall|k: Seq<char>| #[trigger] r.has_file(k) == storage_manager.disk().contains_key(k),
            r.memory_empty() == (storage_manager.memory().dom() == Set::<Seq<char>>::empty()),
    {
        GraphService { storage_manager }
    }

    pub fn storage_manager(&self) -> (r: &StorageManager)
        requires
            self.wf(),
        ensures
            r.wf(),
            r.disk_pending() == self.disk_pending(),
            r.disk() == self.files(),
            r.memory() == self.memory(),
            r.disk_writes() == self.pending_writes(),
    {
        &self.storage_manager
    }

    /// Applies the writes waiting for the disk tier; returns the names of the
    /// graphs whose files they touched.
    pub fn flush_to_disk(&mut self) -> (r: Vec<String>)
        requires
            old(self).wf(),
        ensures
            final(self).wf(),
            final(self).disk_pending() == Seq::<WriteView>::empty(),
            final(self).pending_writes() == Seq::<WriteOperation>::empty(),
            final(self).memory() == old(self).memory(),
            exists|states: Seq<Map<Seq<char>, Seq<u8>>>|
                disk_run(states, old(self).pending_writes()) && states[0] == old(self).files() && states.last()
                    == final(self).files(),
            r@.len() == old(self).disk_pending().len(),
            forall|i: int| 0 <= i < r@.len() ==> #[trigger] r@[i]@ == crate::manager::write_target(old(self).disk_pending()[i]),
            forall|k: Seq<char>| #[trigger] final(self).in_memory(k) == old(self).in_memory(k),
    {
        self.storage_manager.process_disk_queue()
    }

    /// Queues a write and applies it to the in-memory tier.
    fn write(&mut self, op: WriteOperation)
        requires
            old(self).wf(),
        ensures
            final(self).wf(),
            final(self).storage_manager.memory() == crate::manager::memory_after(
                old(self).storage_manager.memory(),
                op@,
            ),
            final(self).storage_manager.disk() == old(self).storage_manager.disk(),
            final(self).disk_pending() == old(self).disk_pending().push(op@),
            final(self).pending_writes() == old(self).pending_writes().push(op),
    {
        let ghost v = op@;
        let ghost m0 = self.storage_manager.memory();
        self.storage_manager.enqueue(op);
        proof {
            let p = Seq::<WriteView>::empty().push(v);
            assert(p.drop_last() =~= Seq::<WriteView>::empty());
            assert(crate::manager::memory_after_all(m0, Seq::<WriteView>::empty()) == m0);
            assert(p.last() == v);
            assert(crate::manager::memory_after_all(m0, p) == crate::manager::memory_after(m0, v));
            assert(self.storage_manager.memory_pending() == p);
        }
        self.storage_manager.process_memory_queue();
    }

    /// The graph named `graph_name`.
    pub fn get_graph(&mut self, graph_name: &str) -> (r: Result<Graph, GraphError>)
        requires
            old(self).wf(),
        ensures
            final(self).wf(),
            forall|k: Seq<char>| #[trigger] final(self).stored(k) == old(self).stored(k),
            final(self).files() == old(self).files(),
            final(self).disk_pending() == old(self).disk_pending(),
            final(self).pending_writes() == old(self).pending_writes(),
            final(self).disk_pending() == old(self).disk_pending(),
            match r {
                Ok(g) => old(self).stored(graph_name@) == Some(g@) && g.wf()
                    && final(self).in_memory(graph_name@),
                Err(e) => old(self).stored(graph_name@) is None && names_graph(e, graph_name@),
            },
    {
        match self.storage_manager.get_graph(graph_name) {
            Some(g) => {
                proof {
                    assert forall|k: Seq<char>| #[trigger] self.stored(k) == old(self).stored(k) by {}
                }
                Ok(g)
            },
            None => Err(GraphError::GraphNotFound(graph_name.to_owned())),
        }
    }
}

/// The relations of the groups, one group after another.
pub open spec fn flatten_groups(groups: Seq<(u64, Seq<RelationView>)>) -> Seq<RelationView>
    decreases groups.len(),
{
    if groups.len() == 0 {
        Seq::empty()
    } else {
        flatten_groups(groups.drop_last()) + groups.last().1
    }
}

/// `a` is the adjacency of a well-formed graph whose view is `v`.
pub open spec fn adjacency_matches(v: GraphView, a: Map<u64, Seq<u64>>) -> bool {
    exists|g: Graph| g.wf() && g@ == v && a == adjacency_of(#[trigger] g.edge_seq())
}

/// `p` is what a search from `origin` for `goal` may return on a
/// well-formed graph whose view is `v`.
pub open spec fn path_matches(v: GraphView, p: Seq<u64>, origin: u64, goal: u64) -> bool {
    exists|g: Graph| g.wf() && g@ == v && search_result(adjacency_of(#[trigger] g.edge_seq()), p, origin, goal)
}

/// `p` is what a breadth-first search from `origin` for `goal` may return on
/// a well-formed graph whose view is `v`: a path with the fewest edges.
pub open spec fn shortest_path_matches(v: GraphView, p: Seq<u64>, origin: u64, goal: u64) -> bool {
    exists|g: Graph| g.wf() && g@ == v && shortest_result(adjacency_of(#[trigger] g.edge_seq()), p, origin, goal)
}

/// `p` is what a weighted search from `origin` for `goal` may return on a
/// well-formed graph whose view is `v`: no path costs less, costs capped at
/// `u64::MAX`.
pub open spec fn cheapest_path_matches(v: GraphView, p: Seq<u64>, origin: u64, goal: u64, prop: Seq<char>) -> bool {
    exists|g: Graph|
        g.wf() && g@ == v && search_result(adjacency_of(#[trigger] g.edge_seq()), p, origin, goal) && forall|q: Seq<u64>|
            is_path(adjacency_of(g.edge_seq()), q, origin, goal) ==> capped(path_cost(g.edge_seq(), p, prop))
                <= path_cost(g.edge_seq(), q, prop)
}

/// `rs` lists the relations of a well-formed graph whose view is `v`,
/// grouped by source node.
pub open spec fn relations_match(v: GraphView, rs: Seq<RelationView>) -> bool {
    exists|g: Graph, groups: Seq<(u64, Seq<RelationView>)>|
        #![trigger g.edge_seq(), flatten_groups(groups)]
        g.wf() && g@ == v && keys_distinct(groups) && map_of_pairs(groups) == relations_of(
            v.nodes,
            g.edge_seq(),
        ) && rs == flatten_groups(groups)
}

/// `e` is `NodeNotFound(id)`.
pub open spec fn is_node_not_found(e: GraphError, id: u64) -> bool {
    e == GraphError::NodeNotFound(id)
}

impl GraphService {
    /// Creates an empty graph named `name`; fails if a graph of that name exists.
    pub fn create_graph(&mut self, name: String) -> (r: Result<(), GraphError>)
        requires
            old(self).wf(),
        ensures
            final(self).wf(),
            r is Err <==> old(self).stored(name@) is Some,
            r matches Err(e) ==> (e matches GraphError::GraphAlreadyExists(n) && n@ == name@),
            r is Ok ==> final(self).stored(name@) == Some(crate::in_memory_storage::empty_graph(name@))
                && final(self).in_memory(name@)
                && !final(self).memory_empty()
                && final(self).files() == old(self).files()
                && final(self).disk_pending() == old(self).disk_pending().push(WriteView::CreateGraph(name@))
                && final(self).pending_writes() == old(self).pending_writes().push(WriteOperation::CreateGraph(name)),
            r is Err ==> final(self).files() == old(self).files() && final(self).disk_pending() == old(self).disk_pending()
                && final(self).pending_writes() == old(self).pending_writes() && forall|k: Seq<char>|
                #[trigger] final(self).stored(k) == old(self).stored(k),
            forall|k: Seq<char>| k != name@ ==> #[trigger] final(self).stored(k) == old(self).stored(k),
    {
        match self.get_graph(name.as_str()) {
            Ok(_) => {
                return Err(GraphError::GraphAlreadyExists(name));
            },
            Err(_) => {},
        }
        let ghost before = *self;
        self.write(WriteOperation::CreateGraph(name));
        proof {
            assert(self.storage_manager.memory().dom().contains(name@));
            assert forall|k: Seq<char>| k != name@ implies #[trigger] self.stored(k) == before.stored(k) by {}
        }
        Ok(())
    }

    /// The names of the graphs.
    pub fn list_graphs(&self) -> (r: Vec<String>)
        requires
            self.wf(),
        ensures
            !self.memory_empty() ==> forall|k: Seq<char>| self.in_memory(k) <==> exists|i: int|
                0 <= i < r@.len() && #[trigger] r@[i]@ == k,
            self.memory_empty() ==> forall|k: Seq<char>| self.has_file(k) <==> exists|i: int|
                0 <= i < r@.len() && #[trigger] r@[i]@ == k,
    {
        self.storage_manager.list_graph_names()
    }

    /// Adds a node with the caller's id to graph `graph_name`.
    #[verifier::rlimit(60)]
    pub fn add_node(&mut self, graph_name: String, node_id: u64, label: String, properties: Properties) -> (r: Result<Node, GraphError>)
        requires
            old(self).wf(),
        ensures
            final(self).wf(),
            old(self).stored(graph_name@) is None ==> (r matches Err(e) && names_graph(e, graph_name@)),
            (old(self).stored(graph_name@) matches Some(g) && g.nodes.contains_key(node_id)) ==> (r matches Err(e) && e
                == GraphError::NodeAlreadyExists(node_id)),
            (old(self).stored(graph_name@) matches Some(g) && !g.nodes.contains_key(node_id) && node_id < u64::MAX) ==> r is Ok,
            final(self).files() == old(self).files(),
            r matches Ok(n) ==> final(self).disk_pending() == old(self).disk_pending().push(WriteView::AddNode(graph_name@, n@)),
            r is Err ==> final(self).disk_pending() == old(self).disk_pending(),
            r matches Ok(n) ==> n.id == node_id && n.label@ == label@ && n.properties@ == properties@ && final(self).stored(graph_name@)
                == Some(with_node(old(self).stored(graph_name@)->0, n@)),
            r is Err ==> forall|k: Seq<char>| #[trigger] final(self).stored(k) == old(self).stored(k),
            forall|k: Seq<char>| k != graph_name@ ==> #[trigger] final(self).stored(k) == old(self).stored(k),
            (old(self).stored(graph_name@) matches Some(g) && endpoints_present(g)) ==> endpoints_present(final(self).stored(graph_name@)->0),
    {
        let g = match self.get_graph(graph_name.as_str()) {
            Ok(g) => g,
            Err(e) => {
                return Err(e);
            },
        };
        if g.get_node(node_id).is_some() {
            return Err(GraphError::NodeAlreadyExists(node_id));
        }
        if node_id == u64::MAX {
            return Err(GraphError::InvalidOperation("node id out of range".to_owned()));
        }
        let node = Node::new(node_id, label, properties);
        let r = node.clone();
        let ghost before = *self;
        let ghost nv = node@;
        proof {
            assert(before.in_memory(graph_name@));
            assert(before.stored(graph_name@) == Some(before.storage_manager.memory()[graph_name@]));
            assert(before.storage_manager.memory()[graph_name@] == g@);
        }
        self.write(WriteOperation::AddNode(graph_name, node));
        proof {
            assert forall|k: Seq<char>| k != graph_name@ implies #[trigger] self.stored(k) == before.stored(k) by {}
            assert(self.stored(graph_name@) == Some(with_node(g@, nv)));
        }
        Ok(r)
    }

    /// Allocates the next node id of `g`, the snapshot of graph `graph_name`,
    /// and adds the node to both.
    fn add_next_node(&mut self, graph_name: &String, g: &mut Graph, data: &CreateNodeDTO) -> (r: Node)
        requires
            old(self).wf(),
            old(g).wf(),
            old(self).stored(graph_name@) == Some(old(g)@),
            old(self).in_memory(graph_name@),
            old(g)@.next_node_id < u64::MAX,
        ensures
            final(self).wf(),
            final(self).in_memory(graph_name@),
            final(g).wf(),
            final(self).stored(graph_name@) == Some(final(g)@),
            forall|k: Seq<char>| k != graph_name@ ==> #[trigger] final(self).stored(k) == old(self).stored(k),
            r.id == old(g)@.next_node_id,
            r.label@ == data.label@,
            r.properties@ == data.properties@,
            final(g)@ == with_node(old(g)@, r@),
            final(self).files() == old(self).files(),
            final(self).disk_pending() == old(self).disk_pending().push(WriteView::AddNode(graph_name@, r@)),
    {
        let node = g.add_node(data);
        let ghost mid = *self;
        self.write(WriteOperation::AddNode(graph_name.clone(), node.clone()));
        proof {
            assert forall|k: Seq<char>| k != graph_name@ implies #[trigger] self.stored(k) == mid.stored(k) by {}
            assert(g@ =~= with_node(old(g)@, node@));
        }
        node
    }

    /// Allocates the next edge id of `g`, the snapshot of graph `graph_name`,
    /// and adds the edge to both.
    fn add_next_edge(&mut self, graph_name: &String, g: &mut Graph, data: &CreateEdgeDTO) -> (r: Edge)
        requires
            old(self).wf(),
            old(g).wf(),
            old(self).stored(graph_name@) == Some(old(g)@),
            old(self).in_memory(graph_name@),
            old(g)@.next_edge_id < u64::MAX,
        ensures
            final(self).wf(),
            final(self).in_memory(graph_name@),
            final(g).wf(),
            final(self).stored(graph_name@) == Some(final(g)@),
            forall|k: Seq<char>| k != graph_name@ ==> #[trigger] final(self).stored(k) == old(self).stored(k),
            r.id == old(g)@.next_edge_id,
            r.from == data.from,
            r.to == data.to,
            r.label@ == data.label@,
            r.properties@ == data.properties@,
            final(g)@ == with_edge(old(g)@, r@),
            final(self).files() == old(self).files(),
            final(self).disk_pending() == old(self).disk_pending().push(WriteView::AddEdge(graph_name@, r@)),
    {
        let edge = g.add_edge(data);
        let ghost mid = *self;
        self.write(WriteOperation::AddEdge(graph_name.clone(), edge.clone()));
        proof {
            assert forall|k: Seq<char>| k != graph_name@ implies #[trigger] self.stored(k) == mid.stored(k) by {}
            assert(g@ =~= with_edge(old(g)@, edge@));
        }
        edge
    }

    /// Adds nodes with freshly allocated ids to graph `graph_name`, in order.
    #[verifier::rlimit(60)]
    pub fn add_nodes(&mut self, graph_name: String, nodes_data: Vec<CreateNodeDTO>) -> (r: Result<Vec<Node>, GraphError>)
        requires
            old(self).wf(),
        ensures
            final(self).wf(),
            old(self).stored(graph_name@) is None ==> (r matches Err(e) && names_graph(e, graph_name@)),
            (old(self).stored(graph_name@) matches Some(g) && g.next_node_id + nodes_data@.len() < u64::MAX) ==> r is Ok,
            final(self).files() == old(self).files(),
            r matches Ok(ns) ==> final(self).disk_pending() == old(self).disk_pending() + node_writes(graph_name@, ns@),
            r matches Ok(ns) ==> ns@.len() == nodes_data@.len() && forall|i: int|
                0 <= i < ns@.len() ==> (#[trigger] ns@[i]).id == old(self).stored(graph_name@)->0.next_node_id + i
                    && ns@[i].label@ == nodes_data@[i].label@ && ns@[i].properties@ == nodes_data@[i].properties@
                    && final(self).stored(graph_name@)->0.nodes.contains_key(ns@[i].id),
            forall|k: Seq<char>| k != graph_name@ ==> #[trigger] final(self).stored(k) == old(self).stored(k),
            (old(self).stored(graph_name@) matches Some(g) && endpoints_present(g)) ==> endpoints_present(final(self).stored(graph_name@)->0),
    {
        let mut g = match self.get_graph(graph_name.as_str()) {
            Ok(g) => g,
            Err(e) => {
                return Err(e);
            },
        };
        let ghost start = g@.next_node_id;
        let ghost g0 = g@;
        let ghost before = *self;
        let mut created: Vec<Node> = Vec::new();
        let n = nodes_data.len();
        let mut i: usize = 0;
        while i < n
            invariant
                self.wf(),
                g.wf(),
                n == nodes_data@.len(),
                i <= n,
                self.stored(graph_name@) == Some(g@),
                g@.next_node_id == start + i,
                start == g0.next_node_id,
                g@.edges == g0.edges,
                forall|k: u64| #[trigger] g0.nodes.contains_key(k) ==> g@.nodes.contains_key(k),
                forall|k: Seq<char>| k != graph_name@ ==> #[trigger] self.stored(k) == old(self).stored(k),
                self.in_memory(graph_name@),
                created@.len() == i,
                self.disk_pending() == old(self).disk_pending() + node_writes(graph_name@, created@),
                self.files() == old(self).files(),
                forall|j: int|
                    0 <= j < i ==> (#[trigger] created@[j]).id == start + j && created@[j].label@ == nodes_data@[j].label@
                        && created@[j].properties@ == nodes_data@[j].properties@ && g@.nodes.contains_key(created@[j].id),
                old(self).stored(graph_name@) == Some(g0),
                endpoints_present(g0) ==> endpoints_present(g@),
            decreases n - i,
        {
            if g.id_generator().next_node_id() == u64::MAX {
                return Err(GraphError::InvalidOperation("node ids exhausted".to_owned()));
            }
            let node = self.add_next_node(&graph_name, &mut g, &nodes_data[i]);
            let ghost before_push = created@;
            created.push(node);
            proof {
                assert(node_writes(graph_name@, created@) =~= node_writes(graph_name@, before_push).push(
                    WriteView::AddNode(graph_name@, created@.last()@),
                ));
            }
            i = i + 1;
        }
        Ok(created)
    }

    /// Adds an edge with the caller's id to graph `graph_name`; both endpoints
    /// must be nodes of the graph.
    #[verifier::rlimit(60)]
    pub fn add_edge(
        &mut self,
        graph_name: String,
        edge_id: u64,
        from: u64,
        to: u64,
        label: String,
        properties: Properties,
    ) -> (r: Result<Edge, GraphError>)
        requires
            old(self).wf(),
        ensures
            final(self).wf(),
            old(self).stored(graph_name@) is None ==> (r matches Err(e) && names_graph(e, graph_name@)),
            (old(self).stored(graph_name@) matches Some(g) && g.edges.contains_key(edge_id)) ==> (r matches Err(e) && e
                == GraphError::EdgeAlreadyExists(edge_id)),
            (old(self).stored(graph_name@) matches Some(g) && !g.edges.contains_key(edge_id) && !g.nodes.contains_key(from)) ==> (r matches Err(e) && is_node_not_found(e, from)),
            (old(self).stored(graph_name@) matches Some(g) && !g.edges.contains_key(edge_id) && g.nodes.contains_key(from)
                && !g.nodes.contains_key(to)) ==> (r matches Err(e) && is_node_not_found(e, to)),
            (old(self).stored(graph_name@) matches Some(g) && !g.edges.contains_key(edge_id) && g.nodes.contains_key(from)
                && g.nodes.contains_key(to) && edge_id < u64::MAX) ==> r is Ok,
            final(self).files() == old(self).files(),
            r matches Ok(e) ==> final(self).disk_pending() == old(self).disk_pending().push(WriteView::AddEdge(graph_name@, e@)),
            r is Err ==> final(self).disk_pending() == old(self).disk_pending(),
            r matches Ok(e) ==> e.id == edge_id && e.from == from && e.to == to && e.label@ == label@ && e.properties@
                == properties@ && final(self).stored(graph_name@) == Some(with_edge(old(self).stored(graph_name@)->0, e@)),
            r is Err ==> forall|k: Seq<char>| #[trigger] final(self).stored(k) == old(self).stored(k),
            forall|k: Seq<char>| k != graph_name@ ==> #[trigger] final(self).stored(k) == old(self).stored(k),
            (old(self).stored(graph_name@) matches Some(g) && endpoints_present(g)) ==> endpoints_present(final(self).stored(graph_name@)->0),
    {
        let g = match self.get_graph(graph_name.as_str()) {
            Ok(g) => g,
            Err(e) => {
                return Err(e);
            },
        };
        if g.get_edge(edge_id).is_some() {
            return Err(GraphError::EdgeAlreadyExists(edge_id));
        }
        if g.get_node(from).is_none() {
            return Err(GraphError::NodeNotFound(from));
        }
        if g.get_node(to).is_none() {
            return Err(GraphError::NodeNotFound(to));
        }
        if edge_id == u64::MAX {
            return Err(GraphError::InvalidOperation("edge id out of range".to_owned()));
        }
        let edge = Edge::new(edge_id, label, from, to, properties);
        let r = edge.clone();
        let ghost before = *self;
        let ghost ev = edge@;
        proof {
            assert(before.in_memory(graph_name@));
            assert(before.stored(graph_name@) == Some(before.storage_manager.memory()[graph_name@]));
            assert(before.storage_manager.memory()[graph_name@] == g@);
        }
        self.write(WriteOperation::AddEdge(graph_name, edge));
        proof {
            assert forall|k: Seq<char>| k != graph_name@ implies #[trigger] self.stored(k) == before.stored(k) by {}
            assert(self.stored(graph_name@) == Some(with_edge(g@, ev)));
            if endpoints_present(g@) {
                assert forall|id: u64| #[trigger] with_edge(g@, ev).edges.contains_key(id) implies with_edge(g@, ev).nodes.contains_key(
                    with_edge(g@, ev).edges[id].from,
                ) && with_edge(g@, ev).nodes.contains_key(with_edge(g@, ev).edges[id].to) by {
                    if id != ev.id {
                        assert(g@.edges.contains_key(id));
                    }
                }
            }
        }
        Ok(r)
    }

    /// Adds edges with freshly allocated ids to graph `graph_name`, in order.
    /// Stops at the first edge with an endpoint that is not a node of the
    /// graph; the edges before it stay.
    #[verifier::rlimit(60)]
    pub fn add_edges(&mut self, graph_name: String, edges_data: Vec<CreateEdgeDTO>) -> (r: Result<Vec<Edge>, GraphError>)
        requires
            old(self).wf(),
        ensures
            final(self).wf(),
            old(self).stored(graph_name@) is None ==> (r matches Err(e) && names_graph(e, graph_name@)),
            r matches Ok(es) ==> es@.len() == edges_data@.len() && forall|i: int|
                0 <= i < es@.len() ==> (#[trigger] es@[i]).id == old(self).stored(graph_name@)->0.next_edge_id + i
                    && es@[i].from == edges_data@[i].from && es@[i].to == edges_data@[i].to && es@[i].label@
                    == edges_data@[i].label@ && es@[i].properties@ == edges_data@[i].properties@
                    && final(self).stored(graph_name@)->0.edges.contains_key(es@[i].id),
            final(self).files() == old(self).files(),
            r matches Ok(es) ==> final(self).disk_pending() == old(self).disk_pending() + edge_writes(graph_name@, es@),
            (old(self).stored(graph_name@) matches Some(g) && edges_data@.len() > 0 && g.nodes.contains_key(edges_data@[0].from)
                && !g.nodes.contains_key(edges_data@[0].to)) ==> (r matches Err(e) && is_node_not_found(e, edges_data@[0].to)
                && final(self).stored(graph_name@) == old(self).stored(graph_name@)),
            (old(self).stored(graph_name@) matches Some(g) && edges_data@.len() > 0 && !g.nodes.contains_key(edges_data@[0].from)) ==> (r matches Err(e) && is_node_not_found(e, edges_data@[0].from) && final(self).stored(graph_name@) == old(self).stored(graph_name@)),
            old(self).stored(graph_name@) matches Some(g) && g.next_edge_id + edges_data@.len() < u64::MAX && (forall|i: int|
                0 <= i < edges_data@.len() ==> g.nodes.contains_key(#[trigger] edges_data@[i].from) && g.nodes.contains_key(edges_data@[i].to))
                ==> r is Ok,
            forall|i: int|
                #![trigger edges_data@[i]]
                old(self).stored(graph_name@) is Some && 0 <= i < edges_data@.len() && old(self).stored(graph_name@)->0.next_edge_id + i
                    < u64::MAX && endpoints_ok_before(old(self).stored(graph_name@)->0, edges_data@, i)
                    && !old(self).stored(graph_name@)->0.nodes.contains_key(edges_data@[i].from) ==> (r matches Err(e)
                    && is_node_not_found(e, edges_data@[i].from)),
            forall|i: int|
                #![trigger edges_data@[i]]
                old(self).stored(graph_name@) is Some && 0 <= i < edges_data@.len() && old(self).stored(graph_name@)->0.next_edge_id + i
                    < u64::MAX && endpoints_ok_before(old(self).stored(graph_name@)->0, edges_data@, i)
                    && old(self).stored(graph_name@)->0.nodes.contains_key(edges_data@[i].from)
                    && !old(self).stored(graph_name@)->0.nodes.contains_key(edges_data@[i].to) ==> (r matches Err(e)
                    && is_node_not_found(e, edges_data@[i].to)),
            old(self).stored(graph_name@) is None ==> final(self).disk_pending() == old(self).disk_pending(),
            r is Err && old(self).stored(graph_name@) is Some ==> exists|added: Seq<Edge>|
                edges_added(added, edges_data@, old(self).stored(graph_name@)->0.next_edge_id) && final(self).disk_pending()
                    == old(self).disk_pending() + edge_writes(graph_name@, added),
            forall|k: Seq<char>| k != graph_name@ ==> #[trigger] final(self).stored(k) == old(self).stored(k),
            (old(self).stored(graph_name@) matches Some(g) && endpoints_present(g)) ==> endpoints_present(final(self).stored(graph_name@)->0),
    {
        let mut g = match self.get_graph(graph_name.as_str()) {
            Ok(g) => g,
            Err(e) => {
                return Err(e);
            },
        };
        let ghost start = g@.next_edge_id;
        let ghost g0 = g@;
        let ghost before = *self;
        let mut created: Vec<Edge> = Vec::new();
        let n = edges_data.len();
        let mut i: usize = 0;
        while i < n
            invariant
                self.wf(),
                g.wf(),
                n == edges_data@.len(),
                i <= n,
                self.stored(graph_name@) == Some(g@),
                g@.next_edge_id == start + i,
                start == g0.next_edge_id,
                g@.nodes == g0.nodes,
                i == 0 ==> g@ == g0,
                i > 0 ==> g0.nodes.contains_key(edges_data@[0].from),
                i > 0 ==> g0.nodes.contains_key(edges_data@[0].to),
                endpoints_ok_before(g0, edges_data@, i as int),
                edges_added(created@, edges_data@, start),
                forall|k: u64| #[trigger] g0.edges.contains_key(k) ==> g@.edges.contains_key(k),
                forall|k: Seq<char>| k != graph_name@ ==> #[trigger] self.stored(k) == old(self).stored(k),
                self.in_memory(graph_name@),
                created@.len() == i,
                self.disk_pending() == old(self).disk_pending() + edge_writes(graph_name@, created@),
                self.files() == old(self).files(),
                forall|j: int|
                    0 <= j < i ==> (#[trigger] created@[j]).id == start + j && created@[j].from == edges_data@[j].from
                        && created@[j].to == edges_data@[j].to && created@[j].label@ == edges_data@[j].label@
                        && created@[j].properties@ == edges_data@[j].properties@
                        && g@.edges.contains_key(created@[j].id),
                old(self).stored(graph_name@) == Some(g0),
                endpoints_present(g0) ==> endpoints_present(g@),
            decreases n - i,
        {
            let data = &edges_data[i];
            if g.get_node(data.from).is_none() {
                proof {
                    assert forall|i0: int| 0 <= i0 < edges_data@.len() && i0 != i && endpoints_ok_before(g0, edges_data@, i0)
                        implies g0.nodes.contains_key(#[trigger] edges_data@[i0].from) by {
                        if i0 > i {
                            assert(g0.nodes.contains_key(edges_data@[i as int].from));
                        }
                    }
                    assert(edges_added(created@, edges_data@, start));
                    assert(old(self).stored(graph_name@)->0.next_edge_id == start);
                    assert(edges_added(created@, edges_data@, old(self).stored(graph_name@)->0.next_edge_id)
                        && self.disk_pending() == old(self).disk_pending() + edge_writes(graph_name@, created@));
                }
                return Err(GraphError::NodeNotFound(data.from));
            }
            if g.get_node(data.to).is_none() {
                proof {
                    assert forall|i0: int| 0 <= i0 < edges_data@.len() && i0 != i && endpoints_ok_before(g0, edges_data@, i0)
                        implies g0.nodes.contains_key(#[trigger] edges_data@[i0].to) by {
                        if i0 > i {
                            assert(g0.nodes.contains_key(edges_data@[i as int].from));
                            assert(g0.nodes.contains_key(edges_data@[i as int].to));
                        } else {
                            assert(g0.nodes.contains_key(edges_data@[i0].from));
                        }
                    }
                    assert(edges_added(created@, edges_data@, start));
                    assert(old(self).stored(graph_name@)->0.next_edge_id == start);
                    assert(edges_added(created@, edges_data@, old(self).stored(graph_name@)->0.next_edge_id)
                        && self.disk_pending() == old(self).disk_pending() + edge_writes(graph_name@, created@));
                }
                return Err(GraphError::NodeNotFound(data.to));
            }
            if g.id_generator().next_edge_id() == u64::MAX {
                proof {
                    assert(edges_added(created@, edges_data@, start));
                }
                return Err(GraphError::InvalidOperation("edge ids exhausted".to_owned()));
            }
            let edge = self.add_next_edge(&graph_name, &mut g, data);
            let ghost before_push = created@;
            created.push(edge);
            proof {
                assert forall|j: int| 0 <= j < i + 1 implies g0.nodes.contains_key(#[trigger] edges_data@[j].from)
                    && g0.nodes.contains_key(edges_data@[j].to) by {
                    if j == i {
                        assert(g0.nodes.contains_key(data.from) && g0.nodes.contains_key(data.to));
                    }
                }
                assert(edge_writes(graph_name@, created@) =~= edge_writes(graph_name@, before_push).push(
                    WriteView::AddEdge(graph_name@, created@.last()@),
                ));
            }
            i = i + 1;
        }
        Ok(created)
    }

    /// The adjacency of graph `graph_name`.
    pub fn get_graph_adjacency(&mut self, graph_name: String) -> (r: Result<Vec<(u64, Vec<u64>)>, GraphError>)
        requires
            old(self).wf(),
        ensures
            final(self).wf(),
            forall|k: Seq<char>| #[trigger] final(self).stored(k) == old(self).stored(k),
            final(self).files() == old(self).files(),
            final(self).disk_pending() == old(self).disk_pending(),
            final(self).pending_writes() == old(self).pending_writes(),
            old(self).stored(graph_name@) is None <==> r is Err,
            r matches Err(e) ==> names_graph(e, graph_name@),
            r matches Ok(a) ==> (keys_distinct(group_view(a@)) && adjacency_matches(
                old(self).stored(graph_name@)->0,
                map_of_pairs(group_view(a@)),
            )),
    {
        let g = match self.get_graph(graph_name.as_str()) {
            Ok(g) => g,
            Err(e) => {
                return Err(e);
            },
        };
        let a = g.adjacency_list();
        proof {
            assert(g.wf() && g@ == old(self).stored(graph_name@)->0 && map_of_pairs(group_view(a@)) == adjacency_of(g.edge_seq()));
        }
        Ok(a)
    }

    /// The relations of graph `graph_name`, grouped by source node.
    #[verifier::rlimit(60)]
    pub fn get_graph_relations(&mut self, graph_name: String) -> (r: Result<Vec<Relation>, GraphError>)
        requires
            old(self).wf(),
        ensures
            final(self).wf(),
            forall|k: Seq<char>| #[trigger] final(self).stored(k) == old(self).stored(k),
            final(self).files() == old(self).files(),
            final(self).disk_pending() == old(self).disk_pending(),
            final(self).pending_writes() == old(self).pending_writes(),
            old(self).stored(graph_name@) is None <==> r is Err,
            r matches Err(e) ==> names_graph(e, graph_name@),
            r matches Ok(rs) ==> relations_match(old(self).stored(graph_name@)->0, list_view(rs@)),
    {
        let g = match self.get_graph(graph_name.as_str()) {
            Ok(g) => g,
            Err(e) => {
                return Err(e);
            },
        };
        let groups = g.relations_list();
        let ghost gv = group_view(groups@);
        let mut out: Vec<Relation> = Vec::new();
        let n = groups.len();
        let mut i: usize = 0;
        while i < n
            invariant
                n == groups@.len(),
                gv == group_view(groups@),
                i <= n,
                list_view(out@) == flatten_groups(gv.take(i as int)),
            decreases n - i,
        {
            let list = &groups[i].1;
            let m = list.len();
            let mut j: usize = 0;
            let ghost base = list_view(out@);
            while j < m
                invariant
                    m == list@.len(),
                    list == &groups@[i as int].1,
                    j <= m,
                    list_view(out@) == base + list_view(list@).take(j as int),
                decreases m - j,
            {
                let ghost before_push = out@;
                let item = list[j].clone();
                out.push(item);
                proof {
                    crate::groups::lemma_list_view_push(before_push, item);
                    assert(list_view(list@).take(j + 1) =~= list_view(list@).take(j as int).push(list@[j as int]@));
                    assert(list_view(out@) =~= base + list_view(list@).take(j + 1));
                }
                j = j + 1;
            }
            proof {
                assert(list_view(list@).take(m as int) =~= list_view(list@));
                assert(gv.take(i + 1).drop_last() =~= gv.take(i as int));
                assert(gv[i as int].1 == list_view(list@));
            }
            i = i + 1;
        }
        proof {
            assert(gv.take(n as int) =~= gv);
        }
        Ok(out)
    }

    /// Searches graph `graph_name` for a path from `origin` to `goal` with
    /// the method named `method`: `bfs`, `dfs` or `dijkstra`, which weighs
    /// each edge by its property `property_name`.
    pub fn search_path(
        &mut self,
        graph_name: String,
        method: String,
        origin: u64,
        goal: u64,
        property_name: String,
    ) -> (r: Result<Vec<u64>, GraphError>)
        requires
            old(self).wf(),
        ensures
            final(self).wf(),
            forall|k: Seq<char>| #[trigger] final(self).stored(k) == old(self).stored(k),
            final(self).files() == old(self).files(),
            final(self).disk_pending() == old(self).disk_pending(),
            final(self).pending_writes() == old(self).pending_writes(),
            method_kind(method@) == -1 ==> (r matches Err(e) && e matches GraphError::MethodNotSupported(m) && m@ == method@),
            method_kind(method@) != -1 && old(self).stored(graph_name@) is None ==> (r matches Err(e) && names_graph(e, graph_name@)),
            method_kind(method@) != -1 && old(self).stored(graph_name@) is Some ==> r is Ok,
            r matches Ok(p) ==> path_matches(old(self).stored(graph_name@)->0, p@, origin, goal),
            method@ == "bfs"@ ==> (r matches Ok(p) ==> shortest_path_matches(old(self).stored(graph_name@)->0, p@, origin, goal)),
            method@ == "dijkstra"@ ==> (r matches Ok(p) ==> cheapest_path_matches(
                old(self).stored(graph_name@)->0,
                p@,
                origin,
                goal,
                property_name@,
            )),
    {
        proof {
            reveal_strlit("bfs");
            reveal_strlit("dfs");
            reveal_strlit("dijkstra");
            assert("bfs"@.len() == 3 && "dfs"@.len() == 3 && "dijkstra"@.len() == 8);
            assert("bfs"@[0] == 'b' && "dfs"@[0] == 'd');
        }
        if str_eq(method.as_str(), "bfs") {
            proof {
                assert(method@ != "dijkstra"@);
            }
            self.bfs_path(graph_name, origin, goal)
        } else if str_eq(method.as_str(), "dfs") {
            proof {
                assert(method@ != "dijkstra"@ && method@ != "bfs"@);
            }
            self.dfs_path(graph_name, origin, goal)
        } else if str_eq(method.as_str(), "dijkstra") {
            let ghost pn = property_name@;
            let ghost before = *self;
            let r = self.dijkstra_path(graph_name, origin, goal, property_name);
            proof {
                assert(method@ == "dijkstra"@);
                assert(before.stored(graph_name@) == old(self).stored(graph_name@));
                assert(r matches Ok(p) ==> cheapest_path_matches(before.stored(graph_name@)->0, p@, origin, goal, pn));
            }
            r
        } else {
            proof {
                reveal_strlit("bfs");
                reveal_strlit("dfs");
                reveal_strlit("dijkstra");
            }
            Err(GraphError::MethodNotSupported(method))
        }
    }

    /// Breadth-first search on graph `graph_name`.
    pub fn bfs_path(&mut self, graph_name: String, origin: u64, goal: u64) -> (r: Result<Vec<u64>, GraphError>)
        requires
            old(self).wf(),
        ensures
            final(self).wf(),
            forall|k: Seq<char>| #[trigger] final(self).stored(k) == old(self).stored(k),
            final(self).files() == old(self).files(),
            final(self).disk_pending() == old(self).disk_pending(),
            final(self).pending_writes() == old(self).pending_writes(),
            old(self).stored(graph_name@) is None <==> r is Err,
            r matches Err(e) ==> names_graph(e, graph_name@),
            r matches Ok(p) ==> path_matches(old(self).stored(graph_name@)->0, p@, origin, goal),
            r matches Ok(p) ==> shortest_path_matches(old(self).stored(graph_name@)->0, p@, origin, goal),
    {
        let g = match self.get_graph(graph_name.as_str()) {
            Ok(g) => g,
            Err(e) => {
                return Err(e);
            },
        };
        let p = g.bfs(origin, goal);
        proof {
            assert(g.wf() && g@ == old(self).stored(graph_name@)->0 && search_result(adjacency_of(g.edge_seq()), p@, origin, goal));
            assert(g.wf() && g@ == old(self).stored(graph_name@)->0 && shortest_result(adjacency_of(g.edge_seq()), p@, origin, goal));
        }
        Ok(p)
    }

    /// Depth-first search on graph `graph_name`.
    pub fn dfs_path(&mut self, graph_name: String, origin: u64, goal: u64) -> (r: Result<Vec<u64>, GraphError>)
        requires
            old(self).wf(),
        ensures
            final(self).wf(),
            forall|k: Seq<char>| #[trigger] final(self).stored(k) == old(self).stored(k),
            final(self).files() == old(self).files(),
            final(self).disk_pending() == old(self).disk_pending(),
            final(self).pending_writes() == old(self).pending_writes(),
            old(self).stored(graph_name@) is None <==> r is Err,
            r matches Err(e) ==> names_graph(e, graph_name@),
            r matches Ok(p) ==> path_matches(old(self).stored(graph_name@)->0, p@, origin, goal),
    {
        let g = match self.get_graph(graph_name.as_str()) {
            Ok(g) => g,
            Err(e) => {
                return Err(e);
            },
        };
        let p = g.dfs(origin, goal);
        proof {
            assert(g.wf() && g@ == old(self).stored(graph_name@)->0 && search_result(adjacency_of(g.edge_seq()), p@, origin, goal));
        }
        Ok(p)
    }

    /// Weighted shortest-path search on graph `graph_name`.
    pub fn dijkstra_path(&mut self, graph_name: String, origin: u64, goal: u64, property_name: String) -> (r: Result<Vec<u64>, GraphError>)
        requires
            old(self).wf(),
        ensures
            final(self).wf(),
            forall|k: Seq<char>| #[trigger] final(self).stored(k) == old(self).stored(k),
            final(self).files() == old(self).files(),
            final(self).disk_pending() == old(self).disk_pending(),
            final(self).pending_writes() == old(self).pending_writes(),
            old(self).stored(graph_name@) is None <==> r is Err,
            r matches Err(e) ==> names_graph(e, graph_name@),
            r matches Ok(p) ==> path_matches(old(self).stored(graph_name@)->0, p@, origin, goal),
            r matches Ok(p) ==> cheapest_path_matches(old(self).stored(graph_name@)->0, p@, origin, goal, property_name@),
    {
        let g = match self.get_graph(graph_name.as_str()) {
            Ok(g) => g,
            Err(e) => {
                return Err(e);
            },
        };
        let p = g.dijkstra(origin, goal, property_name.as_str());
        proof {
            assert(g.wf() && g@ == old(self).stored(graph_name@)->0 && search_result(adjacency_of(g.edge_seq()), p@, origin, goal));
        }
        Ok(p)
    }
}

} // verus!
