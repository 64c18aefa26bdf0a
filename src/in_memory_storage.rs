//! The in-memory tier: graphs by name.
use vstd::prelude::*;
use crate::edge::Edge;
use crate::graph::{edge_updated, node_updated, Graph, GraphView};
use crate::graph_error::GraphError;
use crate::gph_file::{with_edge, with_node};
use crate::id_generator::IdGenerator;
use crate::named::{find_name, names_distinct, named_map, names_of, put_named, take_named};
use crate::node::Node;

verus! {

/// A graph with no nodes or edges whose allocators start at 1.
pub open spec fn empty_graph(name: Seq<char>) -> GraphView {
    GraphView { name, nodes: Map::empty(), edges: Map::empty(), next_node_id: 1, next_edge_id: 1 }
}

/// The error of a mutator called with an unknown graph name.
pub open spec fn is_missing_graph(e: GraphError) -> bool {
    e is StorageError
}

/// Graphs by name. Readers get copies; writers go through the methods below.
pub struct InMemoryStorage {
    graphs: Vec<(String, Graph)>,
}

impl View for InMemoryStorage {
    type V = Map<Seq<char>, GraphView>;

    closed spec fn view(&self) -> Map<Seq<char>, GraphView> {
        named_map(self.graphs@)
    }
}

fn graph_not_found() -> (r: GraphError)
    ensures
        is_missing_graph(r),
{
    GraphError::StorageError("graph not found".to_owned())
}

impl InMemoryStorage {
    /// Names are distinct and every graph is well formed.
    pub closed spec fn wf(&self) -> bool {
        &&& names_distinct(self.graphs@)
        &&& forall|i: int| 0 <= i < self.graphs@.len() ==> (#[trigger] self.graphs@[i].1).wf()
    }

    pub fn new() -> (r: InMemoryStorage)
        ensures
            r.wf(),
            r@ == Map::<Seq<char>, GraphView>::empty(),
    {
        let r = InMemoryStorage { graphs: Vec::new() };
        proof {
            assert(crate::named::named_view(r.graphs@) =~= Seq::empty());
            assert(r@ =~= Map::<Seq<char>, GraphView>::empty());
        }
        r
    }

    /// The names of the graphs held.
    pub fn list_graph_names(&self) -> (r: Vec<String>)
        requires
            self.wf(),
        ensures
            forall|k: Seq<char>| self@.contains_key(k) <==> exists|i: int| 0 <= i < r@.len() && #[trigger] r@[i]@ == k,
    {
        names_of(&self.graphs)
    }

    /// A copy of the graph named `graph_name`, if there is one.
    pub fn get_graph(&self, graph_name: &str) -> (r: Option<Graph>)
        requires
            self.wf(),
        ensures
            match r {
                Some(g) => self@.contains_key(graph_name@) && g@ == self@[graph_name@] && g.wf(),
                None => !self@.contains_key(graph_name@),
            },
    {
        match find_name(&self.graphs, graph_name) {
            Some(i) => {
                let g = self.graphs[i].1.clone();
                proof {
                    assert(self.graphs@[i as int].1.wf());
                }
                Some(g)
            },
            None => None,
        }
    }

    /// Puts `graph` under `graph_name`, replacing any graph of that name.
    pub fn insert_graph(&mut self, graph_name: String, graph: Graph)
        requires
            old(self).wf(),
            graph.wf(),
        ensures
            final(self).wf(),
            final(self)@ == old(self)@.insert(graph_name@, graph@),
    {
        let ghost g = graph;
        put_named(&mut self.graphs, graph_name, graph);
        proof {
            assert forall|i: int| 0 <= i < self.graphs@.len() implies (#[trigger] self.graphs@[i].1).wf() by {
                if self.graphs@[i].1 != g {
                    let j = choose|j: int| 0 <= j < old(self).graphs@.len() && old(self).graphs@[j].1 == self.graphs@[i].1;
                    assert(old(self).graphs@[j].1.wf());
                }
            }
        }
    }

    /// Creates an empty graph named `graph_name`, replacing any graph of that
    /// name, and returns a copy of it.
    pub fn create_graph(&mut self, graph_name: String) -> (r: Graph)
        requires
            old(self).wf(),
        ensures
            final(self).wf(),
            r@ == empty_graph(graph_name@),
            r.wf(),
            final(self)@ == old(self)@.insert(graph_name@, empty_graph(graph_name@)),
    {
        let graph = Graph::new(graph_name.clone(), IdGenerator::new());
        let r = graph.clone();
        proof {
            assert(graph@ =~= empty_graph(graph_name@));
        }
        self.insert_graph(graph_name, graph);
        r
    }

    /// Removes the graph named `graph_name` from the store and hands it out.
    fn take(&mut self, graph_name: &str) -> (r: Option<Graph>)
        requires
            old(self).wf(),
        ensures
            final(self).wf(),
            final(self)@ == old(self)@.remove(graph_name@),
            match r {
                Some(g) => old(self)@.contains_key(graph_name@) && g@ == old(self)@[graph_name@] && g.wf(),
                None => !old(self)@.contains_key(graph_name@),
            },
    {
        let r = take_named(&mut self.graphs, graph_name);
        proof {
            assert forall|i: int| 0 <= i < self.graphs@.len() implies (#[trigger] self.graphs@[i].1).wf() by {
                let j = choose|j: int| 0 <= j < old(self).graphs@.len() && old(self).graphs@[j].1 == self.graphs@[i].1;
                assert(old(self).graphs@[j].1.wf());
            }
            if r is Some {
                let g = r->0;
                let j = choose|j: int| 0 <= j < old(self).graphs@.len() && old(self).graphs@[j].1 == g;
                assert(old(self).graphs@[j].1.wf());
            }
        }
        r
    }

    /// Removes the graph named `graph_name`.
    pub fn delete_graph(&mut self, graph_name: &str) -> (r: Result<(), GraphError>)
        requires
            old(self).wf(),
        ensures
            final(self).wf(),
            final(self)@ == old(self)@.remove(graph_name@),
            r is Ok <==> old(self)@.contains_key(graph_name@),
            r matches Err(e) ==> is_missing_graph(e),
    {
        match self.take(graph_name) {
            Some(_) => Ok(()),
            None => Err(graph_not_found()),
        }
    }

    /// Puts `node` under its id in the graph named `graph_name`.
    pub fn add_node(&mut self, graph_name: &str, node: Node) -> (r: Result<(), GraphError>)
        requires
            old(self).wf(),
        ensures
            final(self).wf(),
            r is Ok <==> old(self)@.contains_key(graph_name@) && node.id < u64::MAX,
            r is Ok ==> final(self)@ == old(self)@.insert(graph_name@, with_node(old(self)@[graph_name@], node@)),
            r is Err ==> final(self)@ == old(self)@,
            r matches Err(e) ==> is_missing_graph(e),
    {
        if node.id == u64::MAX {
            return Err(GraphError::StorageError("node id out of range".to_owned()));
        }
        let ghost before = self@;
        match self.take(graph_name) {
            Some(mut g) => {
                g.add_full_node(node);
                self.insert_graph(graph_name.to_owned(), g);
                proof {
                    assert(self@ =~= before.insert(graph_name@, with_node(before[graph_name@], node@)));
                }
                Ok(())
            },
            None => {
                proof {
                    assert(self@ =~= before);
                }
                Err(graph_not_found())
            },
        }
    }

    /// Puts `edge` under its id in the graph named `graph_name`.
    pub fn add_edge(&mut self, graph_name: &str, edge: Edge) -> (r: Result<(), GraphError>)
        requires
            old(self).wf(),
        ensures
            final(self).wf(),
            r is Ok <==> old(self)@.contains_key(graph_name@) && edge.id < u64::MAX,
            r is Ok ==> final(self)@ == old(self)@.insert(graph_name@, with_edge(old(self)@[graph_name@], edge@)),
            r is Err ==> final(self)@ == old(self)@,
            r matches Err(e) ==> is_missing_graph(e),
    {
        if edge.id == u64::MAX {
            return Err(GraphError::StorageError("edge id out of range".to_owned()));
        }
        let ghost before = self@;
        match self.take(graph_name) {
            Some(mut g) => {
                g.add_full_edge(edge);
                self.insert_graph(graph_name.to_owned(), g);
                proof {
                    assert(self@ =~= before.insert(graph_name@, with_edge(before[graph_name@], edge@)));
                }
                Ok(())
            },
            None => {
                proof {
                    assert(self@ =~= before);
                }
                Err(graph_not_found())
            },
        }
    }

    /// Removes node `node_id` from the graph named `graph_name`.
    pub fn delete_node(&mut self, graph_name: &str, node_id: u64) -> (r: Result<(), GraphError>)
        requires
            old(self).wf(),
        ensures
            final(self).wf(),
            r is Ok <==> old(self)@.contains_key(graph_name@),
            r is Ok ==> final(self)@ == old(self)@.insert(
                graph_name@,
                GraphView { nodes: old(self)@[graph_name@].nodes.remove(node_id), ..old(self)@[graph_name@] },
            ),
            r is Err ==> final(self)@ == old(self)@,
            r matches Err(e) ==> is_missing_graph(e),
    {
        let ghost before = self@;
        match self.take(graph_name) {
            Some(mut g) => {
                g.delete_node(node_id);
                self.insert_graph(graph_name.to_owned(), g);
                proof {
                    assert(self@ =~= before.insert(graph_name@, GraphView { nodes: before[graph_name@].nodes.remove(node_id), ..before[graph_name@] }));
                }
                Ok(())
            },
            None => {
                proof {
                    assert(self@ =~= before);
                }
                Err(graph_not_found())
            },
        }
    }

    /// Removes edge `edge_id` from the graph named `graph_name`.
    pub fn delete_edge(&mut self, graph_name: &str, edge_id: u64) -> (r: Result<(), GraphError>)
        requires
            old(self).wf(),
        ensures
            final(self).wf(),
            r is Ok <==> old(self)@.contains_key(graph_name@),
            r is Ok ==> final(self)@ == old(self)@.insert(
                graph_name@,
                GraphView { edges: old(self)@[graph_name@].edges.remove(edge_id), ..old(self)@[graph_name@] },
            ),
            r is Err ==> final(self)@ == old(self)@,
            r matches Err(e) ==> is_missing_graph(e),
    {
        let ghost before = self@;
        match self.take(graph_name) {
            Some(mut g) => {
                g.delete_edge(edge_id);
                self.insert_graph(graph_name.to_owned(), g);
                proof {
                    assert(self@ =~= before.insert(graph_name@, GraphView { edges: before[graph_name@].edges.remove(edge_id), ..before[graph_name@] }));
                }
                Ok(())
            },
            None => {
                proof {
                    assert(self@ =~= before);
                }
                Err(graph_not_found())
            },
        }
    }

    /// Updates node `new_node.id` of the graph named `graph_name` as
    /// `Graph::update_node` does.
    pub fn update_node(&mut self, graph_name: &str, new_node: Node) -> (r: Result<(), GraphError>)
        requires
            old(self).wf(),
        ensures
            final(self).wf(),
            r is Ok <==> old(self)@.contains_key(graph_name@),
            r is Ok ==> final(self)@ == old(self)@.insert(graph_name@, node_updated(old(self)@[graph_name@], new_node@)),
            r is Err ==> final(self)@ == old(self)@,
            r matches Err(e) ==> is_missing_graph(e),
    {
        let ghost before = self@;
        let ghost nv = new_node@;
        match self.take(graph_name) {
            Some(mut g) => {
                g.update_node(new_node);
                self.insert_graph(graph_name.to_owned(), g);
                proof {
                    assert(self@ =~= before.insert(graph_name@, node_updated(before[graph_name@], nv)));
                }
                Ok(())
            },
            None => {
                proof {
                    assert(self@ =~= before);
                }
                Err(graph_not_found())
            },
        }
    }

    /// Updates edge `new_edge.id` of the graph named `graph_name` as
    /// `Graph::update_edge` does.
    pub fn update_edge(&mut self, graph_name: &str, new_edge: Edge) -> (r: Result<(), GraphError>)
        requires
            old(self).wf(),
        ensures
            final(self).wf(),
            r is Ok <==> old(self)@.contains_key(graph_name@),
            r is Ok ==> final(self)@ == old(self)@.insert(graph_name@, edge_updated(old(self)@[graph_name@], new_edge@)),
            r is Err ==> final(self)@ == old(self)@,
            r matches Err(e) ==> is_missing_graph(e),
    {
        let ghost before = self@;
        let ghost ev = new_edge@;
        match self.take(graph_name) {
            Some(mut g) => {
                g.update_edge(new_edge);
                self.insert_graph(graph_name.to_owned(), g);
                proof {
                    assert(self@ =~= before.insert(graph_name@, edge_updated(before[graph_name@], ev)));
                }
                Ok(())
            },
            None => {
                proof {
                    assert(self@ =~= before);
                }
                Err(graph_not_found())
            },
        }
    }
}

} // verus!
