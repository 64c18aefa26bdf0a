//! The storage manager: the two tiers behind one interface, fed by one
//! write queue each.
use vstd::prelude::*;
use crate::disk_storage::{disk_step, DiskStorage};
use crate::edge::{Edge, EdgeView};
use crate::graph::{edge_updated, node_updated, Graph, GraphView};
use crate::gph_file::{loaded_graph, with_edge, with_node};
use crate::in_memory_storage::{empty_graph, InMemoryStorage};
use crate::node::{Node, NodeView};

verus! {

/// A write, as it waits in a queue.
pub enum WriteOperation {
    CreateGraph(String),
    AddNode(String, Node),
    AddEdge(String, Edge),
    UpdateNode(String, Node),
    UpdateEdge(String, Edge),
    DeleteGraph(String),
    DeleteNode(String, u64),
    DeleteEdge(String, u64),
}

/// What a write is.
pub enum WriteView {
    CreateGraph(Seq<char>),
    AddNode(Seq<char>, NodeView),
    AddEdge(Seq<char>, EdgeView),
    UpdateNode(Seq<char>, NodeView),
    UpdateEdge(Seq<char>, EdgeView),
    DeleteGraph(Seq<char>),
    DeleteNode(Seq<char>, u64),
    DeleteEdge(Seq<char>, u64),
}

impl View for WriteOperation {
    type V = WriteView;

    open spec fn view(&self) -> WriteView {
        match self {
            WriteOperation::CreateGraph(n) => WriteView::CreateGraph(n@),
            WriteOperation::AddNode(n, x) => WriteView::AddNode(n@, x@),
            WriteOperation::AddEdge(n, x) => WriteView::AddEdge(n@, x@),
            WriteOperation::UpdateNode(n, x) => WriteView::UpdateNode(n@, x@),
            WriteOperation::UpdateEdge(n, x) => WriteView::UpdateEdge(n@, x@),
            WriteOperation::DeleteGraph(n) => WriteView::DeleteGraph(n@),
            WriteOperation::DeleteNode(n, id) => WriteView::DeleteNode(n@, *id),
            WriteOperation::DeleteEdge(n, id) => WriteView::DeleteEdge(n@, *id),
        }
    }
}

impl Clone for WriteOperation {
    fn clone(&self) -> (r: Self)
        ensures
            r@ == self@,
    {
        match self {
            WriteOperation::CreateGraph(n) => WriteOperation::CreateGraph(n.clone()),
            WriteOperation::AddNode(n, x) => WriteOperation::AddNode(n.clone(), x.clone()),
            WriteOperation::AddEdge(n, x) => WriteOperation::AddEdge(n.clone(), x.clone()),
            WriteOperation::UpdateNode(n, x) => WriteOperation::UpdateNode(n.clone(), x.clone()),
            WriteOperation::UpdateEdge(n, x) => WriteOperation::UpdateEdge(n.clone(), x.clone()),
            WriteOperation::DeleteGraph(n) => WriteOperation::DeleteGraph(n.clone()),
            WriteOperation::DeleteNode(n, id) => WriteOperation::DeleteNode(n.clone(), *id),
            WriteOperation::DeleteEdge(n, id) => WriteOperation::DeleteEdge(n.clone(), *id),
        }
    }
}

impl WriteOperation {
    /// The name of the graph written to.
    pub fn graph_name(&self) -> (r: &String)
        ensures
            r@ == write_target(self@),
    {
        match self {
            WriteOperation::CreateGraph(n) => n,
            WriteOperation::AddNode(n, _) => n,
            WriteOperation::AddEdge(n, _) => n,
            WriteOperation::UpdateNode(n, _) => n,
            WriteOperation::UpdateEdge(n, _) => n,
            WriteOperation::DeleteGraph(n) => n,
            WriteOperation::DeleteNode(n, _) => n,
            WriteOperation::DeleteEdge(n, _) => n,
        }
    }
}

/// The name of the graph that a write goes to.
pub open spec fn write_target(op: WriteView) -> Seq<char> {
    match op {
        WriteView::CreateGraph(n) => n,
        WriteView::AddNode(n, _) => n,
        WriteView::AddEdge(n, _) => n,
        WriteView::UpdateNode(n, _) => n,
        WriteView::UpdateEdge(n, _) => n,
        WriteView::DeleteGraph(n) => n,
        WriteView::DeleteNode(n, _) => n,
        WriteView::DeleteEdge(n, _) => n,
    }
}

/// The in-memory graphs after one write. A write to an unknown graph changes nothing.
pub open spec fn memory_after(m: Map<Seq<char>, GraphView>, op: WriteView) -> Map<Seq<char>, GraphView> {
    match op {
        WriteView::CreateGraph(n) => m.insert(n, empty_graph(n)),
        WriteView::DeleteGraph(n) => m.remove(n),
        WriteView::AddNode(n, v) => if m.contains_key(n) && v.id < u64::MAX {
            m.insert(n, with_node(m[n], v))
        } else {
            m
        },
        WriteView::AddEdge(n, v) => if m.contains_key(n) && v.id < u64::MAX {
            m.insert(n, with_edge(m[n], v))
        } else {
            m
        },
        WriteView::UpdateNode(n, v) => if m.contains_key(n) {
            m.insert(n, node_updated(m[n], v))
        } else {
            m
        },
        WriteView::UpdateEdge(n, v) => if m.contains_key(n) {
            m.insert(n, edge_updated(m[n], v))
        } else {
            m
        },
        WriteView::DeleteNode(n, id) => if m.contains_key(n) {
            m.insert(n, GraphView { nodes: m[n].nodes.remove(id), ..m[n] })
        } else {
            m
        },
        WriteView::DeleteEdge(n, id) => if m.contains_key(n) {
            m.insert(n, GraphView { edges: m[n].edges.remove(id), ..m[n] })
        } else {
            m
        },
    }
}

/// The in-memory graphs after the writes, in order.
pub open spec fn memory_after_all(m: Map<Seq<char>, GraphView>, ops: Seq<WriteView>) -> Map<Seq<char>, GraphView>
    decreases ops.len(),
{
    if ops.len() == 0 {
        m
    } else {
        memory_after(memory_after_all(m, ops.drop_last()), ops.last())
    }
}

/// Among the writes, the last one that creates or deletes graph `name` deletes it.
pub open spec fn deleted_last(ops: Seq<WriteView>, name: Seq<char>) -> bool
    decreases ops.len(),
{
    if ops.len() == 0 {
        false
    } else {
        match ops.last() {
            WriteView::DeleteGraph(n) => n == name || deleted_last(ops.drop_last(), name),
            WriteView::CreateGraph(n) => n != name && deleted_last(ops.drop_last(), name),
            _ => deleted_last(ops.drop_last(), name),
        }
    }
}

/// `states` are the files before and after each write of `ops`, each pair
/// related by `disk_step`.
pub open spec fn disk_run(states: Seq<Map<Seq<char>, Seq<u8>>>, ops: Seq<WriteOperation>) -> bool {
    &&& states.len() == ops.len() + 1
    &&& forall|i: int| 0 <= i < ops.len() ==> #[trigger] disk_step(states[i], states[i + 1], ops[i])
}

/// The views of a queue.
pub open spec fn queue_view(q: Seq<WriteOperation>) -> Seq<WriteView> {
    q.map_values(|op: WriteOperation| op@)
}

/// The two tiers and their write queues.
pub struct StorageManager {
    disk_storage: DiskStorage,
    in_memory_storage: InMemoryStorage,
    memory_queue: Vec<WriteOperation>,
    disk_queue: Vec<WriteOperation>,
}

impl StorageManager {
    pub closed spec fn wf(&self) -> bool {
        self.disk_storage.wf() && self.in_memory_storage.wf()
    }

    /// The in-memory graphs.
    pub closed spec fn memory(&self) -> Map<Seq<char>, GraphView> {
        self.in_memory_storage@
    }

    /// The graph files.
    pub closed spec fn disk(&self) -> Map<Seq<char>, Seq<u8>> {
        self.disk_storage@
    }

    /// The writes waiting for the in-memory tier, oldest first.
    pub closed spec fn memory_pending(&self) -> Seq<WriteView> {
        queue_view(self.memory_queue@)
    }

    /// The writes waiting for the disk tier, oldest first.
    pub closed spec fn disk_pending(&self) -> Seq<WriteView> {
        queue_view(self.disk_queue@)
    }

    /// The writes waiting for the disk tier themselves, oldest first.
    pub closed spec fn disk_writes(&self) -> Seq<WriteOperation> {
        self.disk_queue@
    }

    /// The pending views are the views of the pending writes.
    pub proof fn lemma_pending(&self)
        ensures
            self.disk_pending() == queue_view(self.disk_writes()),
    {
    }

    /// Both tiers over the given graph files, nothing in memory, no writes waiting.
    pub fn new(disk_storage: DiskStorage) -> (r: StorageManager)
        requires
            disk_storage.wf(),
        ensures
            r.wf(),
            r.memory() == Map::<Seq<char>, GraphView>::empty(),
            r.disk() == disk_storage@,
            r.memory_pending() == Seq::<WriteView>::empty(),
            r.disk_pending() == Seq::<WriteView>::empty(),
            r.disk_writes() == Seq::<WriteOperation>::empty(),
    {
        let r = StorageManager {
            disk_storage,
            in_memory_storage: InMemoryStorage::new(),
            memory_queue: Vec::new(),
            disk_queue: Vec::new(),
        };
        proof {
            assert(r.memory_pending() =~= Seq::<WriteView>::empty());
            assert(r.disk_pending() =~= Seq::<WriteView>::empty());
        }
        r
    }

    pub fn disk_storage(&self) -> (r: &DiskStorage)
        requires
            self.wf(),
        ensures
            r@ == self.disk(),
            r.wf(),
    {
        &self.disk_storage
    }

    pub fn in_memory_storage(&self) -> (r: &InMemoryStorage)
        requires
            self.wf(),
        ensures
            r@ == self.memory(),
            r.wf(),
    {
        &self.in_memory_storage
    }

    /// Queues `op` for both tiers.
    pub fn enqueue(&mut self, op: WriteOperation)
        requires
            old(self).wf(),
        ensures
            final(self).wf(),
            final(self).memory() == old(self).memory(),
            final(self).disk() == old(self).disk(),
            final(self).memory_pending() == old(self).memory_pending().push(op@),
            final(self).disk_pending() == old(self).disk_pending().push(op@),
            final(self).disk_writes() == old(self).disk_writes().push(op),
    {
        self.memory_queue.push(op.clone());
        self.disk_queue.push(op);
        proof {
            assert(queue_view(self.memory_queue@) =~= queue_view(old(self).memory_queue@).push(op@));
            assert(queue_view(self.disk_queue@) =~= queue_view(old(self).disk_queue@).push(op@));
        }
    }

    /// Queues the creation of an empty graph named `graph_name`.
    pub fn create_graph(&mut self, graph_name: String)
        requires
            old(self).wf(),
        ensures
            final(self).wf(),
            final(self).memory() == old(self).memory(),
            final(self).disk() == old(self).disk(),
            final(self).memory_pending() == old(self).memory_pending().push(WriteView::CreateGraph(graph_name@)),
            final(self).disk_pending() == old(self).disk_pending().push(WriteView::CreateGraph(graph_name@)),
            final(self).disk_writes() == old(self).disk_writes().push(WriteOperation::CreateGraph(graph_name)),
    {
        self.enqueue(WriteOperation::CreateGraph(graph_name));
    }

    /// Queues the removal of graph `graph_name`.
    pub fn delete_graph(&mut self, graph_name: String)
        requires
            old(self).wf(),
        ensures
            final(self).wf(),
            final(self).memory() == old(self).memory(),
            final(self).disk() == old(self).disk(),
            final(self).memory_pending() == old(self).memory_pending().push(WriteView::DeleteGraph(graph_name@)),
            final(self).disk_pending() == old(self).disk_pending().push(WriteView::DeleteGraph(graph_name@)),
            final(self).disk_writes() == old(self).disk_writes().push(WriteOperation::DeleteGraph(graph_name)),
    {
        self.enqueue(WriteOperation::DeleteGraph(graph_name));
    }

    /// Queues putting `node` in graph `graph_name`.
    pub fn add_node(&mut self, graph_name: String, node: Node)
        requires
            old(self).wf(),
        ensures
            final(self).wf(),
            final(self).memory() == old(self).memory(),
            final(self).disk() == old(self).disk(),
            final(self).memory_pending() == old(self).memory_pending().push(WriteView::AddNode(graph_name@, node@)),
            final(self).disk_pending() == old(self).disk_pending().push(WriteView::AddNode(graph_name@, node@)),
            final(self).disk_writes() == old(self).disk_writes().push(WriteOperation::AddNode(graph_name, node)),
    {
        self.enqueue(WriteOperation::AddNode(graph_name, node));
    }

    /// Queues putting `edge` in graph `graph_name`.
    pub fn add_edge(&mut self, graph_name: String, edge: Edge)
        requires
            old(self).wf(),
        ensures
            final(self).wf(),
            final(self).memory() == old(self).memory(),
            final(self).disk() == old(self).disk(),
            final(self).memory_pending() == old(self).memory_pending().push(WriteView::AddEdge(graph_name@, edge@)),
            final(self).disk_pending() == old(self).disk_pending().push(WriteView::AddEdge(graph_name@, edge@)),
            final(self).disk_writes() == old(self).disk_writes().push(WriteOperation::AddEdge(graph_name, edge)),
    {
        self.enqueue(WriteOperation::AddEdge(graph_name, edge));
    }

    /// Queues an update of node `node.id` of graph `graph_name`.
    pub fn update_node(&mut self, graph_name: String, node: Node)
        requires
            old(self).wf(),
        ensures
            final(self).wf(),
            final(self).memory() == old(self).memory(),
            final(self).disk() == old(self).disk(),
            final(self).memory_pending() == old(self).memory_pending().push(WriteView::UpdateNode(graph_name@, node@)),
            final(self).disk_pending() == old(self).disk_pending().push(WriteView::UpdateNode(graph_name@, node@)),
            final(self).disk_writes() == old(self).disk_writes().push(WriteOperation::UpdateNode(graph_name, node)),
    {
        self.enqueue(WriteOperation::UpdateNode(graph_name, node));
    }

    /// Queues an update of edge `edge.id` of graph `graph_name`.
    pub fn update_edge(&mut self, graph_name: String, edge: Edge)
        requires
            old(self).wf(),
        ensures
            final(self).wf(),
            final(self).memory() == old(self).memory(),
            final(self).disk() == old(self).disk(),
            final(self).memory_pending() == old(self).memory_pending().push(WriteView::UpdateEdge(graph_name@, edge@)),
            final(self).disk_pending() == old(self).disk_pending().push(WriteView::UpdateEdge(graph_name@, edge@)),
            final(self).disk_writes() == old(self).disk_writes().push(WriteOperation::UpdateEdge(graph_name, edge)),
    {
        self.enqueue(WriteOperation::UpdateEdge(graph_name, edge));
    }

    /// Queues the removal of node `node_id` from graph `graph_name`.
    pub fn delete_node(&mut self, graph_name: String, node_id: u64)
        requires
            old(self).wf(),
        ensures
            final(self).wf(),
            final(self).memory() == old(self).memory(),
            final(self).disk() == old(self).disk(),
            final(self).memory_pending() == old(self).memory_pending().push(WriteView::DeleteNode(graph_name@, node_id)),
            final(self).disk_pending() == old(self).disk_pending().push(WriteView::DeleteNode(graph_name@, node_id)),
            final(self).disk_writes() == old(self).disk_writes().push(WriteOperation::DeleteNode(graph_name, node_id)),
    {
        self.enqueue(WriteOperation::DeleteNode(graph_name, node_id));
    }

    /// Queues the removal of edge `edge_id` from graph `graph_name`.
    pub fn delete_edge(&mut self, graph_name: String, edge_id: u64)
        requires
            old(self).wf(),
        ensures
            final(self).wf(),
            final(self).memory() == old(self).memory(),
            final(self).disk() == old(self).disk(),
            final(self).memory_pending() == old(self).memory_pending().push(WriteView::DeleteEdge(graph_name@, edge_id)),
            final(self).disk_pending() == old(self).disk_pending().push(WriteView::DeleteEdge(graph_name@, edge_id)),
            final(self).disk_writes() == old(self).disk_writes().push(WriteOperation::DeleteEdge(graph_name, edge_id)),
    {
        self.enqueue(WriteOperation::DeleteEdge(graph_name, edge_id));
    }

    /// The names of the in-memory graphs, or of the graph files when memory holds none.
    pub fn list_graph_names(&self) -> (r: Vec<String>)
        requires
            self.wf(),
        ensures
            self.memory().dom() != Set::<Seq<char>>::empty() ==> forall|k: Seq<char>|
                self.memory().contains_key(k) <==> exists|i: int| 0 <= i < r@.len() && #[trigger] r@[i]@ == k,
            self.memory().dom() == Set::<Seq<char>>::empty() ==> forall|k: Seq<char>|
                self.disk().contains_key(k) <==> exists|i: int| 0 <= i < r@.len() && #[trigger] r@[i]@ == k,
    {
        let names = self.in_memory_storage.list_graph_names();
        if names.len() == 0 {
            proof {
                assert(self.memory().dom() =~= Set::<Seq<char>>::empty()) by {
                    assert forall|k: Seq<char>| !self.memory().dom().contains(k) by {
                        if self.memory().contains_key(k) {
                            let i = choose|i: int| 0 <= i < names@.len() && #[trigger] names@[i]@ == k;
                        }
                    }
                }
            }
            return self.disk_storage.list_graph_names();
        }
        proof {
            assert(names@[0]@ == names@[0]@);
            assert(self.memory().contains_key(names@[0]@));
            assert(self.memory().dom().contains(names@[0]@));
        }
        names
    }

    /// A copy of the graph named `graph_name`: from memory, or else loaded
    /// from its file and then kept in memory.
    pub fn get_graph(&mut self, graph_name: &str) -> (r: Option<Graph>)
        requires
            old(self).wf(),
        ensures
            final(self).wf(),
            final(self).disk() == old(self).disk(),
            final(self).memory_pending() == old(self).memory_pending(),
            final(self).disk_pending() == old(self).disk_pending(),
            final(self).disk_writes() == old(self).disk_writes(),
            old(self).memory().contains_key(graph_name@) ==> r is Some && r->0@ == old(self).memory()[graph_name@]
                && final(self).memory() == old(self).memory(),
            !old(self).memory().contains_key(graph_name@) ==> match r {
                Some(g) => old(self).disk().contains_key(graph_name@) && loaded_graph(old(self).disk()[graph_name@])
                    == Some(g@) && final(self).memory() == old(self).memory().insert(graph_name@, g@),
                None => (!old(self).disk().contains_key(graph_name@) || loaded_graph(
                    old(self).disk()[graph_name@],
                ) is None) && final(self).memory() == old(self).memory(),
            },
            r matches Some(g) ==> g.wf(),
    {
        match self.in_memory_storage.get_graph(graph_name) {
            Some(g) => Some(g),
            None => match self.disk_storage.get_graph(graph_name) {
                Ok(Some(g)) => {
                    let copy = g.clone();
                    self.in_memory_storage.insert_graph(graph_name.to_owned(), g);
                    Some(copy)
                },
                _ => None,
            },
        }
    }

    /// Applies one write to the in-memory tier; a write to an unknown graph is dropped.
    fn apply_to_memory(&mut self, op: WriteOperation)
        requires
            old(self).wf(),
        ensures
            final(self).wf(),
            final(self).memory() == memory_after(old(self).memory(), op@),
            final(self).disk() == old(self).disk(),
            final(self).memory_queue == old(self).memory_queue,
            final(self).disk_queue == old(self).disk_queue,
    {
        let m = &mut self.in_memory_storage;
        match op {
            WriteOperation::CreateGraph(n) => {
                let _ = m.create_graph(n);
            },
            WriteOperation::DeleteGraph(n) => {
                let _ = m.delete_graph(n.as_str());
            },
            WriteOperation::AddNode(n, x) => {
                let _ = m.add_node(n.as_str(), x);
            },
            WriteOperation::AddEdge(n, x) => {
                let _ = m.add_edge(n.as_str(), x);
            },
            WriteOperation::UpdateNode(n, x) => {
                let _ = m.update_node(n.as_str(), x);
            },
            WriteOperation::UpdateEdge(n, x) => {
                let _ = m.update_edge(n.as_str(), x);
            },
            WriteOperation::DeleteNode(n, id) => {
                let _ = m.delete_node(n.as_str(), id);
            },
            WriteOperation::DeleteEdge(n, id) => {
                let _ = m.delete_edge(n.as_str(), id);
            },
        }
    }

    /// Applies one write to the disk tier; a write that fails is dropped.
    fn apply_to_disk(&mut self, op: &WriteOperation)
        requires
            old(self).wf(),
        ensures
            final(self).wf(),
            final(self).memory() == old(self).memory(),
            final(self).memory_queue == old(self).memory_queue,
            final(self).disk_queue == old(self).disk_queue,
            forall|k: Seq<char>| k != write_target(op@) ==> (#[trigger] final(self).disk().contains_key(k)
                <==> old(self).disk().contains_key(k)),
            op@ is DeleteGraph ==> !final(self).disk().contains_key(write_target(op@)),
            !(op@ is DeleteGraph) && !(op@ is CreateGraph) ==> final(self).disk().dom() == old(self).disk().dom(),
            disk_step(old(self).disk(), final(self).disk(), *op),
    {
        self.disk_storage.process_write_operation(op);
    }

    /// Applies every write waiting for the in-memory tier, oldest first.
    #[verifier::rlimit(60)]
    pub fn process_memory_queue(&mut self)
        requires
            old(self).wf(),
        ensures
            final(self).wf(),
            final(self).memory() == memory_after_all(old(self).memory(), old(self).memory_pending()),
            final(self).memory_pending() == Seq::<WriteView>::empty(),
            final(self).disk() == old(self).disk(),
            final(self).disk_pending() == old(self).disk_pending(),
            final(self).disk_writes() == old(self).disk_writes(),
    {
        let mut ops: Vec<WriteOperation> = Vec::new();
        std::mem::swap(&mut ops, &mut self.memory_queue);
        let ghost q = queue_view(ops@);
        let n = ops.len();
        let mut i: usize = 0;
        while i < n
            invariant
                self.wf(),
                n == ops@.len(),
                q == queue_view(ops@),
                q == old(self).memory_pending(),
                i <= n,
                self.memory() == memory_after_all(old(self).memory(), q.take(i as int)),
                self.memory_queue@ == Seq::<WriteOperation>::empty(),
                self.disk() == old(self).disk(),
                self.disk_queue == old(self).disk_queue,
            decreases n - i,
        {
            let op = ops[i].clone();
            self.apply_to_memory(op);
            proof {
                assert(q.take(i + 1).drop_last() =~= q.take(i as int));
            }
            i = i + 1;
        }
        proof {
            assert(q.take(n as int) =~= q);
            assert(queue_view(self.memory_queue@) =~= Seq::<WriteView>::empty());
        }
    }

    /// Applies every write waiting for the disk tier, oldest first, and
    /// returns the names of the graphs written to, in order.
    #[verifier::rlimit(60)]
    pub fn process_disk_queue(&mut self) -> (r: Vec<String>)
        requires
            old(self).wf(),
        ensures
            final(self).wf(),
            final(self).disk_pending() == Seq::<WriteView>::empty(),
            final(self).memory() == old(self).memory(),
            final(self).memory_pending() == old(self).memory_pending(),
            r@.len() == old(self).disk_pending().len(),
            forall|i: int| 0 <= i < r@.len() ==> #[trigger] r@[i]@ == write_target(old(self).disk_pending()[i]),
            forall|k: Seq<char>| deleted_last(old(self).disk_pending(), k) ==> !#[trigger] final(self).disk().contains_key(k),
            final(self).disk_writes() == Seq::<WriteOperation>::empty(),
            exists|states: Seq<Map<Seq<char>, Seq<u8>>>|
                disk_run(states, old(self).disk_writes()) && states[0] == old(self).disk() && states.last()
                    == final(self).disk(),
    {
        let mut ops: Vec<WriteOperation> = Vec::new();
        std::mem::swap(&mut ops, &mut self.disk_queue);
        let ghost q = queue_view(ops@);
        let n = ops.len();
        let mut names: Vec<String> = Vec::new();
        let ghost mut states: Seq<Map<Seq<char>, Seq<u8>>> = seq![self.disk()];
        let mut i: usize = 0;
        while i < n
            invariant
                ops@ == old(self).disk_writes(),
                states.len() == i + 1,
                states[0] == old(self).disk(),
                states.last() == self.disk(),
                forall|t: int| 0 <= t < i ==> #[trigger] disk_step(states[t], states[t + 1], ops@[t]),
                self.wf(),
                n == ops@.len(),
                q == queue_view(ops@),
                q == old(self).disk_pending(),
                i <= n,
                names@.len() == i,
                forall|j: int| 0 <= j < i ==> #[trigger] names@[j]@ == write_target(q[j]),
                forall|k: Seq<char>| deleted_last(q.take(i as int), k) ==> !#[trigger] self.disk().contains_key(k),
                self.disk_queue@ == Seq::<WriteOperation>::empty(),
                self.memory() == old(self).memory(),
                self.memory_queue == old(self).memory_queue,
            decreases n - i,
        {
            let ghost before = self.disk();
            self.apply_to_disk(&ops[i]);
            names.push(ops[i].graph_name().clone());
            proof {
                let prev = states;
                states = states.push(self.disk());
                assert forall|t: int| 0 <= t < i + 1 implies #[trigger] disk_step(states[t], states[t + 1], ops@[t]) by {
                    if t < i {
                        assert(states[t] == prev[t] && states[t + 1] == prev[t + 1]);
                    }
                }
                let t = q.take(i + 1);
                assert(t.drop_last() =~= q.take(i as int));
                assert(t.last() == ops@[i as int]@);
                assert forall|k: Seq<char>| deleted_last(t, k) implies !#[trigger] self.disk().contains_key(k) by {
                    match ops@[i as int]@ {
                        WriteView::DeleteGraph(x) => {
                            if k != x {
                                assert(deleted_last(q.take(i as int), k));
                            }
                        },
                        WriteView::CreateGraph(x) => {
                            assert(deleted_last(q.take(i as int), k));
                        },
                        _ => {
                            assert(deleted_last(q.take(i as int), k));
                        },
                    }
                }
            }
            i = i + 1;
        }
        proof {
            assert(q.take(n as int) =~= q);
            assert(queue_view(self.disk_queue@) =~= Seq::<WriteView>::empty());
            assert(disk_run(states, old(self).disk_writes()));
        }
        names
    }
}

/// Once a queue whose last write to graph `name` deletes it has been
/// applied, neither tier holds a graph of that name.
pub proof fn lemma_deleted_graph_is_gone(m: Map<Seq<char>, GraphView>, ops: Seq<WriteView>, name: Seq<char>)
    ensures
        !memory_after_all(m, ops.push(WriteView::DeleteGraph(name))).contains_key(name),
        deleted_last(ops.push(WriteView::DeleteGraph(name)), name),
{
    let q = ops.push(WriteView::DeleteGraph(name));
    assert(q.drop_last() =~= ops);
}

/// Creating a graph under a new name and then deleting it leaves the
/// in-memory tier as it was.
pub proof fn lemma_create_then_delete_memory(m: Map<Seq<char>, GraphView>, name: Seq<char>)
    requires
        !m.contains_key(name),
    ensures
        memory_after_all(m, seq![WriteView::CreateGraph(name), WriteView::DeleteGraph(name)]) == m,
{
    let q = seq![WriteView::CreateGraph(name), WriteView::DeleteGraph(name)];
    assert(q.drop_last() =~= seq![WriteView::CreateGraph(name)]);
    let q1 = seq![WriteView::CreateGraph(name)];
    assert(q1.drop_last() =~= Seq::<WriteView>::empty());
    assert(memory_after_all(m, Seq::<WriteView>::empty()) == m);
    assert(memory_after_all(m, q1) == m.insert(name, empty_graph(name)));
    assert(q.last() == WriteView::DeleteGraph(name));
    assert(memory_after_all(m, q) == m.insert(name, empty_graph(name)).remove(name));
    assert(m.insert(name, empty_graph(name)).remove(name) =~= m);
}

/// Creating a graph file under a new name, which adds that file and leaves
/// the others (or fails and changes nothing), and then deleting it, leaves
/// the disk tier as it was.
pub proof fn lemma_create_then_delete_disk(d: Map<Seq<char>, Seq<u8>>, created: Map<Seq<char>, Seq<u8>>, name: Seq<char>)
    requires
        !d.contains_key(name),
        created == d || (created.dom() == d.dom().insert(name) && forall|k: Seq<char>|
            k != name && #[trigger] d.contains_key(k) ==> created[k] == d[k]),
    ensures
        created.remove(name) == d,
{
    assert(created.remove(name) =~= d);
}

} // verus!
