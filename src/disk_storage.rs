//! The disk tier: one graph file per graph name. The directory is held as
//! the bytes of each file; whoever owns the real directory writes back the
//! file that an operation changed.
use vstd::prelude::*;
use crate::codec::{edge_record, header_bytes, node_record};
use crate::edge::Edge;
use crate::gph_file::{
    self, edge_append_owed, edge_appended, edge_mark_header, edge_rewrite_owed, edge_rewritten, edge_slot_ids,
    file_header, fresh_header, header_replaced, lemma_file_change_keeps_loadable, lemma_loaded_some, loaded_graph,
    node_slots, edge_slots, mark_owed, node_append_owed, node_appended,
    node_mark_header, node_rewrite_owed, node_rewritten, node_slot_ids, FileError, BLOCK_SIZE, HEADER_SIZE,
};
use crate::graph::Graph;
use crate::named::{find_name, names_distinct, named_map, names_of, put_named, take_named};
use crate::node::Node;
use crate::manager::{write_target, WriteOperation};

verus! {

/// Why an operation of the disk tier failed.
#[derive(Debug)]
pub enum DiskError {
    GraphNotFound,
    GraphAlreadyExists,
    File(FileError),
}

/// The graph files, by graph name.
pub struct DiskStorage {
    files: Vec<(String, Vec<u8>)>,
}

impl View for DiskStorage {
    type V = Map<Seq<char>, Seq<u8>>;

    closed spec fn view(&self) -> Map<Seq<char>, Seq<u8>> {
        named_map(self.files@)
    }
}

/// `after` differs from `before` at most in the file of `name`.
pub open spec fn only_file_changed(before: Map<Seq<char>, Seq<u8>>, after: Map<Seq<char>, Seq<u8>>, name: Seq<char>) -> bool {
    &&& after.dom() == before.dom()
    &&& forall|k: Seq<char>| k != name && #[trigger] before.contains_key(k) ==> after[k] == before[k]
}

/// `after` is `before` with a fresh file for `name` added.
pub open spec fn file_created(before: Map<Seq<char>, Seq<u8>>, after: Map<Seq<char>, Seq<u8>>, name: Seq<char>) -> bool {
    &&& after.dom() == before.dom().insert(name)
    &&& file_header(after[name]) == Some(fresh_header(name))
    &&& forall|k: Seq<char>| k != name && #[trigger] before.contains_key(k) ==> after[k] == before[k]
}

/// What applying the write `op` to the files `before` may leave: a write
/// that fails changes nothing, and a write that is owed to succeed does.
pub open spec fn disk_step(before: Map<Seq<char>, Seq<u8>>, after: Map<Seq<char>, Seq<u8>>, op: WriteOperation) -> bool {
    match op {
        WriteOperation::CreateGraph(n) => if before.contains_key(n@) || header_bytes(fresh_header(n@)).len() > HEADER_SIZE {
            after == before
        } else {
            file_created(before, after, n@)
        },
        WriteOperation::DeleteGraph(n) => after == before.remove(n@),
        WriteOperation::AddNode(n, x) => if before.contains_key(n@) {
            &&& only_file_changed(before, after, n@)
            &&& after[n@] == before[n@] || node_appended(before[n@], after[n@], x)
            &&& node_append_owed(before[n@], x) ==> node_appended(before[n@], after[n@], x)
        } else {
            after == before
        },
        WriteOperation::AddEdge(n, x) => if before.contains_key(n@) {
            &&& only_file_changed(before, after, n@)
            &&& after[n@] == before[n@] || edge_appended(before[n@], after[n@], x)
            &&& edge_append_owed(before[n@], x) ==> edge_appended(before[n@], after[n@], x)
        } else {
            after == before
        },
        WriteOperation::UpdateNode(n, x) => if before.contains_key(n@) {
            &&& only_file_changed(before, after, n@)
            &&& after[n@] == before[n@] || node_rewritten(before[n@], after[n@], x)
            &&& node_rewrite_owed(before[n@], x) ==> node_rewritten(before[n@], after[n@], x)
        } else {
            after == before
        },
        WriteOperation::UpdateEdge(n, x) => if before.contains_key(n@) {
            &&& only_file_changed(before, after, n@)
            &&& after[n@] == before[n@] || edge_rewritten(before[n@], after[n@], x)
            &&& edge_rewrite_owed(before[n@], x) ==> edge_rewritten(before[n@], after[n@], x)
        } else {
            after == before
        },
        WriteOperation::DeleteNode(n, id) => if before.contains_key(n@) {
            &&& only_file_changed(before, after, n@)
            &&& after[n@] == before[n@] || header_replaced(before[n@], after[n@], node_mark_header(before[n@], id))
            &&& mark_owed(before[n@], node_mark_header(before[n@], id)) ==> header_replaced(
                before[n@],
                after[n@],
                node_mark_header(before[n@], id),
            )
        } else {
            after == before
        },
        WriteOperation::DeleteEdge(n, id) => if before.contains_key(n@) {
            &&& only_file_changed(before, after, n@)
            &&& after[n@] == before[n@] || header_replaced(before[n@], after[n@], edge_mark_header(before[n@], id))
            &&& mark_owed(before[n@], edge_mark_header(before[n@], id)) ==> header_replaced(
                before[n@],
                after[n@],
                edge_mark_header(before[n@], id),
            )
        } else {
            after == before
        },
    }
}

impl DiskStorage {
    pub closed spec fn wf(&self) -> bool {
        names_distinct(self.files@)
    }

    /// No graph files.
    pub fn new() -> (r: DiskStorage)
        ensures
            r.wf(),
            r@ == Map::<Seq<char>, Seq<u8>>::empty(),
    {
        let r = DiskStorage { files: Vec::new() };
        proof {
            assert(crate::named::named_view(r.files@) =~= Seq::empty());
            assert(r@ =~= Map::<Seq<char>, Seq<u8>>::empty());
        }
        r
    }

    /// Takes in the bytes of the file of graph `graph_name`, as found on disk.
    pub fn load_file(&mut self, graph_name: String, bytes: Vec<u8>)
        requires
            old(self).wf(),
        ensures
            final(self).wf(),
            final(self)@ == old(self)@.insert(graph_name@, bytes@),
    {
        put_named(&mut self.files, graph_name, bytes);
    }

    /// The bytes of the file of graph `graph_name`, if there is one.
    pub fn file(&self, graph_name: &str) -> (r: Option<&Vec<u8>>)
        requires
            self.wf(),
        ensures
            match r {
                Some(b) => self@.contains_key(graph_name@) && b@ == self@[graph_name@],
                None => !self@.contains_key(graph_name@),
            },
    {
        match find_name(&self.files, graph_name) {
            Some(i) => Some(&self.files[i].1),
            None => None,
        }
    }

    /// The names of the graphs that have files.
    pub fn list_graph_names(&self) -> (r: Vec<String>)
        requires
            self.wf(),
        ensures
            forall|k: Seq<char>| self@.contains_key(k) <==> exists|i: int| 0 <= i < r@.len() && #[trigger] r@[i]@ == k,
    {
        names_of(&self.files)
    }

    /// Creates the file of graph `graph_name`; fails if there is one.
    pub fn create_graph(&mut self, graph_name: &str) -> (r: Result<(), DiskError>)
        requires
            old(self).wf(),
        ensures
            final(self).wf(),
            old(self)@.contains_key(graph_name@) ==> r matches Err(DiskError::GraphAlreadyExists),
            r is Ok ==> final(self)@.dom() == old(self)@.dom().insert(graph_name@) && file_header(
                final(self)@[graph_name@],
            ) == Some(fresh_header(graph_name@)) && forall|k: Seq<char>|
                k != graph_name@ && #[trigger] old(self)@.contains_key(k) ==> final(self)@[k] == old(self)@[k],
            r is Err ==> final(self)@ == old(self)@,
            !old(self)@.contains_key(graph_name@) && r is Err ==> r matches Err(DiskError::File(FileError::HeaderFull)),
            !old(self)@.contains_key(graph_name@) && header_bytes(fresh_header(graph_name@)).len() <= HEADER_SIZE ==> r is Ok,
    {
        if find_name(&self.files, graph_name).is_some() {
            return Err(DiskError::GraphAlreadyExists);
        }
        match gph_file::new_file(graph_name) {
            Ok(f) => {
                let ghost fv = f@;
                put_named(&mut self.files, graph_name.to_owned(), f);
                proof {
                    assert(self@ == old(self)@.insert(graph_name@, fv));
                    assert(self@.dom() =~= old(self)@.dom().insert(graph_name@));
                }
                Ok(())
            },
            Err(e) => Err(DiskError::File(e)),
        }
    }

    /// Removes the file of graph `graph_name`, if there is one.
    pub fn delete_graph(&mut self, graph_name: &str)
        requires
            old(self).wf(),
        ensures
            final(self).wf(),
            final(self)@ == old(self)@.remove(graph_name@),
    {
        let _ = take_named(&mut self.files, graph_name);
    }

    /// The graph that the file of `graph_name` holds; `None` if there is no such file.
    pub fn get_graph(&self, graph_name: &str) -> (r: Result<Option<Graph>, DiskError>)
        requires
            self.wf(),
        ensures
            match r {
                Ok(Some(g)) => self@.contains_key(graph_name@) && g.wf() && loaded_graph(self@[graph_name@]) == Some(g@),
                Ok(None) => !self@.contains_key(graph_name@),
                Err(e) => self@.contains_key(graph_name@) && loaded_graph(self@[graph_name@]) is None,
            },
    {
        match self.file(graph_name) {
            Some(f) => match gph_file::load_graph(f.as_slice()) {
                Ok(g) => Ok(Some(g)),
                Err(e) => Err(DiskError::File(e)),
            },
            None => Ok(None),
        }
    }

    /// Appends `node` to the file of graph `graph_name`.
    pub fn append_node(&mut self, graph_name: &str, node: &Node) -> (r: Result<(), DiskError>)
        requires
            old(self).wf(),
        ensures
            final(self).wf(),
            r matches Err(DiskError::GraphNotFound) <==> !old(self)@.contains_key(graph_name@),
            r is Err ==> final(self)@ == old(self)@,
            r is Ok ==> only_file_changed(old(self)@, final(self)@, graph_name@) && node_appended(
                old(self)@[graph_name@],
                final(self)@[graph_name@],
                *node,
            ),
            old(self)@.contains_key(graph_name@) && node_append_owed(old(self)@[graph_name@], *node) ==> r is Ok,
            old(self)@.contains_key(graph_name@) && file_header(old(self)@[graph_name@]) is Some && node_record(*node).len()
                > BLOCK_SIZE ==> r matches Err(DiskError::File(FileError::Oversized)),
    {
        let ghost before = self@;
        let mut f = match take_named(&mut self.files, graph_name) {
            Some(f) => f,
            None => {
                return Err(DiskError::GraphNotFound);
            },
        };
        let ghost f0 = f@;
        let r = gph_file::append_node(&mut f, node);
        put_named(&mut self.files, graph_name.to_owned(), f);
        proof {
            assert(self@ == before.remove(graph_name@).insert(graph_name@, f@));
            if r is Err {
                assert(self@ =~= before);
            } else {
                assert(self@.dom() =~= before.dom());
            }
        }
        match r {
            Ok(()) => Ok(()),
            Err(e) => Err(DiskError::File(e)),
        }
    }

    /// Appends `edge` to the file of graph `graph_name`.
    pub fn append_edge(&mut self, graph_name: &str, edge: &Edge) -> (r: Result<(), DiskError>)
        requires
            old(self).wf(),
        ensures
            final(self).wf(),
            r matches Err(DiskError::GraphNotFound) <==> !old(self)@.contains_key(graph_name@),
            r is Err ==> final(self)@ == old(self)@,
            r is Ok ==> only_file_changed(old(self)@, final(self)@, graph_name@) && edge_appended(
                old(self)@[graph_name@],
                final(self)@[graph_name@],
                *edge,
            ),
            old(self)@.contains_key(graph_name@) && edge_append_owed(old(self)@[graph_name@], *edge) ==> r is Ok,
            old(self)@.contains_key(graph_name@) && file_header(old(self)@[graph_name@]) is Some && edge_record(*edge).len()
                > BLOCK_SIZE ==> r matches Err(DiskError::File(FileError::Oversized)),
    {
        let ghost before = self@;
        let mut f = match take_named(&mut self.files, graph_name) {
            Some(f) => f,
            None => {
                return Err(DiskError::GraphNotFound);
            },
        };
        let r = gph_file::append_edge(&mut f, edge);
        put_named(&mut self.files, graph_name.to_owned(), f);
        proof {
            assert(self@ == before.remove(graph_name@).insert(graph_name@, f@));
            if r is Err {
                assert(self@ =~= before);
            } else {
                assert(self@.dom() =~= before.dom());
            }
        }
        match r {
            Ok(()) => Ok(()),
            Err(e) => Err(DiskError::File(e)),
        }
    }

    /// Rewrites the slot of `node` in the file of graph `graph_name`.
    pub fn update_node(&mut self, graph_name: &str, node: &Node) -> (r: Result<(), DiskError>)
        requires
            old(self).wf(),
        ensures
            final(self).wf(),
            r matches Err(DiskError::GraphNotFound) <==> !old(self)@.contains_key(graph_name@),
            r is Err ==> final(self)@ == old(self)@,
            r is Ok ==> only_file_changed(old(self)@, final(self)@, graph_name@) && node_rewritten(
                old(self)@[graph_name@],
                final(self)@[graph_name@],
                *node,
            ),
            old(self)@.contains_key(graph_name@) && node_rewrite_owed(old(self)@[graph_name@], *node) ==> r is Ok,
            old(self)@.contains_key(graph_name@) && file_header(old(self)@[graph_name@]) is Some && node_record(*node).len()
                <= BLOCK_SIZE && !node_slot_ids(crate::gph_file::node_slots(old(self)@[graph_name@], file_header(old(self)@[graph_name@])->0)).contains(
                Some(node.id),
            ) ==> r matches Err(DiskError::File(FileError::RecordNotFound)),
    {
        let ghost before = self@;
        let mut f = match take_named(&mut self.files, graph_name) {
            Some(f) => f,
            None => {
                return Err(DiskError::GraphNotFound);
            },
        };
        let r = gph_file::update_node(&mut f, node);
        put_named(&mut self.files, graph_name.to_owned(), f);
        proof {
            assert(self@ == before.remove(graph_name@).insert(graph_name@, f@));
            if r is Err {
                assert(self@ =~= before);
            } else {
                assert(self@.dom() =~= before.dom());
            }
        }
        match r {
            Ok(()) => Ok(()),
            Err(e) => Err(DiskError::File(e)),
        }
    }

    /// Rewrites the slot of `edge` in the file of graph `graph_name`.
    pub fn update_edge(&mut self, graph_name: &str, edge: &Edge) -> (r: Result<(), DiskError>)
        requires
            old(self).wf(),
        ensures
            final(self).wf(),
            r matches Err(DiskError::GraphNotFound) <==> !old(self)@.contains_key(graph_name@),
            r is Err ==> final(self)@ == old(self)@,
            r is Ok ==> only_file_changed(old(self)@, final(self)@, graph_name@) && edge_rewritten(
                old(self)@[graph_name@],
                final(self)@[graph_name@],
                *edge,
            ),
            old(self)@.contains_key(graph_name@) && edge_rewrite_owed(old(self)@[graph_name@], *edge) ==> r is Ok,
            old(self)@.contains_key(graph_name@) && file_header(old(self)@[graph_name@]) is Some && edge_record(*edge).len()
                <= BLOCK_SIZE && !edge_slot_ids(crate::gph_file::edge_slots(old(self)@[graph_name@], file_header(old(self)@[graph_name@])->0)).contains(
                Some(edge.id),
            ) ==> r matches Err(DiskError::File(FileError::RecordNotFound)),
    {
        let ghost before = self@;
        let mut f = match take_named(&mut self.files, graph_name) {
            Some(f) => f,
            None => {
                return Err(DiskError::GraphNotFound);
            },
        };
        let r = gph_file::update_edge(&mut f, edge);
        put_named(&mut self.files, graph_name.to_owned(), f);
        proof {
            assert(self@ == before.remove(graph_name@).insert(graph_name@, f@));
            if r is Err {
                assert(self@ =~= before);
            } else {
                assert(self@.dom() =~= before.dom());
            }
        }
        match r {
            Ok(()) => Ok(()),
            Err(e) => Err(DiskError::File(e)),
        }
    }

    /// Records node `node_id` as deleted in the file of graph `graph_name`.
    pub fn mark_node_as_deleted(&mut self, graph_name: &str, node_id: u64) -> (r: Result<(), DiskError>)
        requires
            old(self).wf(),
        ensures
            final(self).wf(),
            r matches Err(DiskError::GraphNotFound) <==> !old(self)@.contains_key(graph_name@),
            r is Err ==> final(self)@ == old(self)@,
            r is Ok ==> only_file_changed(old(self)@, final(self)@, graph_name@) && header_replaced(
                old(self)@[graph_name@],
                final(self)@[graph_name@],
                node_mark_header(old(self)@[graph_name@], node_id),
            ),
            old(self)@.contains_key(graph_name@) && mark_owed(
                old(self)@[graph_name@],
                node_mark_header(old(self)@[graph_name@], node_id),
            ) ==> r is Ok,
    {
        let ghost before = self@;
        let mut f = match take_named(&mut self.files, graph_name) {
            Some(f) => f,
            None => {
                return Err(DiskError::GraphNotFound);
            },
        };
        let r = gph_file::mark_node_as_deleted(&mut f, node_id);
        put_named(&mut self.files, graph_name.to_owned(), f);
        proof {
            assert(self@ == before.remove(graph_name@).insert(graph_name@, f@));
            if r is Err {
                assert(self@ =~= before);
            } else {
                assert(self@.dom() =~= before.dom());
            }
        }
        match r {
            Ok(()) => Ok(()),
            Err(e) => Err(DiskError::File(e)),
        }
    }

    /// Records edge `edge_id` as deleted in the file of graph `graph_name`.
    pub fn mark_edge_as_deleted(&mut self, graph_name: &str, edge_id: u64) -> (r: Result<(), DiskError>)
        requires
            old(self).wf(),
        ensures
            final(self).wf(),
            r matches Err(DiskError::GraphNotFound) <==> !old(self)@.contains_key(graph_name@),
            r is Err ==> final(self)@ == old(self)@,
            r is Ok ==> only_file_changed(old(self)@, final(self)@, graph_name@) && header_replaced(
                old(self)@[graph_name@],
                final(self)@[graph_name@],
                edge_mark_header(old(self)@[graph_name@], edge_id),
            ),
            old(self)@.contains_key(graph_name@) && mark_owed(
                old(self)@[graph_name@],
                edge_mark_header(old(self)@[graph_name@], edge_id),
            ) ==> r is Ok,
    {
        let ghost before = self@;
        let mut f = match take_named(&mut self.files, graph_name) {
            Some(f) => f,
            None => {
                return Err(DiskError::GraphNotFound);
            },
        };
        let r = gph_file::mark_edge_as_deleted(&mut f, edge_id);
        put_named(&mut self.files, graph_name.to_owned(), f);
        proof {
            assert(self@ == before.remove(graph_name@).insert(graph_name@, f@));
            if r is Err {
                assert(self@ =~= before);
            } else {
                assert(self@.dom() =~= before.dom());
            }
        }
        match r {
            Ok(()) => Ok(()),
            Err(e) => Err(DiskError::File(e)),
        }
    }
    /// Applies one queued write to the files; a write that fails is dropped.
    pub fn process_write_operation(&mut self, op: &WriteOperation)
        requires
            old(self).wf(),
        ensures
            final(self).wf(),
            forall|k: Seq<char>| k != write_target(op@) ==> (#[trigger] final(self)@.contains_key(k)
                <==> old(self)@.contains_key(k)),
            op@ is DeleteGraph ==> !final(self)@.contains_key(write_target(op@)),
            !(op@ is DeleteGraph) && !(op@ is CreateGraph) ==> final(self)@.dom() == old(self)@.dom(),
            disk_step(old(self)@, final(self)@, *op),
    {
        match op {
            WriteOperation::CreateGraph(n) => {
                let _ = self.create_graph(n.as_str());
            },
            WriteOperation::DeleteGraph(n) => {
                self.delete_graph(n.as_str());
            },
            WriteOperation::AddNode(n, x) => {
                let _ = self.append_node(n.as_str(), x);
            },
            WriteOperation::AddEdge(n, x) => {
                let _ = self.append_edge(n.as_str(), x);
            },
            WriteOperation::UpdateNode(n, x) => {
                let _ = self.update_node(n.as_str(), x);
            },
            WriteOperation::UpdateEdge(n, x) => {
                let _ = self.update_edge(n.as_str(), x);
            },
            WriteOperation::DeleteNode(n, id) => {
                let _ = self.mark_node_as_deleted(n.as_str(), *id);
            },
            WriteOperation::DeleteEdge(n, id) => {
                let _ = self.mark_edge_as_deleted(n.as_str(), *id);
            },
        }
    }
}


/// Every graph file loads.
pub open spec fn all_loadable(files: Map<Seq<char>, Seq<u8>>) -> bool {
    forall|k: Seq<char>| #[trigger] files.contains_key(k) ==> loaded_graph(files[k]) is Some
}

/// Every write keeps every graph file loadable, so that a restart can
/// reload each graph.
pub proof fn lemma_step_keeps_loadable(before: Map<Seq<char>, Seq<u8>>, after: Map<Seq<char>, Seq<u8>>, op: WriteOperation)
    requires
        all_loadable(before),
        disk_step(before, after, op),
    ensures
        all_loadable(after),
{
    assert forall|k: Seq<char>| #[trigger] after.contains_key(k) implies loaded_graph(after[k]) is Some by {
        match op {
            WriteOperation::CreateGraph(n) => {
                if k == n@ && !before.contains_key(n@) {
                    lemma_loaded_some(after[k]);
                    assert(node_slots(after[k], fresh_header(n@)) =~= Seq::<Seq<u8>>::empty());
                    assert(edge_slots(after[k], fresh_header(n@)) =~= Seq::<Seq<u8>>::empty());
                } else {
                    assert(before.contains_key(k));
                }
            },
            WriteOperation::DeleteGraph(n) => {
                assert(before.contains_key(k));
            },
            WriteOperation::AddNode(n, x) => {
                assert(before.contains_key(k));
                if k == n@ {
                    lemma_file_change_keeps_loadable(before[k], after[k], x, arbitrary::<Edge>(), 0);
                }
            },
            WriteOperation::AddEdge(n, x) => {
                assert(before.contains_key(k));
                if k == n@ {
                    lemma_file_change_keeps_loadable(before[k], after[k], arbitrary::<Node>(), x, 0);
                }
            },
            WriteOperation::UpdateNode(n, x) => {
                assert(before.contains_key(k));
                if k == n@ {
                    lemma_file_change_keeps_loadable(before[k], after[k], x, arbitrary::<Edge>(), 0);
                }
            },
            WriteOperation::UpdateEdge(n, x) => {
                assert(before.contains_key(k));
                if k == n@ {
                    lemma_file_change_keeps_loadable(before[k], after[k], arbitrary::<Node>(), x, 0);
                }
            },
            WriteOperation::DeleteNode(n, id) => {
                assert(before.contains_key(k));
                if k == n@ {
                    lemma_file_change_keeps_loadable(before[k], after[k], arbitrary::<Node>(), arbitrary::<Edge>(), id);
                }
            },
            WriteOperation::DeleteEdge(n, id) => {
                assert(before.contains_key(k));
                if k == n@ {
                    lemma_file_change_keeps_loadable(before[k], after[k], arbitrary::<Node>(), arbitrary::<Edge>(), id);
                }
            },
        }
    }
}


} // verus!
