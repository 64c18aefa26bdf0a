//! The graph file format: a fixed-size header at offset 0, then a region of
//! fixed-size node slots, then a region of fixed-size edge slots. Every
//! operation here maps the bytes of a file to the bytes that replace them.
use vstd::prelude::*;
use crate::codec::{
    lemma_node_round_trip, node_fits, lemma_edge_round_trip, edge_fits,
    decode_edge, decode_header, decode_node, edge_record, encode_edge, encode_header, encode_node,
    header_bytes, header_fits, lemma_header_round_trip, node_record, parse_edge, parse_header,
    parse_node, GraphHeader, HeaderView,
};
use crate::edge::Edge;
use crate::node::{Node, NodeView};
use crate::edge::EdgeView;
use crate::graph::{Graph, GraphView};
use crate::id_generator::IdGenerator;
use crate::pairs::map_of_pairs;
use crate::traversal::contains_id;
use vstd::slice::slice_subrange;

verus! {

/// Size of the header region.
pub const HEADER_SIZE: u64 = 1024;

/// Size of one node or edge slot.
pub const BLOCK_SIZE: u64 = 1024;

/// Why an operation on a graph file failed.
#[derive(Debug)]
pub enum FileError {
    /// The header does not decode, or the regions it describes do not fit the file.
    Corrupt,
    /// The record is larger than a slot.
    Oversized,
    /// The header record is larger than the header region.
    HeaderFull,
    /// No slot holds a record with the id sought.
    RecordNotFound,
    /// An id or an offset would not fit in 64 bits.
    Exhausted,
}

/// `n` zero bytes.
pub open spec fn zeros(n: nat) -> Seq<u8> {
    Seq::new(n, |i: int| 0u8)
}

/// `b` followed by zeros up to length `n`.
pub open spec fn padded(b: Seq<u8>, n: nat) -> Seq<u8> {
    b + zeros((n - b.len()) as nat)
}

/// `f` with `b` written at offset `pos`, zero-filled where `f` was shorter.
pub open spec fn write_at(f: Seq<u8>, pos: int, b: Seq<u8>) -> Seq<u8> {
    let end = if f.len() >= pos + b.len() {
        f.len() as int
    } else {
        pos + b.len()
    };
    Seq::new(
        end as nat,
        |i: int|
            if pos <= i < pos + b.len() {
                b[i - pos]
            } else if i < f.len() {
                f[i]
            } else {
                0u8
            },
    )
}

/// The header at the start of `f`.
pub open spec fn header_of(f: Seq<u8>) -> Option<HeaderView> {
    if f.len() >= HEADER_SIZE {
        parse_header(f.take(HEADER_SIZE as int))
    } else {
        None
    }
}

/// The node region starts after the header and ends before the edge region,
/// and the slots in use lie within a file of length `len`.
pub open spec fn layout_ok(h: HeaderView, len: int) -> bool {
    &&& h.first_node_position == HEADER_SIZE
    &&& HEADER_SIZE + h.node_count * BLOCK_SIZE <= h.first_edge_position
    &&& HEADER_SIZE + h.node_count * BLOCK_SIZE <= len
    &&& h.edge_count == 0 || h.first_edge_position + h.edge_count * BLOCK_SIZE <= len
}

/// The header of a well-formed file.
pub open spec fn file_header(f: Seq<u8>) -> Option<HeaderView> {
    match header_of(f) {
        Some(h) => if layout_ok(h, f.len() as int) && header_bytes(h).len() <= HEADER_SIZE {
            Some(h)
        } else {
            None
        },
        None => None,
    }
}

/// Slot `i` of the region that starts at `start`.
pub open spec fn slot(f: Seq<u8>, start: int, i: int) -> Seq<u8> {
    f.subrange(start + i * BLOCK_SIZE, start + i * BLOCK_SIZE + BLOCK_SIZE)
}

/// The node slots in use.
pub open spec fn node_slots(f: Seq<u8>, h: HeaderView) -> Seq<Seq<u8>> {
    Seq::new(h.node_count as nat, |i: int| slot(f, h.first_node_position as int, i))
}

/// The edge slots in use.
pub open spec fn edge_slots(f: Seq<u8>, h: HeaderView) -> Seq<Seq<u8>> {
    Seq::new(h.edge_count as nat, |i: int| slot(f, h.first_edge_position as int, i))
}

/// Writes `b` into `file` at offset `pos`, growing the file with zeros as needed.
#[verifier::rlimit(60)]
fn write_bytes(file: &mut Vec<u8>, pos: usize, b: &[u8])
    requires
        pos + b@.len() <= usize::MAX,
    ensures
        final(file)@ == write_at(old(file)@, pos as int, b@),
{
    let end = pos + b.len();
    while file.len() < end
        invariant
            end == pos + b@.len(),
            old(file)@.len() <= file@.len() <= end || file@.len() == old(file)@.len(),
            forall|i: int| 0 <= i < old(file)@.len() ==> file@[i] == old(file)@[i],
            forall|i: int| old(file)@.len() <= i < file@.len() ==> file@[i] == 0u8,
        decreases end - file@.len(),
    {
        file.push(0);
    }
    let n = b.len();
    let mut j: usize = 0;
    while j < n
        invariant
            n == b@.len(),
            end == pos + n,
            j <= n,
            file@.len() == write_at(old(file)@, pos as int, b@).len(),
            forall|i: int|
                0 <= i < file@.len() ==> #[trigger] file@[i] == if pos <= i < pos + j {
                    b@[i - pos]
                } else if i < old(file)@.len() {
                    old(file)@[i]
                } else {
                    0u8
                },
        decreases n - j,
    {
        file.set(pos + j, b[j]);
        j = j + 1;
    }
    proof {
        assert(file@ =~= write_at(old(file)@, pos as int, b@));
    }
}

/// Bytes `[pos, pos + BLOCK_SIZE)` of `file`.
fn read_block(file: &[u8], pos: usize) -> (r: &[u8])
    requires
        pos + BLOCK_SIZE <= file@.len(),
    ensures
        r@ == file@.subrange(pos as int, pos + BLOCK_SIZE),
{
    let _len = file.len();
    slice_subrange(file, pos, pos + BLOCK_SIZE as usize)
}

/// `b` followed by zeros up to `n` bytes.
fn pad(b: Vec<u8>, n: usize) -> (r: Vec<u8>)
    requires
        b@.len() <= n,
    ensures
        r@ == padded(b@, n as nat),
{
    let mut r = b;
    while r.len() < n
        invariant
            b@.len() <= r@.len() <= n,
            forall|i: int| 0 <= i < b@.len() ==> r@[i] == b@[i],
            forall|i: int| b@.len() <= i < r@.len() ==> r@[i] == 0u8,
        decreases n - r@.len(),
    {
        r.push(0);
    }
    proof {
        assert(r@ =~= padded(b@, n as nat));
    }
    r
}

/// The header of `file`, if the file is well formed.
pub fn read_header(file: &[u8]) -> (r: Result<GraphHeader, FileError>)
    ensures
        match r {
            Ok(h) => file_header(file@) == Some(h@),
            Err(e) => e is Corrupt && file_header(file@) is None,
        },
{
    if (file.len() as u64) < HEADER_SIZE {
        return Err(FileError::Corrupt);
    }
    let h = match decode_header(slice_subrange(file, 0, HEADER_SIZE as usize)) {
        Some(h) => h,
        None => {
            return Err(FileError::Corrupt);
        },
    };
    proof {
        assert(file@.subrange(0, HEADER_SIZE as int) =~= file@.take(HEADER_SIZE as int));
    }
    let hb = encode_header(&h);
    if hb.len() as u64 > HEADER_SIZE {
        return Err(FileError::Corrupt);
    }
    let len = file.len() as u128;
    let nodes_end = HEADER_SIZE as u128 + h.node_count as u128 * BLOCK_SIZE as u128;
    let edges_end = h.first_edge_position as u128 + h.edge_count as u128 * BLOCK_SIZE as u128;
    if h.first_node_position != HEADER_SIZE || nodes_end > h.first_edge_position as u128 || nodes_end
        > len || (h.edge_count != 0 && edges_end > len) {
        return Err(FileError::Corrupt);
    }
    Ok(h)
}

/// Writes the header record, padded to the header region, at the start of `file`.
fn store_header(file: &mut Vec<u8>, bytes: Vec<u8>)
    requires
        bytes@.len() <= HEADER_SIZE,
    ensures
        final(file)@ == write_at(old(file)@, 0, padded(bytes@, HEADER_SIZE as nat)),
{
    let block = pad(bytes, HEADER_SIZE as usize);
    write_bytes(file, 0, block.as_slice());
}

/// A header that `h` describes, written at the start of `f`, is what `f`
/// then starts with.
proof fn lemma_header_written(f: Seq<u8>, h: HeaderView)
    requires
        header_fits(h),
        header_bytes(h).len() <= HEADER_SIZE,
    ensures
        header_of(write_at(f, 0, padded(header_bytes(h), HEADER_SIZE as nat))) == Some(h),
        write_at(f, 0, padded(header_bytes(h), HEADER_SIZE as nat)).len() == if f.len()
            >= HEADER_SIZE {
            f.len() as int
        } else {
            HEADER_SIZE as int
        },
{
    let p = padded(header_bytes(h), HEADER_SIZE as nat);
    let g = write_at(f, 0, p);
    assert(g.take(HEADER_SIZE as int) =~= p);
    lemma_header_round_trip(h, zeros((HEADER_SIZE - header_bytes(h).len()) as nat));
}

/// Headers that differ only in their counters, positions and next ids have
/// records of the same length.
pub proof fn lemma_header_len(a: HeaderView, b: HeaderView)
    requires
        a.name == b.name,
        a.deleted_nodes == b.deleted_nodes,
        a.deleted_edges == b.deleted_edges,
    ensures
        header_bytes(a).len() == header_bytes(b).len(),
{
    let e = Seq::<u8>::empty();
    crate::codec::lemma_u64_round_trip(a.next_node_id, e);
    crate::codec::lemma_u64_round_trip(a.next_edge_id, e);
    crate::codec::lemma_u64_round_trip(a.node_count, e);
    crate::codec::lemma_u64_round_trip(a.edge_count, e);
    crate::codec::lemma_u64_round_trip(a.first_node_position, e);
    crate::codec::lemma_u64_round_trip(a.first_edge_position, e);
    crate::codec::lemma_u64_round_trip(b.next_node_id, e);
    crate::codec::lemma_u64_round_trip(b.next_edge_id, e);
    crate::codec::lemma_u64_round_trip(b.node_count, e);
    crate::codec::lemma_u64_round_trip(b.edge_count, e);
    crate::codec::lemma_u64_round_trip(b.first_node_position, e);
    crate::codec::lemma_u64_round_trip(b.first_edge_position, e);
    assert(crate::codec::u64_bytes(a.next_node_id) + e =~= crate::codec::u64_bytes(a.next_node_id));
}

/// The header of a fresh file for the graph `name`.
pub open spec fn fresh_header(name: Seq<char>) -> HeaderView {
    HeaderView {
        name,
        next_node_id: 1,
        next_edge_id: 1,
        node_count: 0,
        edge_count: 0,
        first_node_position: HEADER_SIZE,
        first_edge_position: (HEADER_SIZE + BLOCK_SIZE) as u64,
        deleted_nodes: Seq::empty(),
        deleted_edges: Seq::empty(),
    }
}

/// A fresh file for the graph `name`: a header with both ids at 1, no
/// records, and the edge region starting one slot after the node region.
pub fn new_file(name: &str) -> (r: Result<Vec<u8>, FileError>)
    ensures
        match r {
            Ok(f) => file_header(f@) == Some(fresh_header(name@)),
            Err(e) => e is HeaderFull,
        },
        r is Err <==> header_bytes(fresh_header(name@)).len() > HEADER_SIZE,
{
    let h = GraphHeader {
        name: name.to_owned(),
        next_node_id: 1,
        next_edge_id: 1,
        node_count: 0,
        edge_count: 0,
        first_node_position: HEADER_SIZE,
        first_edge_position: HEADER_SIZE + BLOCK_SIZE,
        deleted_nodes: Vec::new(),
        deleted_edges: Vec::new(),
    };
    proof {
        assert(h@.deleted_nodes =~= Seq::<u64>::empty());
        assert(h@.deleted_edges =~= Seq::<u64>::empty());
        assert(h@ == fresh_header(name@));
    }
    let bytes = encode_header(&h);
    if (bytes.len() as u64) > HEADER_SIZE {
        return Err(FileError::HeaderFull);
    }
    let mut f: Vec<u8> = Vec::new();
    store_header(&mut f, bytes);
    proof {
        lemma_header_written(Seq::empty(), h@);
        assert(h@.deleted_nodes =~= Seq::<u64>::empty());
        assert(h@.deleted_edges =~= Seq::<u64>::empty());
    }
    Ok(f)
}

proof fn lemma_write_keeps(f: Seq<u8>, pos: int, b: Seq<u8>, q: int, n: int)
    requires
        0 <= q,
        0 <= n,
        0 <= pos,
        q + n <= f.len(),
        q + n <= pos || pos + b.len() <= q,
    ensures
        write_at(f, pos, b).subrange(q, q + n) == f.subrange(q, q + n),
        write_at(f, pos, b).len() >= f.len(),
{
    assert(write_at(f, pos, b).subrange(q, q + n) =~= f.subrange(q, q + n));
}

proof fn lemma_write_puts(f: Seq<u8>, pos: int, b: Seq<u8>)
    requires
        0 <= pos,
    ensures
        write_at(f, pos, b).subrange(pos, pos + b.len()) == b,
        write_at(f, pos, b).len() >= pos + b.len(),
        write_at(f, pos, b).len() >= f.len(),
{
    assert(write_at(f, pos, b).subrange(pos, pos + b.len()) =~= b);
}

/// The first slot of `s` moved to the end.
pub open spec fn rotated(s: Seq<Seq<u8>>) -> Seq<Seq<u8>> {
    s.drop_first().push(s[0])
}

/// A node slot at the end of the node region would reach into the edge region.
pub open spec fn node_region_full(h: HeaderView) -> bool {
    HEADER_SIZE + h.node_count * BLOCK_SIZE + BLOCK_SIZE > h.first_edge_position
}

/// Offsets after one more node and one more edge still fit in memory.
pub open spec fn has_room(h: HeaderView) -> bool {
    h.first_edge_position + h.edge_count * BLOCK_SIZE + 2 * BLOCK_SIZE <= usize::MAX
}

/// The header after a node with id `id` is appended.
pub open spec fn header_after_node(h: HeaderView, id: u64) -> HeaderView {
    HeaderView {
        node_count: (h.node_count + 1) as u64,
        next_node_id: if id < h.next_node_id {
            h.next_node_id
        } else {
            (id + 1) as u64
        },
        first_edge_position: if node_region_full(h) {
            (h.first_edge_position + BLOCK_SIZE) as u64
        } else {
            h.first_edge_position
        },
        ..h
    }
}

/// The header after an edge with id `id` is appended.
pub open spec fn header_after_edge(h: HeaderView, id: u64) -> HeaderView {
    HeaderView {
        edge_count: (h.edge_count + 1) as u64,
        next_edge_id: if id < h.next_edge_id {
            h.next_edge_id
        } else {
            (id + 1) as u64
        },
        ..h
    }
}

/// `f2` is `f` after the record of `node` was appended: the node region
/// gains the record, and the first edge slot moved to the end of the edge
/// region if the node region was full.
pub open spec fn node_appended(f: Seq<u8>, f2: Seq<u8>, node: Node) -> bool {
    let h = file_header(f)->0;
    let h2 = header_after_node(h, node.id);
    &&& file_header(f) is Some
    &&& node_fits(node)
    &&& node.id < u64::MAX
    &&& node_record(node).len() <= BLOCK_SIZE
    &&& file_header(f2) == Some(h2)
    &&& node_slots(f2, h2) == node_slots(f, h).push(padded(node_record(node), BLOCK_SIZE as nat))
    &&& edge_slots(f2, h2) == if node_region_full(h) && h.edge_count > 0 {
        rotated(edge_slots(f, h))
    } else {
        edge_slots(f, h)
    }
}

/// Appending `node` to `f` must succeed: the file is well formed, the
/// record fits a slot, the id leaves room for the next one and the offsets
/// fit in memory.
pub open spec fn node_append_owed(f: Seq<u8>, node: Node) -> bool {
    &&& file_header(f) is Some
    &&& node_record(node).len() <= BLOCK_SIZE
    &&& node.id < u64::MAX
    &&& has_room(file_header(f)->0)
}

/// `f2` is `f` after the record of `edge` was appended to the edge region.
pub open spec fn edge_appended(f: Seq<u8>, f2: Seq<u8>, edge: Edge) -> bool {
    let h = file_header(f)->0;
    let h2 = header_after_edge(h, edge.id);
    &&& file_header(f) is Some
    &&& edge_fits(edge)
    &&& edge.id < u64::MAX
    &&& edge_record(edge).len() <= BLOCK_SIZE
    &&& file_header(f2) == Some(h2)
    &&& node_slots(f2, h2) == node_slots(f, h)
    &&& edge_slots(f2, h2) == edge_slots(f, h).push(padded(edge_record(edge), BLOCK_SIZE as nat))
}

/// Appending `edge` to `f` must succeed.
pub open spec fn edge_append_owed(f: Seq<u8>, edge: Edge) -> bool {
    &&& file_header(f) is Some
    &&& edge_record(edge).len() <= BLOCK_SIZE
    &&& edge.id < u64::MAX
    &&& has_room(file_header(f)->0)
}

/// The header of `f` with node `id` marked deleted.
pub open spec fn node_mark_header(f: Seq<u8>, id: u64) -> HeaderView {
    let h = file_header(f)->0;
    HeaderView { deleted_nodes: with_mark(h.deleted_nodes, id), ..h }
}

/// The header of `f` with edge `id` marked deleted.
pub open spec fn edge_mark_header(f: Seq<u8>, id: u64) -> HeaderView {
    let h = file_header(f)->0;
    HeaderView { deleted_edges: with_mark(h.deleted_edges, id), ..h }
}

/// `f2` is `f` with a new header `h2` and the same slots; unchanged when
/// the header is unchanged.
pub open spec fn header_replaced(f: Seq<u8>, f2: Seq<u8>, h2: HeaderView) -> bool {
    let h = file_header(f)->0;
    &&& file_header(f) is Some
    &&& file_header(f2) == Some(h2)
    &&& node_slots(f2, h2) == node_slots(f, h)
    &&& edge_slots(f2, h2) == edge_slots(f, h)
    &&& h2 == h ==> f2 == f
}

/// Marking an id deleted in `f` must succeed: the file is well formed and
/// the marked header fits its region.
pub open spec fn mark_owed(f: Seq<u8>, h2: HeaderView) -> bool {
    file_header(f) is Some && header_bytes(h2).len() <= HEADER_SIZE
}

/// `f2` is `f` with the first node slot holding `node`'s id rewritten.
pub open spec fn node_rewritten(f: Seq<u8>, f2: Seq<u8>, node: Node) -> bool {
    let h = file_header(f)->0;
    &&& file_header(f) is Some
    &&& node_fits(node)
    &&& node_record(node).len() <= BLOCK_SIZE
    &&& file_header(f2) == Some(h)
    &&& exists|k: int|
        first_with_id(node_slot_ids(node_slots(f, h)), node.id, k) && node_slots(f2, h) == node_slots(f, h).update(
            k,
            padded(node_record(node), BLOCK_SIZE as nat),
        )
    &&& edge_slots(f2, h) == edge_slots(f, h)
}

/// Rewriting `node` in `f` must succeed: the file is well formed, the
/// record fits and some node slot holds its id.
pub open spec fn node_rewrite_owed(f: Seq<u8>, node: Node) -> bool {
    &&& file_header(f) is Some
    &&& node_record(node).len() <= BLOCK_SIZE
    &&& node_slot_ids(node_slots(f, file_header(f)->0)).contains(Some(node.id))
}

/// `f2` is `f` with the first edge slot holding `edge`'s id rewritten.
pub open spec fn edge_rewritten(f: Seq<u8>, f2: Seq<u8>, edge: Edge) -> bool {
    let h = file_header(f)->0;
    &&& file_header(f) is Some
    &&& edge_fits(edge)
    &&& edge_record(edge).len() <= BLOCK_SIZE
    &&& file_header(f2) == Some(h)
    &&& exists|k: int|
        first_with_id(edge_slot_ids(edge_slots(f, h)), edge.id, k) && edge_slots(f2, h) == edge_slots(f, h).update(
            k,
            padded(edge_record(edge), BLOCK_SIZE as nat),
        )
    &&& node_slots(f2, h) == node_slots(f, h)
}

/// Rewriting `edge` in `f` must succeed.
pub open spec fn edge_rewrite_owed(f: Seq<u8>, edge: Edge) -> bool {
    &&& file_header(f) is Some
    &&& edge_record(edge).len() <= BLOCK_SIZE
    &&& edge_slot_ids(edge_slots(f, file_header(f)->0)).contains(Some(edge.id))
}

/// Appends the record of `node` in the next node slot. When that slot would
/// reach into the edge region, the first edge slot is first copied to the
/// end of the edge region and the edge region starts one slot later.
/// On failure the file is left as it was.
#[verifier::rlimit(60)]
pub fn append_node(file: &mut Vec<u8>, node: &Node) -> (r: Result<(), FileError>)
    ensures
        match r {
            Ok(()) => node_appended(old(file)@, final(file)@, *node),
            Err(e) => {
                &&& final(file)@ == old(file)@
                &&& (e is Corrupt <==> file_header(old(file)@) is None)
                &&& (file_header(old(file)@) is Some && node_record(*node).len() > BLOCK_SIZE
                    ==> e is Oversized)
            },
        },
        node_append_owed(old(file)@, *node) ==> r is Ok,
{
    let h = match read_header(file.as_slice()) {
        Ok(h) => h,
        Err(e) => {
            return Err(e);
        },
    };
    let ghost hv = h@;
    let ghost f0 = file@;
    let rec = encode_node(node);
    if rec.len() as u64 > BLOCK_SIZE {
        return Err(FileError::Oversized);
    }
    let _flen = file.len();
    if node.id == u64::MAX || h.first_edge_position as u128 + h.edge_count as u128 * BLOCK_SIZE as u128
        + 2 * BLOCK_SIZE as u128 > usize::MAX as u128 {
        return Err(FileError::Exhausted);
    }
    let pos = HEADER_SIZE + h.node_count * BLOCK_SIZE;
    let fe = h.first_edge_position;
    let ec = h.edge_count;
    let slide = pos + BLOCK_SIZE > fe;
    let h2 = GraphHeader {
        name: h.name,
        next_node_id: if node.id < h.next_node_id {
            h.next_node_id
        } else {
            node.id + 1
        },
        next_edge_id: h.next_edge_id,
        node_count: h.node_count + 1,
        edge_count: ec,
        first_node_position: h.first_node_position,
        first_edge_position: if slide {
            fe + BLOCK_SIZE
        } else {
            fe
        },
        deleted_nodes: h.deleted_nodes,
        deleted_edges: h.deleted_edges,
    };
    assert(h2@ == header_after_node(hv, node.id));
    proof {
        lemma_header_len(h2@, hv);
    }
    let hb = encode_header(&h2);
    if hb.len() as u64 > HEADER_SIZE {
        return Err(FileError::HeaderFull);
    }
    let ghost pr = padded(rec@, BLOCK_SIZE as nat);
    if slide && ec > 0 {
        let first = slice_to_vec_u8(read_block(file.as_slice(), fe as usize));
        write_bytes(file, (fe + ec * BLOCK_SIZE) as usize, first.as_slice());
    }
    let ghost f1 = file@;
    let block = pad(rec, BLOCK_SIZE as usize);
    write_bytes(file, pos as usize, block.as_slice());
    let ghost f2 = file@;
    store_header(file, hb);
    proof {
        let f3 = file@;
        let h2v = h2@;
        let hp = padded(header_bytes(h2v), HEADER_SIZE as nat);
        lemma_header_written(f2, h2v);
        lemma_write_puts(f2, 0, hp);
        // lengths only grow
        if slide && ec > 0 {
            lemma_write_puts(f0, fe + ec * BLOCK_SIZE, f0.subrange(fe as int, fe + BLOCK_SIZE));
        }
        assert(f1.len() >= f0.len());
        lemma_write_puts(f1, pos as int, pr);
        assert(f3.len() >= f2.len() >= f1.len());
        assert(layout_ok(h2v, f3.len() as int));
        // node slots
        assert forall|i: int| 0 <= i < hv.node_count implies slot(f3, HEADER_SIZE as int, i) == slot(
            f0,
            HEADER_SIZE as int,
            i,
        ) by {
            let q = HEADER_SIZE + i * BLOCK_SIZE;
            if slide && ec > 0 {
                lemma_write_keeps(f0, fe + ec * BLOCK_SIZE, f0.subrange(fe as int, fe + BLOCK_SIZE), q, BLOCK_SIZE as int);
            }
            lemma_write_keeps(f1, pos as int, pr, q, BLOCK_SIZE as int);
            lemma_write_keeps(f2, 0, hp, q, BLOCK_SIZE as int);
        }
        lemma_write_keeps(f2, 0, hp, pos as int, BLOCK_SIZE as int);
        assert(slot(f3, HEADER_SIZE as int, hv.node_count as int) == pr);
        assert(node_slots(f3, h2v) =~= node_slots(f0, hv).push(pr));
        // edge slots
        let fe2 = h2v.first_edge_position;
        if slide && ec > 0 {
            let moved = f0.subrange(fe as int, fe + BLOCK_SIZE);
            assert forall|j: int| 0 <= j < ec - 1 implies slot(f3, fe2 as int, j) == slot(f0, fe as int, j + 1) by {
                let q = fe2 + j * BLOCK_SIZE;
                lemma_write_keeps(f0, fe + ec * BLOCK_SIZE, moved, q, BLOCK_SIZE as int);
                lemma_write_keeps(f1, pos as int, pr, q, BLOCK_SIZE as int);
                lemma_write_keeps(f2, 0, hp, q, BLOCK_SIZE as int);
            }
            let q = fe + ec * BLOCK_SIZE;
            lemma_write_keeps(f1, pos as int, pr, q, BLOCK_SIZE as int);
            lemma_write_keeps(f2, 0, hp, q, BLOCK_SIZE as int);
            assert(slot(f3, fe2 as int, ec - 1) == slot(f0, fe as int, 0));
            assert(edge_slots(f3, h2v) =~= rotated(edge_slots(f0, hv)));
        } else {
            assert forall|j: int| 0 <= j < ec implies slot(f3, fe2 as int, j) == slot(f0, fe as int, j) by {
                let q = fe + j * BLOCK_SIZE;
                lemma_write_keeps(f1, pos as int, pr, q, BLOCK_SIZE as int);
                lemma_write_keeps(f2, 0, hp, q, BLOCK_SIZE as int);
            }
            assert(edge_slots(f3, h2v) =~= edge_slots(f0, hv));
        }
    }
    Ok(())
}

/// A copy of a byte slice.
fn slice_to_vec_u8(b: &[u8]) -> (r: Vec<u8>)
    ensures
        r@ == b@,
{
    vstd::slice::slice_to_vec(b)
}

/// Appends the record of `edge` in the next edge slot. On failure the file
/// is left as it was.
#[verifier::rlimit(60)]
pub fn append_edge(file: &mut Vec<u8>, edge: &Edge) -> (r: Result<(), FileError>)
    ensures
        match r {
            Ok(()) => edge_appended(old(file)@, final(file)@, *edge),
            Err(e) => {
                &&& final(file)@ == old(file)@
                &&& (e is Corrupt <==> file_header(old(file)@) is None)
                &&& (file_header(old(file)@) is Some && edge_record(*edge).len() > BLOCK_SIZE
                    ==> e is Oversized)
            },
        },
        edge_append_owed(old(file)@, *edge) ==> r is Ok,
{
    let h = match read_header(file.as_slice()) {
        Ok(h) => h,
        Err(e) => {
            return Err(e);
        },
    };
    let ghost hv = h@;
    let ghost f0 = file@;
    let rec = encode_edge(edge);
    if rec.len() as u64 > BLOCK_SIZE {
        return Err(FileError::Oversized);
    }
    if edge.id == u64::MAX || h.first_edge_position as u128 + h.edge_count as u128 * BLOCK_SIZE as u128
        + 2 * BLOCK_SIZE as u128 > usize::MAX as u128 {
        return Err(FileError::Exhausted);
    }
    let pos = h.first_edge_position + h.edge_count * BLOCK_SIZE;
    let h2 = GraphHeader {
        name: h.name,
        next_node_id: h.next_node_id,
        next_edge_id: if edge.id < h.next_edge_id {
            h.next_edge_id
        } else {
            edge.id + 1
        },
        node_count: h.node_count,
        edge_count: h.edge_count + 1,
        first_node_position: h.first_node_position,
        first_edge_position: h.first_edge_position,
        deleted_nodes: h.deleted_nodes,
        deleted_edges: h.deleted_edges,
    };
    assert(h2@ == header_after_edge(hv, edge.id));
    proof {
        lemma_header_len(h2@, hv);
    }
    let hb = encode_header(&h2);
    if hb.len() as u64 > HEADER_SIZE {
        return Err(FileError::HeaderFull);
    }
    let ghost pr = padded(rec@, BLOCK_SIZE as nat);
    let block = pad(rec, BLOCK_SIZE as usize);
    write_bytes(file, pos as usize, block.as_slice());
    let ghost f1 = file@;
    store_header(file, hb);
    proof {
        let f2 = file@;
        let h2v = h2@;
        let hp = padded(header_bytes(h2v), HEADER_SIZE as nat);
        lemma_header_written(f1, h2v);
        lemma_write_puts(f1, 0, hp);
        lemma_write_puts(f0, pos as int, pr);
        assert(layout_ok(h2v, f2.len() as int));
        assert forall|i: int| 0 <= i < hv.node_count implies slot(f2, HEADER_SIZE as int, i) == slot(
            f0,
            HEADER_SIZE as int,
            i,
        ) by {
            let q = HEADER_SIZE + i * BLOCK_SIZE;
            lemma_write_keeps(f0, pos as int, pr, q, BLOCK_SIZE as int);
            lemma_write_keeps(f1, 0, hp, q, BLOCK_SIZE as int);
        }
        assert(node_slots(f2, h2v) =~= node_slots(f0, hv));
        let fe = hv.first_edge_position;
        assert forall|j: int| 0 <= j < hv.edge_count implies slot(f2, fe as int, j) == slot(f0, fe as int, j) by {
            let q = fe + j * BLOCK_SIZE;
            lemma_write_keeps(f0, pos as int, pr, q, BLOCK_SIZE as int);
            lemma_write_keeps(f1, 0, hp, q, BLOCK_SIZE as int);
        }
        lemma_write_keeps(f1, 0, hp, pos as int, BLOCK_SIZE as int);
        assert(slot(f2, fe as int, hv.edge_count as int) == pr);
        assert(edge_slots(f2, h2v) =~= edge_slots(f0, hv).push(pr));
    }
    Ok(())
}

/// `ids` with `id` added at the end, unless it is already there.
pub open spec fn with_mark(ids: Seq<u64>, id: u64) -> Seq<u64> {
    if ids.contains(id) {
        ids
    } else {
        ids.push(id)
    }
}

/// Marking an id deleted a second time changes nothing.
pub proof fn lemma_mark_idempotent(ids: Seq<u64>, id: u64)
    ensures
        with_mark(with_mark(ids, id), id) == with_mark(ids, id),
{
    if !ids.contains(id) {
        assert(ids.push(id)[ids.len() as int] == id);
    }
}

/// Rewrites the header of `file` as `h2`, which differs from the file's
/// header only in its tombstones.
fn rewrite_header(file: &mut Vec<u8>, h2: GraphHeader, Ghost(hv): Ghost<HeaderView>) -> (r: Result<(), FileError>)
    requires
        file_header(old(file)@) == Some(hv),
        h2@.node_count == hv.node_count,
        h2@.edge_count == hv.edge_count,
        h2@.first_node_position == hv.first_node_position,
        h2@.first_edge_position == hv.first_edge_position,
    ensures
        match r {
            Ok(()) => file_header(final(file)@) == Some(h2@) && node_slots(final(file)@, h2@)
                == node_slots(old(file)@, hv) && edge_slots(final(file)@, h2@) == edge_slots(
                old(file)@,
                hv,
            ),
            Err(e) => e is HeaderFull && final(file)@ == old(file)@,
        },
        r is Err <==> header_bytes(h2@).len() > HEADER_SIZE,
{
    let ghost f0 = file@;
    let ghost h2v = h2@;
    let hb = encode_header(&h2);
    if hb.len() as u64 > HEADER_SIZE {
        return Err(FileError::HeaderFull);
    }
    store_header(file, hb);
    proof {
        let hp = padded(header_bytes(h2v), HEADER_SIZE as nat);
        lemma_header_written(f0, h2v);
        lemma_write_puts(f0, 0, hp);
        assert forall|i: int| 0 <= i < hv.node_count implies slot(file@, HEADER_SIZE as int, i) == slot(
            f0,
            HEADER_SIZE as int,
            i,
        ) by {
            lemma_write_keeps(f0, 0, hp, HEADER_SIZE + i * BLOCK_SIZE, BLOCK_SIZE as int);
        }
        assert forall|j: int| 0 <= j < hv.edge_count implies slot(file@, hv.first_edge_position as int, j)
            == slot(f0, hv.first_edge_position as int, j) by {
            lemma_write_keeps(f0, 0, hp, hv.first_edge_position + j * BLOCK_SIZE, BLOCK_SIZE as int);
        }
        assert(node_slots(file@, h2v) =~= node_slots(f0, hv));
        assert(edge_slots(file@, h2v) =~= edge_slots(f0, hv));
    }
    Ok(())
}

/// Records node `node_id` as deleted in the header; its slot stays as it is.
pub fn mark_node_as_deleted(file: &mut Vec<u8>, node_id: u64) -> (r: Result<(), FileError>)
    ensures
        match r {
            Ok(()) => header_replaced(old(file)@, final(file)@, node_mark_header(old(file)@, node_id)),
            Err(e) => final(file)@ == old(file)@ && (e is Corrupt <==> file_header(old(file)@) is None)
                && (e is Corrupt || e is HeaderFull),
        },
        mark_owed(old(file)@, node_mark_header(old(file)@, node_id)) ==> r is Ok,
{
    let h = match read_header(file.as_slice()) {
        Ok(h) => h,
        Err(e) => {
            return Err(e);
        },
    };
    let ghost hv = h@;
    if contains_id(&h.deleted_nodes, node_id) {
        proof {
            assert(HeaderView { deleted_nodes: with_mark(hv.deleted_nodes, node_id), ..hv } == hv);
        }
        return Ok(());
    }
    let mut h2 = h;
    h2.deleted_nodes.push(node_id);
    rewrite_header(file, h2, Ghost(hv))
}

/// Records edge `edge_id` as deleted in the header; its slot stays as it is.
pub fn mark_edge_as_deleted(file: &mut Vec<u8>, edge_id: u64) -> (r: Result<(), FileError>)
    ensures
        match r {
            Ok(()) => header_replaced(old(file)@, final(file)@, edge_mark_header(old(file)@, edge_id)),
            Err(e) => final(file)@ == old(file)@ && (e is Corrupt <==> file_header(old(file)@) is None)
                && (e is Corrupt || e is HeaderFull),
        },
        mark_owed(old(file)@, edge_mark_header(old(file)@, edge_id)) ==> r is Ok,
{
    let h = match read_header(file.as_slice()) {
        Ok(h) => h,
        Err(e) => {
            return Err(e);
        },
    };
    let ghost hv = h@;
    if contains_id(&h.deleted_edges, edge_id) {
        proof {
            assert(HeaderView { deleted_edges: with_mark(hv.deleted_edges, edge_id), ..hv } == hv);
        }
        return Ok(());
    }
    let mut h2 = h;
    h2.deleted_edges.push(edge_id);
    rewrite_header(file, h2, Ghost(hv))
}

/// The node that a decoded node record describes.
pub open spec fn node_of(r: (u64, Seq<char>, Seq<(Seq<char>, Seq<char>)>)) -> NodeView {
    NodeView { id: r.0, label: r.1, properties: map_of_pairs(r.2) }
}

/// The edge that a decoded edge record describes.
pub open spec fn edge_of(r: (u64, Seq<char>, u64, u64, Seq<(Seq<char>, Seq<char>)>)) -> EdgeView {
    EdgeView { id: r.0, label: r.1, from: r.2, to: r.3, properties: map_of_pairs(r.4) }
}

/// `g` after putting `n` under its id and keeping the allocator ahead of it.
pub open spec fn with_node(g: GraphView, n: NodeView) -> GraphView {
    GraphView {
        nodes: g.nodes.insert(n.id, n),
        next_node_id: if n.id < g.next_node_id {
            g.next_node_id
        } else {
            (n.id + 1) as u64
        },
        ..g
    }
}

/// `g` after putting `e` under its id and keeping the allocator ahead of it.
pub open spec fn with_edge(g: GraphView, e: EdgeView) -> GraphView {
    GraphView {
        edges: g.edges.insert(e.id, e),
        next_edge_id: if e.id < g.next_edge_id {
            g.next_edge_id
        } else {
            (e.id + 1) as u64
        },
        ..g
    }
}

/// `g` after reading the node slots in order, skipping the ids in `dead`.
pub open spec fn load_nodes(g: GraphView, slots: Seq<Seq<u8>>, dead: Seq<u64>) -> Option<GraphView>
    decreases slots.len(),
{
    if slots.len() == 0 {
        Some(g)
    } else {
        match load_nodes(g, slots.drop_last(), dead) {
            Some(g1) => match parse_node(slots.last()) {
                Some(r) => if dead.contains(r.0) {
                    Some(g1)
                } else if r.0 < u64::MAX {
                    Some(with_node(g1, node_of(r)))
                } else {
                    None
                },
                None => None,
            },
            None => None,
        }
    }
}

/// `g` after reading the edge slots in order, skipping the ids in `dead`.
pub open spec fn load_edges(g: GraphView, slots: Seq<Seq<u8>>, dead: Seq<u64>) -> Option<GraphView>
    decreases slots.len(),
{
    if slots.len() == 0 {
        Some(g)
    } else {
        match load_edges(g, slots.drop_last(), dead) {
            Some(g1) => match parse_edge(slots.last()) {
                Some(r) => if dead.contains(r.0) {
                    Some(g1)
                } else if r.0 < u64::MAX {
                    Some(with_edge(g1, edge_of(r)))
                } else {
                    None
                },
                None => None,
            },
            None => None,
        }
    }
}

/// The graph that a file holds: an empty graph with the header's name and
/// allocator, then the live node records, then the live edge records.
pub open spec fn loaded_graph(f: Seq<u8>) -> Option<GraphView> {
    match file_header(f) {
        Some(h) => {
            let g0 = GraphView {
                name: h.name,
                nodes: Map::empty(),
                edges: Map::empty(),
                next_node_id: h.next_node_id,
                next_edge_id: h.next_edge_id,
            };
            match load_nodes(g0, node_slots(f, h), h.deleted_nodes) {
                Some(g1) => load_edges(g1, edge_slots(f, h), h.deleted_edges),
                None => None,
            }
        },
        None => None,
    }
}

/// Reads the graph that `file` holds.
#[verifier::rlimit(60)]
pub fn load_graph(file: &[u8]) -> (r: Result<Graph, FileError>)
    ensures
        match r {
            Ok(g) => g.wf() && loaded_graph(file@) == Some(g@),
            Err(e) => e is Corrupt && loaded_graph(file@) is None,
        },
{
    let h = match read_header(file) {
        Ok(h) => h,
        Err(e) => {
            return Err(e);
        },
    };
    let ghost hv = h@;
    let ghost nslots = node_slots(file@, hv);
    let ghost eslots = edge_slots(file@, hv);
    let mut g = Graph::new(h.name.clone(), IdGenerator::from(h.next_node_id, h.next_edge_id));
    let ghost g0 = g@;
    proof {
        assert(g0 == GraphView {
            name: hv.name,
            nodes: Map::empty(),
            edges: Map::empty(),
            next_node_id: hv.next_node_id,
            next_edge_id: hv.next_edge_id,
        });
        assert(nslots.take(0) =~= Seq::<Seq<u8>>::empty());
    }
    let flen = file.len();
    let nc = h.node_count;
    let mut i: u64 = 0;
    while i < nc
        invariant
            file_header(file@) == Some(hv),
            hv == h@,
            nc == hv.node_count,
            nslots == node_slots(file@, hv),
            flen == file@.len(),
            g0 == (GraphView {
                name: hv.name,
                nodes: Map::empty(),
                edges: Map::empty(),
                next_node_id: hv.next_node_id,
                next_edge_id: hv.next_edge_id,
            }),
            i <= nc,
            g.wf(),
            load_nodes(g0, nslots.take(i as int), hv.deleted_nodes) == Some(g@),
        decreases nc - i,
    {
        let pos = HEADER_SIZE + i * BLOCK_SIZE;
        let block = read_block(file, pos as usize);
        proof {
            assert(nslots.take(i + 1).drop_last() =~= nslots.take(i as int));
            assert(nslots[i as int] == slot(file@, HEADER_SIZE as int, i as int));
            assert(nslots.take(i + 1).last() == nslots[i as int]);
            assert(block@ =~= nslots[i as int]);
        }
        let node = match decode_node(block) {
            Some(n) => n,
            None => {
                proof {
                    lemma_load_nodes_prefix_fails(g0, nslots, hv.deleted_nodes, i + 1);
                    assert(nslots.take(nc as int) =~= nslots);
                }
                return Err(FileError::Corrupt);
            },
        };
        proof {
            node.properties.lemma_pairs();
        }
        if !contains_id(&h.deleted_nodes, node.id) {
            if node.id == u64::MAX {
                proof {
                    lemma_load_nodes_prefix_fails(g0, nslots, hv.deleted_nodes, i + 1);
                    assert(nslots.take(nc as int) =~= nslots);
                }
                return Err(FileError::Corrupt);
            }
            g.add_full_node(node);
        }
        i = i + 1;
    }
    proof {
        assert(nslots.take(nc as int) =~= nslots);
    }
    let ghost g1 = g@;
    proof {
        assert(eslots.take(0) =~= Seq::<Seq<u8>>::empty());
    }
    let ec = h.edge_count;
    let fe = h.first_edge_position;
    let mut j: u64 = 0;
    while j < ec
        invariant
            file_header(file@) == Some(hv),
            hv == h@,
            ec == hv.edge_count,
            fe == hv.first_edge_position,
            eslots == edge_slots(file@, hv),
            flen == file@.len(),
            load_nodes(g0, nslots, hv.deleted_nodes) == Some(g1),
            g0 == (GraphView {
                name: hv.name,
                nodes: Map::empty(),
                edges: Map::empty(),
                next_node_id: hv.next_node_id,
                next_edge_id: hv.next_edge_id,
            }),
            nslots == node_slots(file@, hv),
            j <= ec,
            g.wf(),
            load_edges(g1, eslots.take(j as int), hv.deleted_edges) == Some(g@),
        decreases ec - j,
    {
        let pos = fe + j * BLOCK_SIZE;
        let block = read_block(file, pos as usize);
        proof {
            assert(eslots.take(j + 1).drop_last() =~= eslots.take(j as int));
            assert(eslots[j as int] == slot(file@, fe as int, j as int));
            assert(eslots.take(j + 1).last() == eslots[j as int]);
            assert(block@ =~= eslots[j as int]);
        }
        let edge = match decode_edge(block) {
            Some(e) => e,
            None => {
                proof {
                    lemma_load_edges_prefix_fails(g1, eslots, hv.deleted_edges, j + 1);
                    assert(eslots.take(ec as int) =~= eslots);
                }
                return Err(FileError::Corrupt);
            },
        };
        proof {
            edge.properties.lemma_pairs();
        }
        if !contains_id(&h.deleted_edges, edge.id) {
            if edge.id == u64::MAX {
                proof {
                    lemma_load_edges_prefix_fails(g1, eslots, hv.deleted_edges, j + 1);
                    assert(eslots.take(ec as int) =~= eslots);
                }
                return Err(FileError::Corrupt);
            }
            g.add_full_edge(edge);
        }
        j = j + 1;
    }
    proof {
        assert(eslots.take(ec as int) =~= eslots);
    }
    Ok(g)
}

/// Once a prefix of the node slots fails to load, so do all the slots.
proof fn lemma_load_nodes_prefix_fails(g: GraphView, slots: Seq<Seq<u8>>, dead: Seq<u64>, k: int)
    requires
        0 <= k <= slots.len(),
        load_nodes(g, slots.take(k), dead) is None,
    ensures
        load_nodes(g, slots.take(slots.len() as int), dead) is None,
    decreases slots.len() - k,
{
    if k < slots.len() {
        assert(slots.take(k + 1).drop_last() =~= slots.take(k));
        lemma_load_nodes_prefix_fails(g, slots, dead, k + 1);
    }
}

/// Once a prefix of the edge slots fails to load, so do all the slots.
proof fn lemma_load_edges_prefix_fails(g: GraphView, slots: Seq<Seq<u8>>, dead: Seq<u64>, k: int)
    requires
        0 <= k <= slots.len(),
        load_edges(g, slots.take(k), dead) is None,
    ensures
        load_edges(g, slots.take(slots.len() as int), dead) is None,
    decreases slots.len() - k,
{
    if k < slots.len() {
        assert(slots.take(k + 1).drop_last() =~= slots.take(k));
        lemma_load_edges_prefix_fails(g, slots, dead, k + 1);
    }
}

/// The id in a node slot, if the slot holds a node record.
pub open spec fn node_slot_id(b: Seq<u8>) -> Option<u64> {
    match parse_node(b) {
        Some(r) => Some(r.0),
        None => None,
    }
}

/// The id in an edge slot, if the slot holds an edge record.
pub open spec fn edge_slot_id(b: Seq<u8>) -> Option<u64> {
    match parse_edge(b) {
        Some(r) => Some(r.0),
        None => None,
    }
}

/// The ids in a sequence of node slots.
pub open spec fn node_slot_ids(slots: Seq<Seq<u8>>) -> Seq<Option<u64>> {
    slots.map_values(|b: Seq<u8>| node_slot_id(b))
}

/// The ids in a sequence of edge slots.
pub open spec fn edge_slot_ids(slots: Seq<Seq<u8>>) -> Seq<Option<u64>> {
    slots.map_values(|b: Seq<u8>| edge_slot_id(b))
}

/// Position `k` is the first of `slots` whose id is `id`.
pub open spec fn first_with_id(ids: Seq<Option<u64>>, id: u64, k: int) -> bool {
    &&& 0 <= k < ids.len()
    &&& ids[k] == Some(id)
    &&& forall|i: int| 0 <= i < k ==> ids[i] != Some(id)
}

/// Rewrites, in place, slot `k` of the region starting at `start`.
proof fn lemma_slot_rewritten(f: Seq<u8>, start: int, count: int, k: int, b: Seq<u8>)
    requires
        HEADER_SIZE <= start,
        0 <= k < count,
        start + count * BLOCK_SIZE <= f.len(),
        b.len() == BLOCK_SIZE,
    ensures
        write_at(f, start + k * BLOCK_SIZE, b).len() == f.len(),
        forall|i: int| 0 <= i < count && i != k ==> slot(write_at(f, start + k * BLOCK_SIZE, b), start, i) == slot(f, start, i),
        slot(write_at(f, start + k * BLOCK_SIZE, b), start, k) == b,
        write_at(f, start + k * BLOCK_SIZE, b).take(HEADER_SIZE as int) == f.take(HEADER_SIZE as int),
{
    let pos = start + k * BLOCK_SIZE;
    lemma_write_puts(f, pos, b);
    assert forall|i: int| 0 <= i < count && i != k implies slot(write_at(f, pos, b), start, i) == slot(f, start, i) by {
        if i < k {
            lemma_write_keeps(f, pos, b, start + i * BLOCK_SIZE, BLOCK_SIZE as int);
        } else {
            lemma_write_keeps(f, pos, b, start + i * BLOCK_SIZE, BLOCK_SIZE as int);
        }
    }
    lemma_write_keeps(f, pos, b, 0, HEADER_SIZE as int);
    assert(write_at(f, pos, b).take(HEADER_SIZE as int) =~= write_at(f, pos, b).subrange(0, HEADER_SIZE as int));
    assert(f.take(HEADER_SIZE as int) =~= f.subrange(0, HEADER_SIZE as int));
}

/// Rewrites the first node slot whose record has `node`'s id with the record
/// of `node`. On failure the file is left as it was.
#[verifier::rlimit(60)]
pub fn update_node(file: &mut Vec<u8>, node: &Node) -> (r: Result<(), FileError>)
    ensures
        match r {
            Ok(()) => node_rewritten(old(file)@, final(file)@, *node),
            Err(e) => {
                &&& final(file)@ == old(file)@
                &&& (e is Corrupt <==> file_header(old(file)@) is None)
                &&& (file_header(old(file)@) is Some && node_record(*node).len() > BLOCK_SIZE ==> e is Oversized)
                &&& (e is RecordNotFound ==> !node_slot_ids(node_slots(old(file)@, file_header(old(file)@)->0)).contains(Some(node.id)))
                &&& (file_header(old(file)@) is Some && node_record(*node).len() <= BLOCK_SIZE ==> e is RecordNotFound)
            },
        },
        node_rewrite_owed(old(file)@, *node) ==> r is Ok,
{
    let h = match read_header(file.as_slice()) {
        Ok(h) => h,
        Err(e) => {
            return Err(e);
        },
    };
    let ghost hv = h@;
    let ghost f0 = file@;
    let ghost ids = node_slot_ids(node_slots(f0, hv));
    let rec = encode_node(node);
    if rec.len() as u64 > BLOCK_SIZE {
        return Err(FileError::Oversized);
    }
    let flen = file.len();
    let nc = h.node_count;
    let mut i: u64 = 0;
    while i < nc
        invariant
            file@ == f0,
            f0 == old(file)@,
            flen == f0.len(),
            file_header(f0) == Some(hv),
            nc == hv.node_count,
            ids == node_slot_ids(node_slots(f0, hv)),
            i <= nc,
            rec@ == node_record(*node),
            rec@.len() <= BLOCK_SIZE,
            node_fits(*node),
            forall|j: int| 0 <= j < i ==> ids[j] != Some(node.id),
        decreases nc - i,
    {
        let pos = HEADER_SIZE + i * BLOCK_SIZE;
        let blk = read_block(file.as_slice(), pos as usize);
        proof {
            assert(blk@ =~= node_slots(f0, hv)[i as int]);
            assert(ids[i as int] == node_slot_id(blk@));
        }
        let found = match decode_node(blk) {
            Some(existing) => existing.id == node.id,
            None => false,
        };
        if found {
            let block = pad(rec, BLOCK_SIZE as usize);
            write_bytes(file, pos as usize, block.as_slice());
            proof {
                lemma_slot_rewritten(f0, HEADER_SIZE as int, nc as int, i as int, block@);
                assert(header_of(file@) == header_of(f0));
                assert(file_header(file@) == Some(hv));
                assert(node_slots(file@, hv) =~= node_slots(f0, hv).update(i as int, block@));
                if hv.edge_count > 0 {
                    assert forall|j: int| 0 <= j < hv.edge_count implies slot(file@, hv.first_edge_position as int, j)
                        == slot(f0, hv.first_edge_position as int, j) by {
                        lemma_write_keeps(f0, pos as int, block@, hv.first_edge_position + j * BLOCK_SIZE, BLOCK_SIZE as int);
                    }
                }
                assert(edge_slots(file@, hv) =~= edge_slots(f0, hv));
                assert(first_with_id(ids, node.id, i as int));
                assert(block@ == padded(node_record(*node), BLOCK_SIZE as nat));
                assert(first_with_id(node_slot_ids(node_slots(f0, hv)), node.id, i as int) && node_slots(file@, hv)
                    == node_slots(f0, hv).update(i as int, padded(node_record(*node), BLOCK_SIZE as nat)));
                assert(file_header(f0)->0 == hv);
            }
            return Ok(());
        }
        i = i + 1;
    }
    proof {
        assert(!ids.contains(Some(node.id))) by {
            if ids.contains(Some(node.id)) {
                let j = choose|j: int| 0 <= j < ids.len() && ids[j] == Some(node.id);
            }
        }
    }
    Err(FileError::RecordNotFound)
}

/// Rewrites the first edge slot whose record has `edge`'s id with the record
/// of `edge`. On failure the file is left as it was.
#[verifier::rlimit(60)]
pub fn update_edge(file: &mut Vec<u8>, edge: &Edge) -> (r: Result<(), FileError>)
    ensures
        match r {
            Ok(()) => edge_rewritten(old(file)@, final(file)@, *edge),
            Err(e) => {
                &&& final(file)@ == old(file)@
                &&& (e is Corrupt <==> file_header(old(file)@) is None)
                &&& (file_header(old(file)@) is Some && edge_record(*edge).len() > BLOCK_SIZE ==> e is Oversized)
                &&& (e is RecordNotFound ==> !edge_slot_ids(edge_slots(old(file)@, file_header(old(file)@)->0)).contains(Some(edge.id)))
                &&& (file_header(old(file)@) is Some && edge_record(*edge).len() <= BLOCK_SIZE ==> e is RecordNotFound)
            },
        },
        edge_rewrite_owed(old(file)@, *edge) ==> r is Ok,
{
    let h = match read_header(file.as_slice()) {
        Ok(h) => h,
        Err(e) => {
            return Err(e);
        },
    };
    let ghost hv = h@;
    let ghost f0 = file@;
    let ghost ids = edge_slot_ids(edge_slots(f0, hv));
    let rec = encode_edge(edge);
    if rec.len() as u64 > BLOCK_SIZE {
        return Err(FileError::Oversized);
    }
    let flen = file.len();
    let ec = h.edge_count;
    let fe = h.first_edge_position;
    let mut i: u64 = 0;
    while i < ec
        invariant
            file@ == f0,
            f0 == old(file)@,
            flen == f0.len(),
            file_header(f0) == Some(hv),
            ec == hv.edge_count,
            fe == hv.first_edge_position,
            ids == edge_slot_ids(edge_slots(f0, hv)),
            i <= ec,
            rec@ == edge_record(*edge),
            rec@.len() <= BLOCK_SIZE,
            edge_fits(*edge),
            forall|j: int| 0 <= j < i ==> ids[j] != Some(edge.id),
        decreases ec - i,
    {
        let pos = fe + i * BLOCK_SIZE;
        let blk = read_block(file.as_slice(), pos as usize);
        proof {
            assert(blk@ =~= edge_slots(f0, hv)[i as int]);
            assert(ids[i as int] == edge_slot_id(blk@));
        }
        let found = match decode_edge(blk) {
            Some(existing) => existing.id == edge.id,
            None => false,
        };
        if found {
            let block = pad(rec, BLOCK_SIZE as usize);
            write_bytes(file, pos as usize, block.as_slice());
            proof {
                lemma_slot_rewritten(f0, fe as int, ec as int, i as int, block@);
                assert(header_of(file@) == header_of(f0));
                assert(file_header(file@) == Some(hv));
                assert(edge_slots(file@, hv) =~= edge_slots(f0, hv).update(i as int, block@));
                assert forall|j: int| 0 <= j < hv.node_count implies slot(file@, HEADER_SIZE as int, j)
                    == slot(f0, HEADER_SIZE as int, j) by {
                    lemma_write_keeps(f0, pos as int, block@, HEADER_SIZE + j * BLOCK_SIZE, BLOCK_SIZE as int);
                }
                assert(node_slots(file@, hv) =~= node_slots(f0, hv));
                assert(first_with_id(ids, edge.id, i as int));
                assert(block@ == padded(edge_record(*edge), BLOCK_SIZE as nat));
                assert(first_with_id(edge_slot_ids(edge_slots(f0, hv)), edge.id, i as int) && edge_slots(file@, hv)
                    == edge_slots(f0, hv).update(i as int, padded(edge_record(*edge), BLOCK_SIZE as nat)));
                assert(file_header(f0)->0 == hv);
            }
            return Ok(());
        }
        i = i + 1;
    }
    proof {
        assert(!ids.contains(Some(edge.id))) by {
            if ids.contains(Some(edge.id)) {
                let j = choose|j: int| 0 <= j < ids.len() && ids[j] == Some(edge.id);
            }
        }
    }
    Err(FileError::RecordNotFound)
}

/// Moving the first slot to the end keeps every slot: what was read before
/// is still read after.
pub proof fn lemma_rotation_keeps_slots(s: Seq<Seq<u8>>)
    requires
        s.len() > 0,
    ensures
        rotated(s).len() == s.len(),
        forall|b: Seq<u8>| s.contains(b) <==> #[trigger] rotated(s).contains(b),
{
    let r = rotated(s);
    assert forall|b: Seq<u8>| s.contains(b) <==> #[trigger] r.contains(b) by {
        if s.contains(b) {
            let i = choose|i: int| 0 <= i < s.len() && s[i] == b;
            if i == 0 {
                assert(r[s.len() - 1] == b);
            } else {
                assert(r[i - 1] == b);
            }
        }
        if r.contains(b) {
            let i = choose|i: int| 0 <= i < r.len() && r[i] == b;
            if i == s.len() - 1 {
                assert(s[0] == b);
            } else {
                assert(s[i + 1] == b);
            }
        }
    }
}

/// `g` with its next node id raised to at least `x`.
pub open spec fn raise_next_node(g: GraphView, x: u64) -> GraphView {
    GraphView { next_node_id: if x <= g.next_node_id { g.next_node_id } else { x }, ..g }
}

proof fn lemma_load_nodes_raised(g: GraphView, slots: Seq<Seq<u8>>, dead: Seq<u64>, x: u64)
    requires
        load_nodes(g, slots, dead) is Some,
    ensures
        load_nodes(raise_next_node(g, x), slots, dead) == Some(raise_next_node(load_nodes(g, slots, dead)->0, x)),
    decreases slots.len(),
{
    if slots.len() > 0 {
        lemma_load_nodes_raised(g, slots.drop_last(), dead, x);
        let g1 = load_nodes(g, slots.drop_last(), dead)->0;
        match parse_node(slots.last()) {
            Some(r) => {
                if !dead.contains(r.0) && r.0 < u64::MAX {
                    assert(with_node(raise_next_node(g1, x), node_of(r)) =~= raise_next_node(with_node(g1, node_of(r)), x));
                }
            },
            None => {},
        }
    }
}

proof fn lemma_load_edges_with_node(g: GraphView, slots: Seq<Seq<u8>>, dead: Seq<u64>, n: NodeView)
    requires
        load_edges(g, slots, dead) is Some,
    ensures
        load_edges(with_node(g, n), slots, dead) == Some(with_node(load_edges(g, slots, dead)->0, n)),
    decreases slots.len(),
{
    if slots.len() > 0 {
        lemma_load_edges_with_node(g, slots.drop_last(), dead, n);
        let g1 = load_edges(g, slots.drop_last(), dead)->0;
        match parse_edge(slots.last()) {
            Some(r) => {
                if !dead.contains(r.0) && r.0 < u64::MAX {
                    assert(with_edge(with_node(g1, n), edge_of(r)) =~= with_node(with_edge(g1, edge_of(r)), n));
                }
            },
            None => {},
        }
    }
}

/// Appending a node whose id is not marked deleted changes the graph that
/// the file holds exactly as putting the node in the in-memory graph does,
/// also when the first edge slot moves, provided the edge it holds is held
/// by no other slot.
pub proof fn lemma_append_node_reloads(f: Seq<u8>, f2: Seq<u8>, n: Node)
    requires
        loaded_graph(f) is Some,
        node_appended(f, f2, n),
        !file_header(f)->0.deleted_nodes.contains(n.id),
        ({
            let h = file_header(f)->0;
            let es = edge_slots(f, h);
            node_region_full(h) && h.edge_count > 0 ==> forall|i: int|
                0 < i < es.len() ==> (live_edge_id(#[trigger] es[i], h.deleted_edges) is Some && live_edge_id(
                    es[0],
                    h.deleted_edges,
                ) is Some ==> live_edge_id(es[i], h.deleted_edges) != live_edge_id(es[0], h.deleted_edges))
        }),
    ensures
        loaded_graph(f2) == Some(with_node(loaded_graph(f)->0, n@)),
{
    let h = file_header(f)->0;
    let h2 = header_after_node(h, n.id);
    let g0 = GraphView {
        name: h.name,
        nodes: Map::empty(),
        edges: Map::empty(),
        next_node_id: h.next_node_id,
        next_edge_id: h.next_edge_id,
    };
    let g0b = GraphView {
        name: h2.name,
        nodes: Map::empty(),
        edges: Map::empty(),
        next_node_id: h2.next_node_id,
        next_edge_id: h2.next_edge_id,
    };
    let x = (n.id + 1) as u64;
    assert(g0b == raise_next_node(g0, x));
    let ns = node_slots(f, h);
    let ns2 = node_slots(f2, h2);
    let es = edge_slots(f, h);
    let g1 = load_nodes(g0, ns, h.deleted_nodes)->0;
    lemma_load_nodes_raised(g0, ns, h.deleted_nodes, x);
    let pr = padded(node_record(n), BLOCK_SIZE as nat);
    lemma_node_round_trip(n, zeros((BLOCK_SIZE - node_record(n).len()) as nat));
    n.properties.lemma_pairs();
    assert(ns2.drop_last() =~= ns);
    assert(ns2.last() == pr);
    assert(node_of(parse_node(pr)->0) == n@);
    let g1b = with_node(raise_next_node(g1, x), n@);
    assert(load_nodes(g0b, ns2, h2.deleted_nodes) == Some(g1b));
    assert(g1b == with_node(g1, n@));
    lemma_load_edges_with_node(g1, es, h.deleted_edges, n@);
    if node_region_full(h) && h.edge_count > 0 {
        lemma_rotation_reloads_same(g1b, es, h.deleted_edges);
    }
}

/// `g` with its next edge id raised to at least `x`.
pub open spec fn raise_next_edge(g: GraphView, x: u64) -> GraphView {
    GraphView { next_edge_id: if x <= g.next_edge_id { g.next_edge_id } else { x }, ..g }
}

proof fn lemma_load_nodes_raised_edge(g: GraphView, slots: Seq<Seq<u8>>, dead: Seq<u64>, x: u64)
    requires
        load_nodes(g, slots, dead) is Some,
    ensures
        load_nodes(raise_next_edge(g, x), slots, dead) == Some(raise_next_edge(load_nodes(g, slots, dead)->0, x)),
    decreases slots.len(),
{
    if slots.len() > 0 {
        lemma_load_nodes_raised_edge(g, slots.drop_last(), dead, x);
        let g1 = load_nodes(g, slots.drop_last(), dead)->0;
        match parse_node(slots.last()) {
            Some(r) => {
                if !dead.contains(r.0) && r.0 < u64::MAX {
                    assert(with_node(raise_next_edge(g1, x), node_of(r)) =~= raise_next_edge(with_node(g1, node_of(r)), x));
                }
            },
            None => {},
        }
    }
}

proof fn lemma_load_edges_raised(g: GraphView, slots: Seq<Seq<u8>>, dead: Seq<u64>, x: u64)
    requires
        load_edges(g, slots, dead) is Some,
    ensures
        load_edges(raise_next_edge(g, x), slots, dead) == Some(raise_next_edge(load_edges(g, slots, dead)->0, x)),
    decreases slots.len(),
{
    if slots.len() > 0 {
        lemma_load_edges_raised(g, slots.drop_last(), dead, x);
        let g1 = load_edges(g, slots.drop_last(), dead)->0;
        match parse_edge(slots.last()) {
            Some(r) => {
                if !dead.contains(r.0) && r.0 < u64::MAX {
                    assert(with_edge(raise_next_edge(g1, x), edge_of(r)) =~= raise_next_edge(with_edge(g1, edge_of(r)), x));
                }
            },
            None => {},
        }
    }
}

/// Appending an edge whose id is not marked deleted changes the graph that
/// the file holds exactly as putting the edge in the in-memory graph does.
pub proof fn lemma_append_edge_reloads(f: Seq<u8>, f2: Seq<u8>, e: Edge)
    requires
        loaded_graph(f) is Some,
        edge_appended(f, f2, e),
        !file_header(f)->0.deleted_edges.contains(e.id),
    ensures
        loaded_graph(f2) == Some(with_edge(loaded_graph(f)->0, e@)),
{
    let h = file_header(f)->0;
    let h2 = header_after_edge(h, e.id);
    let g0 = GraphView {
        name: h.name,
        nodes: Map::empty(),
        edges: Map::empty(),
        next_node_id: h.next_node_id,
        next_edge_id: h.next_edge_id,
    };
    let g0b = GraphView {
        name: h2.name,
        nodes: Map::empty(),
        edges: Map::empty(),
        next_node_id: h2.next_node_id,
        next_edge_id: h2.next_edge_id,
    };
    let x = (e.id + 1) as u64;
    assert(g0b == raise_next_edge(g0, x));
    let ns = node_slots(f, h);
    let es = edge_slots(f, h);
    let es2 = edge_slots(f2, h2);
    lemma_load_nodes_raised_edge(g0, ns, h.deleted_nodes, x);
    let g1 = load_nodes(g0, ns, h.deleted_nodes)->0;
    lemma_load_edges_raised(g1, es, h.deleted_edges, x);
    let g2 = load_edges(g1, es, h.deleted_edges)->0;
    let pr = padded(edge_record(e), BLOCK_SIZE as nat);
    lemma_edge_round_trip(e, zeros((BLOCK_SIZE - edge_record(e).len()) as nat));
    e.properties.lemma_pairs();
    assert(es2.drop_last() =~= es);
    assert(es2.last() == pr);
    assert(edge_of(parse_edge(pr)->0) == e@);
    assert(with_edge(raise_next_edge(g2, x), e@) == with_edge(g2, e@));
}


/// A node slot that loading accepts: it holds a node record whose id is
/// marked deleted or below `u64::MAX`.
pub open spec fn node_slot_ok(b: Seq<u8>, dead: Seq<u64>) -> bool {
    match parse_node(b) {
        Some(r) => dead.contains(r.0) || r.0 < u64::MAX,
        None => false,
    }
}

/// An edge slot that loading accepts.
pub open spec fn edge_slot_ok(b: Seq<u8>, dead: Seq<u64>) -> bool {
    match parse_edge(b) {
        Some(r) => dead.contains(r.0) || r.0 < u64::MAX,
        None => false,
    }
}

/// Loading the node slots succeeds exactly when every slot is accepted.
pub proof fn lemma_load_nodes_some(g: GraphView, slots: Seq<Seq<u8>>, dead: Seq<u64>)
    ensures
        load_nodes(g, slots, dead) is Some <==> forall|i: int| 0 <= i < slots.len() ==> node_slot_ok(#[trigger] slots[i], dead),
    decreases slots.len(),
{
    if slots.len() > 0 {
        lemma_load_nodes_some(g, slots.drop_last(), dead);
        if forall|i: int| 0 <= i < slots.len() ==> node_slot_ok(#[trigger] slots[i], dead) {
            assert forall|i: int| 0 <= i < slots.drop_last().len() implies node_slot_ok(#[trigger] slots.drop_last()[i], dead) by {
                assert(slots.drop_last()[i] == slots[i]);
            }
            assert(node_slot_ok(slots[slots.len() - 1], dead));
        }
        if load_nodes(g, slots, dead) is Some {
            assert forall|i: int| 0 <= i < slots.len() implies node_slot_ok(#[trigger] slots[i], dead) by {
                if i < slots.len() - 1 {
                    assert(slots.drop_last()[i] == slots[i]);
                }
            }
        }
    }
}

/// Loading the edge slots succeeds exactly when every slot is accepted.
pub proof fn lemma_load_edges_some(g: GraphView, slots: Seq<Seq<u8>>, dead: Seq<u64>)
    ensures
        load_edges(g, slots, dead) is Some <==> forall|i: int| 0 <= i < slots.len() ==> edge_slot_ok(#[trigger] slots[i], dead),
    decreases slots.len(),
{
    if slots.len() > 0 {
        lemma_load_edges_some(g, slots.drop_last(), dead);
        if forall|i: int| 0 <= i < slots.len() ==> edge_slot_ok(#[trigger] slots[i], dead) {
            assert forall|i: int| 0 <= i < slots.drop_last().len() implies edge_slot_ok(#[trigger] slots.drop_last()[i], dead) by {
                assert(slots.drop_last()[i] == slots[i]);
            }
            assert(edge_slot_ok(slots[slots.len() - 1], dead));
        }
        if load_edges(g, slots, dead) is Some {
            assert forall|i: int| 0 <= i < slots.len() implies edge_slot_ok(#[trigger] slots[i], dead) by {
                if i < slots.len() - 1 {
                    assert(slots.drop_last()[i] == slots[i]);
                }
            }
        }
    }
}

/// A file loads exactly when it is well formed and every slot in use is accepted.
pub proof fn lemma_loaded_some(f: Seq<u8>)
    ensures
        loaded_graph(f) is Some <==> file_header(f) is Some && (forall|i: int|
            0 <= i < node_slots(f, file_header(f)->0).len() ==> node_slot_ok(
                #[trigger] node_slots(f, file_header(f)->0)[i],
                file_header(f)->0.deleted_nodes,
            )) && (forall|i: int|
            0 <= i < edge_slots(f, file_header(f)->0).len() ==> edge_slot_ok(
                #[trigger] edge_slots(f, file_header(f)->0)[i],
                file_header(f)->0.deleted_edges,
            )),
{
    if file_header(f) is Some {
        let h = file_header(f)->0;
        let g0 = GraphView { name: h.name, nodes: Map::empty(), edges: Map::empty(), next_node_id: h.next_node_id, next_edge_id: h.next_edge_id };
        lemma_load_nodes_some(g0, node_slots(f, h), h.deleted_nodes);
        if load_nodes(g0, node_slots(f, h), h.deleted_nodes) is Some {
            lemma_load_edges_some(load_nodes(g0, node_slots(f, h), h.deleted_nodes)->0, edge_slots(f, h), h.deleted_edges);
        } else {
            lemma_load_edges_some(g0, edge_slots(f, h), h.deleted_edges);
        }
    }
}

/// Every write that `disk_step` allows keeps a loadable file loadable: the
/// appended or rewritten record is accepted, moving a slot keeps every
/// slot, and marking more ids deleted accepts no fewer slots.
pub proof fn lemma_file_change_keeps_loadable(f: Seq<u8>, f2: Seq<u8>, node: Node, edge: Edge, id: u64)
    requires
        loaded_graph(f) is Some,
        node_appended(f, f2, node) || edge_appended(f, f2, edge) || node_rewritten(f, f2, node) || edge_rewritten(f, f2, edge)
            || header_replaced(f, f2, node_mark_header(f, id)) || header_replaced(f, f2, edge_mark_header(f, id)) || f2 == f,
    ensures
        loaded_graph(f2) is Some,
{
    lemma_loaded_some(f);
    lemma_loaded_some(f2);
    let h = file_header(f)->0;
    let ns = node_slots(f, h);
    let es = edge_slots(f, h);
    if f2 == f {
    } else if node_appended(f, f2, node) {
        let h2n = header_after_node(h, node.id);
        let pr = padded(node_record(node), BLOCK_SIZE as nat);
        lemma_node_round_trip(node, zeros((BLOCK_SIZE - node_record(node).len()) as nat));
        assert(pr == node_record(node) + zeros((BLOCK_SIZE - node_record(node).len()) as nat));
        assert forall|i: int| 0 <= i < node_slots(f2, h2n).len() implies node_slot_ok(#[trigger] node_slots(f2, h2n)[i], h2n.deleted_nodes) by {
            if i < ns.len() {
                assert(node_slots(f2, h2n)[i] == ns[i]);
                assert(node_slot_ok(ns[i], h.deleted_nodes));
            }
        }
        assert forall|i: int| 0 <= i < edge_slots(f2, h2n).len() implies edge_slot_ok(#[trigger] edge_slots(f2, h2n)[i], h2n.deleted_edges) by {
            if node_region_full(h) && h.edge_count > 0 {
                if i < es.len() - 1 {
                    assert(edge_slots(f2, h2n)[i] == es[i + 1]);
                    assert(edge_slot_ok(es[i + 1], h.deleted_edges));
                } else {
                    assert(edge_slots(f2, h2n)[i] == es[0]);
                    assert(edge_slot_ok(es[0], h.deleted_edges));
                }
            } else {
                assert(edge_slot_ok(es[i], h.deleted_edges));
            }
        }
    } else if edge_appended(f, f2, edge) {
        let h2e = header_after_edge(h, edge.id);
        let pr = padded(edge_record(edge), BLOCK_SIZE as nat);
        lemma_edge_round_trip(edge, zeros((BLOCK_SIZE - edge_record(edge).len()) as nat));
        assert(pr == edge_record(edge) + zeros((BLOCK_SIZE - edge_record(edge).len()) as nat));
        assert forall|i: int| 0 <= i < node_slots(f2, h2e).len() implies node_slot_ok(#[trigger] node_slots(f2, h2e)[i], h2e.deleted_nodes) by {
            assert(node_slot_ok(ns[i], h.deleted_nodes));
        }
        assert forall|i: int| 0 <= i < edge_slots(f2, h2e).len() implies edge_slot_ok(#[trigger] edge_slots(f2, h2e)[i], h2e.deleted_edges) by {
            if i < es.len() {
                assert(edge_slots(f2, h2e)[i] == es[i]);
                assert(edge_slot_ok(es[i], h.deleted_edges));
            }
        }
    } else if node_rewritten(f, f2, node) {
        let k = choose|k: int|
            first_with_id(node_slot_ids(ns), node.id, k) && node_slots(f2, h) == ns.update(
                k,
                padded(node_record(node), BLOCK_SIZE as nat),
            );
        lemma_node_round_trip(node, zeros((BLOCK_SIZE - node_record(node).len()) as nat));
        assert forall|i: int| 0 <= i < node_slots(f2, h).len() implies node_slot_ok(#[trigger] node_slots(f2, h)[i], h.deleted_nodes) by {
            assert(node_slot_ok(ns[i], h.deleted_nodes));
            if i == k {
                assert(node_slot_ids(ns)[k] == Some(node.id));
            }
        }
        assert forall|i: int| 0 <= i < edge_slots(f2, h).len() implies edge_slot_ok(#[trigger] edge_slots(f2, h)[i], h.deleted_edges) by {
            assert(edge_slot_ok(es[i], h.deleted_edges));
        }
    } else if edge_rewritten(f, f2, edge) {
        let k = choose|k: int|
            first_with_id(edge_slot_ids(es), edge.id, k) && edge_slots(f2, h) == es.update(
                k,
                padded(edge_record(edge), BLOCK_SIZE as nat),
            );
        lemma_edge_round_trip(edge, zeros((BLOCK_SIZE - edge_record(edge).len()) as nat));
        assert forall|i: int| 0 <= i < edge_slots(f2, h).len() implies edge_slot_ok(#[trigger] edge_slots(f2, h)[i], h.deleted_edges) by {
            assert(edge_slot_ok(es[i], h.deleted_edges));
            if i == k {
                assert(edge_slot_ids(es)[k] == Some(edge.id));
            }
        }
        assert forall|i: int| 0 <= i < node_slots(f2, h).len() implies node_slot_ok(#[trigger] node_slots(f2, h)[i], h.deleted_nodes) by {
            assert(node_slot_ok(ns[i], h.deleted_nodes));
        }
    } else {
        let h2 = file_header(f2)->0;
        assert(h2 == node_mark_header(f, id) || h2 == edge_mark_header(f, id));
        assert forall|i: int| 0 <= i < node_slots(f2, h2).len() implies node_slot_ok(#[trigger] node_slots(f2, h2)[i], h2.deleted_nodes) by {
            assert(node_slot_ok(ns[i], h.deleted_nodes));
            match parse_node(ns[i]) {
                Some(r) => {
                    if h.deleted_nodes.contains(r.0) {
                        let j = choose|j: int| 0 <= j < h.deleted_nodes.len() && h.deleted_nodes[j] == r.0;
                        assert(h2.deleted_nodes[j] == r.0);
                    }
                },
                None => {},
            }
        }
        assert forall|i: int| 0 <= i < edge_slots(f2, h2).len() implies edge_slot_ok(#[trigger] edge_slots(f2, h2)[i], h2.deleted_edges) by {
            assert(edge_slot_ok(es[i], h.deleted_edges));
            match parse_edge(es[i]) {
                Some(r) => {
                    if h.deleted_edges.contains(r.0) {
                        let j = choose|j: int| 0 <= j < h.deleted_edges.len() && h.deleted_edges[j] == r.0;
                        assert(h2.deleted_edges[j] == r.0);
                    }
                },
                None => {},
            }
        }
    }
}


/// The id that an edge slot adds when loaded, if it adds one.
pub open spec fn live_edge_id(b: Seq<u8>, dead: Seq<u64>) -> Option<u64> {
    match parse_edge(b) {
        Some(r) => if !dead.contains(r.0) && r.0 < u64::MAX {
            Some(r.0)
        } else {
            None
        },
        None => None,
    }
}

/// Loading one edge slot.
pub open spec fn edge_step(g: GraphView, b: Seq<u8>, dead: Seq<u64>) -> GraphView {
    match parse_edge(b) {
        Some(r) => if !dead.contains(r.0) && r.0 < u64::MAX {
            with_edge(g, edge_of(r))
        } else {
            g
        },
        None => g,
    }
}

proof fn lemma_load_one(g: GraphView, b: Seq<u8>, dead: Seq<u64>)
    requires
        edge_slot_ok(b, dead),
    ensures
        load_edges(g, seq![b], dead) == Some(edge_step(g, b, dead)),
{
    assert(seq![b].drop_last() =~= Seq::<Seq<u8>>::empty());
    assert(load_edges(g, Seq::<Seq<u8>>::empty(), dead) == Some(g));
    assert(seq![b].last() == b);
}

proof fn lemma_steps_swap(g: GraphView, a: Seq<u8>, b: Seq<u8>, dead: Seq<u64>)
    requires
        live_edge_id(a, dead) is Some && live_edge_id(b, dead) is Some ==> live_edge_id(a, dead) != live_edge_id(b, dead),
    ensures
        edge_step(edge_step(g, a, dead), b, dead) == edge_step(edge_step(g, b, dead), a, dead),
{
    if live_edge_id(a, dead) is Some && live_edge_id(b, dead) is Some {
        let ea = edge_of(parse_edge(a)->0);
        let eb = edge_of(parse_edge(b)->0);
        assert(ea.id != eb.id);
        assert(with_edge(with_edge(g, ea), eb).edges =~= with_edge(with_edge(g, eb), ea).edges);
    }
}

proof fn lemma_load_then_step(g: GraphView, rest: Seq<Seq<u8>>, x: Seq<u8>, dead: Seq<u64>)
    requires
        forall|i: int| 0 <= i < rest.len() ==> edge_slot_ok(#[trigger] rest[i], dead),
        edge_slot_ok(x, dead),
        forall|i: int|
            0 <= i < rest.len() ==> (live_edge_id(#[trigger] rest[i], dead) is Some && live_edge_id(x, dead) is Some
                ==> live_edge_id(rest[i], dead) != live_edge_id(x, dead)),
    ensures
        load_edges(g, rest, dead) is Some,
        load_edges(edge_step(g, x, dead), rest, dead) == Some(edge_step(load_edges(g, rest, dead)->0, x, dead)),
    decreases rest.len(),
{
    lemma_load_edges_some(g, rest, dead);
    lemma_load_edges_some(edge_step(g, x, dead), rest, dead);
    if rest.len() > 0 {
        let r0 = rest.drop_last();
        let y = rest.last();
        assert forall|i: int| 0 <= i < r0.len() implies edge_slot_ok(#[trigger] r0[i], dead) by {
            assert(r0[i] == rest[i]);
        }
        assert forall|i: int|
            0 <= i < r0.len() implies (live_edge_id(#[trigger] r0[i], dead) is Some && live_edge_id(x, dead) is Some
                ==> live_edge_id(r0[i], dead) != live_edge_id(x, dead)) by {
            assert(r0[i] == rest[i]);
        }
        lemma_load_then_step(g, r0, x, dead);
        assert(edge_slot_ok(y, dead) && y == rest[rest.len() - 1]);
        let gr = load_edges(g, r0, dead)->0;
        assert(load_edges(g, rest, dead) == Some(edge_step(gr, y, dead)));
        assert(load_edges(edge_step(g, x, dead), rest, dead) == Some(edge_step(edge_step(gr, x, dead), y, dead)));
        lemma_steps_swap(gr, x, y, dead);
    }
}

proof fn lemma_load_front(g: GraphView, x: Seq<u8>, rest: Seq<Seq<u8>>, dead: Seq<u64>)
    requires
        edge_slot_ok(x, dead),
    ensures
        load_edges(g, seq![x] + rest, dead) == load_edges(edge_step(g, x, dead), rest, dead),
    decreases rest.len(),
{
    if rest.len() == 0 {
        assert(seq![x] + rest =~= seq![x]);
        lemma_load_one(g, x, dead);
    } else {
        lemma_load_front(g, x, rest.drop_last(), dead);
        assert((seq![x] + rest).drop_last() =~= seq![x] + rest.drop_last());
        assert((seq![x] + rest).last() == rest.last());
    }
}

/// Moving the first edge slot to the end loads the same graph, when the id
/// that slot adds is added by no other slot.
pub proof fn lemma_rotation_reloads_same(g: GraphView, s: Seq<Seq<u8>>, dead: Seq<u64>)
    requires
        s.len() > 0,
        load_edges(g, s, dead) is Some,
        forall|i: int|
            0 < i < s.len() ==> (live_edge_id(#[trigger] s[i], dead) is Some && live_edge_id(s[0], dead) is Some
                ==> live_edge_id(s[i], dead) != live_edge_id(s[0], dead)),
    ensures
        load_edges(g, rotated(s), dead) == load_edges(g, s, dead),
{
    lemma_load_edges_some(g, s, dead);
    let x = s[0];
    let rest = s.drop_first();
    assert(s =~= seq![x] + rest);
    assert(edge_slot_ok(x, dead));
    assert forall|i: int| 0 <= i < rest.len() implies edge_slot_ok(#[trigger] rest[i], dead) by {
        assert(rest[i] == s[i + 1]);
    }
    assert forall|i: int|
        0 <= i < rest.len() implies (live_edge_id(#[trigger] rest[i], dead) is Some && live_edge_id(x, dead) is Some
            ==> live_edge_id(rest[i], dead) != live_edge_id(x, dead)) by {
        assert(rest[i] == s[i + 1]);
    }
    lemma_load_front(g, x, rest, dead);
    lemma_load_then_step(g, rest, x, dead);
    let r = rotated(s);
    assert(r.drop_last() =~= rest);
    assert(r.last() == x);
}


/// `g` with node `v.id` set to `v`.
pub open spec fn put_node(g: GraphView, v: NodeView) -> GraphView {
    GraphView { nodes: g.nodes.insert(v.id, v), ..g }
}

/// `g` with edge `v.id` set to `v`.
pub open spec fn put_edge(g: GraphView, v: EdgeView) -> GraphView {
    GraphView { edges: g.edges.insert(v.id, v), ..g }
}

/// The id that a node slot adds when loaded, if it adds one.
pub open spec fn live_node_id(b: Seq<u8>, dead: Seq<u64>) -> Option<u64> {
    match parse_node(b) {
        Some(r) => if !dead.contains(r.0) && r.0 < u64::MAX {
            Some(r.0)
        } else {
            None
        },
        None => None,
    }
}

proof fn lemma_load_nodes_replace(g: GraphView, s: Seq<Seq<u8>>, dead: Seq<u64>, k: int, x: Seq<u8>, v: NodeView)
    requires
        load_nodes(g, s, dead) is Some,
        0 <= k < s.len(),
        live_node_id(s[k], dead) == Some(v.id),
        parse_node(x) is Some,
        node_of(parse_node(x)->0) == v,
        forall|j: int| 0 <= j < s.len() && j != k ==> live_node_id(#[trigger] s[j], dead) != Some(v.id),
    ensures
        load_nodes(g, s.update(k, x), dead) == Some(put_node(load_nodes(g, s, dead)->0, v)),
        load_nodes(g, s, dead)->0.nodes.contains_key(v.id),
    decreases s.len(),
{
    let s2 = s.update(k, x);
    let g0 = load_nodes(g, s.drop_last(), dead)->0;
    if k == s.len() - 1 {
        assert(s2.drop_last() =~= s.drop_last());
        assert(s2.last() == x);
        let a = node_of(parse_node(s[k])->0);
        assert(put_node(with_node(g0, a), v).nodes =~= with_node(g0, v).nodes);
    } else {
        assert(s2.drop_last() =~= s.drop_last().update(k, x));
        assert(s2.last() == s.last());
        assert forall|j: int| 0 <= j < s.drop_last().len() && j != k implies live_node_id(#[trigger] s.drop_last()[j], dead)
            != Some(v.id) by {
            assert(s.drop_last()[j] == s[j]);
        }
        assert(s.drop_last()[k] == s[k]);
        lemma_load_nodes_replace(g, s.drop_last(), dead, k, x, v);
        let y = s.last();
        assert(live_node_id(s[s.len() - 1], dead) != Some(v.id));
        match parse_node(y) {
            Some(r) => {
                if !dead.contains(r.0) && r.0 < u64::MAX {
                    assert(r.0 != v.id);
                    assert(with_node(put_node(g0, v), node_of(r)).nodes =~= put_node(with_node(g0, node_of(r)), v).nodes);
                }
            },
            None => {},
        }
    }
}

proof fn lemma_load_edges_put_node(g: GraphView, s: Seq<Seq<u8>>, dead: Seq<u64>, v: NodeView)
    requires
        load_edges(g, s, dead) is Some,
    ensures
        load_edges(put_node(g, v), s, dead) == Some(put_node(load_edges(g, s, dead)->0, v)),
        load_edges(g, s, dead)->0.nodes == g.nodes,
    decreases s.len(),
{
    if s.len() > 0 {
        lemma_load_edges_put_node(g, s.drop_last(), dead, v);
    }
}

proof fn lemma_load_edges_replace(g: GraphView, s: Seq<Seq<u8>>, dead: Seq<u64>, k: int, x: Seq<u8>, v: EdgeView)
    requires
        load_edges(g, s, dead) is Some,
        0 <= k < s.len(),
        live_edge_id(s[k], dead) == Some(v.id),
        parse_edge(x) is Some,
        edge_of(parse_edge(x)->0) == v,
        forall|j: int| 0 <= j < s.len() && j != k ==> live_edge_id(#[trigger] s[j], dead) != Some(v.id),
    ensures
        load_edges(g, s.update(k, x), dead) == Some(put_edge(load_edges(g, s, dead)->0, v)),
        load_edges(g, s, dead)->0.edges.contains_key(v.id),
    decreases s.len(),
{
    let s2 = s.update(k, x);
    let g0 = load_edges(g, s.drop_last(), dead)->0;
    if k == s.len() - 1 {
        assert(s2.drop_last() =~= s.drop_last());
        assert(s2.last() == x);
        let a = edge_of(parse_edge(s[k])->0);
        assert(put_edge(with_edge(g0, a), v).edges =~= with_edge(g0, v).edges);
    } else {
        assert(s2.drop_last() =~= s.drop_last().update(k, x));
        assert(s2.last() == s.last());
        assert forall|j: int| 0 <= j < s.drop_last().len() && j != k implies live_edge_id(#[trigger] s.drop_last()[j], dead)
            != Some(v.id) by {
            assert(s.drop_last()[j] == s[j]);
        }
        assert(s.drop_last()[k] == s[k]);
        lemma_load_edges_replace(g, s.drop_last(), dead, k, x, v);
        let y = s.last();
        assert(live_edge_id(s[s.len() - 1], dead) != Some(v.id));
        match parse_edge(y) {
            Some(r) => {
                if !dead.contains(r.0) && r.0 < u64::MAX {
                    assert(r.0 != v.id);
                    assert(with_edge(put_edge(g0, v), edge_of(r)).edges =~= put_edge(with_edge(g0, edge_of(r)), v).edges);
                }
            },
            None => {},
        }
    }
}

/// Rewriting the node slot that holds `n`'s id, when it is the only live
/// slot holding it, changes the graph that the file holds exactly as the
/// in-memory update does: node `n.id` becomes `n`.
pub proof fn lemma_update_node_reloads(f: Seq<u8>, f2: Seq<u8>, n: Node)
    requires
        loaded_graph(f) is Some,
        node_rewritten(f, f2, n),
        !file_header(f)->0.deleted_nodes.contains(n.id),
        n.id < u64::MAX,
        ({
            let h = file_header(f)->0;
            let ns = node_slots(f, h);
            forall|i: int, j: int|
                0 <= i < ns.len() && 0 <= j < ns.len() && live_node_id(#[trigger] ns[i], h.deleted_nodes) == Some(n.id)
                    && live_node_id(#[trigger] ns[j], h.deleted_nodes) == Some(n.id) ==> i == j
        }),
    ensures
        loaded_graph(f2) == Some(crate::graph::node_updated(loaded_graph(f)->0, n@)),
{
    let h = file_header(f)->0;
    let ns = node_slots(f, h);
    let es = edge_slots(f, h);
    let dn = h.deleted_nodes;
    let g0 = GraphView {
        name: h.name,
        nodes: Map::empty(),
        edges: Map::empty(),
        next_node_id: h.next_node_id,
        next_edge_id: h.next_edge_id,
    };
    let pr = padded(node_record(n), BLOCK_SIZE as nat);
    let k = choose|k: int|
        first_with_id(node_slot_ids(ns), n.id, k) && node_slots(f2, h) == ns.update(k, pr);
    lemma_node_round_trip(n, zeros((BLOCK_SIZE - node_record(n).len()) as nat));
    n.properties.lemma_pairs();
    assert(node_of(parse_node(pr)->0) == n@);
    assert(node_slot_ids(ns)[k] == Some(n.id));
    assert(live_node_id(ns[k], dn) == Some(n.id));
    assert forall|j: int| 0 <= j < ns.len() && j != k implies live_node_id(#[trigger] ns[j], dn) != Some(n.id) by {
        if live_node_id(ns[j], dn) == Some(n.id) {
            assert(live_node_id(ns[k], dn) == Some(n.id));
        }
    }
    lemma_load_nodes_replace(g0, ns, dn, k, pr, n@);
    let g1 = load_nodes(g0, ns, dn)->0;
    lemma_load_edges_put_node(g1, es, h.deleted_edges, n@);
}

/// Rewriting the edge slot that holds `e`'s id, when it is the only live
/// slot holding it, changes the graph that the file holds exactly as the
/// in-memory update does: edge `e.id` becomes `e`.
pub proof fn lemma_update_edge_reloads(f: Seq<u8>, f2: Seq<u8>, e: Edge)
    requires
        loaded_graph(f) is Some,
        edge_rewritten(f, f2, e),
        !file_header(f)->0.deleted_edges.contains(e.id),
        e.id < u64::MAX,
        ({
            let h = file_header(f)->0;
            let es = edge_slots(f, h);
            forall|i: int, j: int|
                0 <= i < es.len() && 0 <= j < es.len() && live_edge_id(#[trigger] es[i], h.deleted_edges) == Some(e.id)
                    && live_edge_id(#[trigger] es[j], h.deleted_edges) == Some(e.id) ==> i == j
        }),
    ensures
        loaded_graph(f2) == Some(crate::graph::edge_updated(loaded_graph(f)->0, e@)),
{
    let h = file_header(f)->0;
    let ns = node_slots(f, h);
    let es = edge_slots(f, h);
    let de = h.deleted_edges;
    let g0 = GraphView {
        name: h.name,
        nodes: Map::empty(),
        edges: Map::empty(),
        next_node_id: h.next_node_id,
        next_edge_id: h.next_edge_id,
    };
    let pr = padded(edge_record(e), BLOCK_SIZE as nat);
    let k = choose|k: int|
        first_with_id(edge_slot_ids(es), e.id, k) && edge_slots(f2, h) == es.update(k, pr);
    lemma_edge_round_trip(e, zeros((BLOCK_SIZE - edge_record(e).len()) as nat));
    e.properties.lemma_pairs();
    assert(edge_of(parse_edge(pr)->0) == e@);
    assert(edge_slot_ids(es)[k] == Some(e.id));
    assert(live_edge_id(es[k], de) == Some(e.id));
    assert forall|j: int| 0 <= j < es.len() && j != k implies live_edge_id(#[trigger] es[j], de) != Some(e.id) by {
        if live_edge_id(es[j], de) == Some(e.id) {
            assert(live_edge_id(es[k], de) == Some(e.id));
        }
    }
    let g1 = load_nodes(g0, ns, h.deleted_nodes)->0;
    lemma_load_edges_replace(g1, es, de, k, pr, e@);
}


proof fn lemma_with_mark_contains(d: Seq<u64>, id: u64, x: u64)
    ensures
        with_mark(d, id).contains(x) <==> d.contains(x) || x == id,
{
    if !d.contains(id) {
        let d2 = d.push(id);
        if d.contains(x) {
            let j = choose|j: int| 0 <= j < d.len() && d[j] == x;
            assert(d2[j] == x);
        }
        if x == id {
            assert(d2[d.len() as int] == x);
        }
        if d2.contains(x) {
            let j = choose|j: int| 0 <= j < d2.len() && d2[j] == x;
            if j < d.len() {
                assert(d[j] == x);
            }
        }
    }
}

proof fn lemma_load_nodes_mark(g: GraphView, s: Seq<Seq<u8>>, d: Seq<u64>, id: u64)
    requires
        load_nodes(g, s, d) is Some,
        load_nodes(g, s, with_mark(d, id)) is Some,
    ensures
        load_nodes(g, s, with_mark(d, id))->0.nodes == load_nodes(g, s, d)->0.nodes.remove(id).union_prefer_right(
            if g.nodes.contains_key(id) { map![id => g.nodes[id]] } else { Map::empty() },
        ),
        load_nodes(g, s, with_mark(d, id))->0.edges == load_nodes(g, s, d)->0.edges,
        load_nodes(g, s, with_mark(d, id))->0.next_edge_id == load_nodes(g, s, d)->0.next_edge_id,
        load_nodes(g, s, with_mark(d, id))->0.name == load_nodes(g, s, d)->0.name,
    decreases s.len(),
{
    let d2 = with_mark(d, id);
    let extra = if g.nodes.contains_key(id) { map![id => g.nodes[id]] } else { Map::<u64, NodeView>::empty() };
    if s.len() == 0 {
        assert(g.nodes.remove(id).union_prefer_right(extra) =~= g.nodes);
    } else {
        lemma_load_nodes_mark(g, s.drop_last(), d, id);
        let a = load_nodes(g, s.drop_last(), d)->0;
        let b = load_nodes(g, s.drop_last(), d2)->0;
        match parse_node(s.last()) {
            Some(r) => {
                lemma_with_mark_contains(d, id, r.0);
                if !d.contains(r.0) && r.0 < u64::MAX {
                    if r.0 == id {
                        assert(with_node(a, node_of(r)).nodes.remove(id).union_prefer_right(extra) =~= a.nodes.remove(id).union_prefer_right(extra));
                    } else {
                        assert(with_node(b, node_of(r)).nodes =~= with_node(a, node_of(r)).nodes.remove(id).union_prefer_right(extra));
                    }
                }
            },
            None => {},
        }
    }
}

proof fn lemma_load_edges_mark(g: GraphView, s: Seq<Seq<u8>>, d: Seq<u64>, id: u64)
    requires
        load_edges(g, s, d) is Some,
        load_edges(g, s, with_mark(d, id)) is Some,
        !g.edges.contains_key(id),
    ensures
        load_edges(g, s, with_mark(d, id))->0.edges == load_edges(g, s, d)->0.edges.remove(id),
        load_edges(g, s, with_mark(d, id))->0.nodes == load_edges(g, s, d)->0.nodes,
    decreases s.len(),
{
    let d2 = with_mark(d, id);
    if s.len() == 0 {
        assert(g.edges.remove(id) =~= g.edges);
    } else {
        lemma_load_edges_mark(g, s.drop_last(), d, id);
        let a = load_edges(g, s.drop_last(), d)->0;
        let b = load_edges(g, s.drop_last(), d2)->0;
        match parse_edge(s.last()) {
            Some(r) => {
                lemma_with_mark_contains(d, id, r.0);
                if !d.contains(r.0) && r.0 < u64::MAX {
                    if r.0 == id {
                        assert(with_edge(a, edge_of(r)).edges.remove(id) =~= a.edges.remove(id));
                    } else {
                        assert(with_edge(b, edge_of(r)).edges =~= with_edge(a, edge_of(r)).edges.remove(id));
                    }
                }
            },
            None => {},
        }
    }
}

/// Loading edges touches only the edges and the next edge id.
proof fn lemma_load_edges_other_fields(g: GraphView, g2: GraphView, s: Seq<Seq<u8>>, d: Seq<u64>)
    requires
        load_edges(g, s, d) is Some,
        g2.edges == g.edges,
        g2.next_edge_id == g.next_edge_id,
    ensures
        load_edges(g2, s, d) is Some,
        load_edges(g2, s, d)->0.edges == load_edges(g, s, d)->0.edges,
        load_edges(g2, s, d)->0.nodes == g2.nodes,
        load_edges(g, s, d)->0.nodes == g.nodes,
    decreases s.len(),
{
    if s.len() > 0 {
        lemma_load_edges_other_fields(g, g2, s.drop_last(), d);
    }
}

/// Marking a node deleted changes the graph that the file holds as the
/// in-memory delete does: the node goes, the edges stay.
pub proof fn lemma_mark_node_reloads(f: Seq<u8>, f2: Seq<u8>, id: u64)
    requires
        loaded_graph(f) is Some,
        header_replaced(f, f2, node_mark_header(f, id)),
    ensures
        loaded_graph(f2) is Some,
        loaded_graph(f2)->0.nodes == loaded_graph(f)->0.nodes.remove(id),
        loaded_graph(f2)->0.edges == loaded_graph(f)->0.edges,
{
    let h = file_header(f)->0;
    let h2 = node_mark_header(f, id);
    lemma_file_change_keeps_loadable(f, f2, arbitrary::<Node>(), arbitrary::<Edge>(), id);
    let g0 = GraphView { name: h.name, nodes: Map::empty(), edges: Map::empty(), next_node_id: h.next_node_id, next_edge_id: h.next_edge_id };
    let ns = node_slots(f, h);
    let es = edge_slots(f, h);
    assert(node_slots(f2, h2) == ns && edge_slots(f2, h2) == es);
    lemma_load_nodes_mark(g0, ns, h.deleted_nodes, id);
    let a = load_nodes(g0, ns, h.deleted_nodes)->0;
    let b = load_nodes(g0, ns, h2.deleted_nodes)->0;
    assert(b.nodes =~= a.nodes.remove(id));
    lemma_load_edges_other_fields(a, b, es, h.deleted_edges);
}

/// Marking an edge deleted changes the graph that the file holds as the
/// in-memory delete does: the edge goes, the nodes stay.
pub proof fn lemma_mark_edge_reloads(f: Seq<u8>, f2: Seq<u8>, id: u64)
    requires
        loaded_graph(f) is Some,
        header_replaced(f, f2, edge_mark_header(f, id)),
    ensures
        loaded_graph(f2) is Some,
        loaded_graph(f2)->0.edges == loaded_graph(f)->0.edges.remove(id),
        loaded_graph(f2)->0.nodes == loaded_graph(f)->0.nodes,
{
    let h = file_header(f)->0;
    let h2 = edge_mark_header(f, id);
    lemma_file_change_keeps_loadable(f, f2, arbitrary::<Node>(), arbitrary::<Edge>(), id);
    let g0 = GraphView { name: h.name, nodes: Map::empty(), edges: Map::empty(), next_node_id: h.next_node_id, next_edge_id: h.next_edge_id };
    let ns = node_slots(f, h);
    let es = edge_slots(f, h);
    assert(node_slots(f2, h2) == ns && edge_slots(f2, h2) == es);
    let a = load_nodes(g0, ns, h.deleted_nodes)->0;
    lemma_load_edges_other_fields(a, a, es, h.deleted_edges);
    assert(a.edges =~= Map::<u64, EdgeView>::empty()) by {
        lemma_load_edges_other_fields(g0, g0, Seq::<Seq<u8>>::empty(), h.deleted_edges);
        lemma_load_nodes_keeps_edges(g0, ns, h.deleted_nodes);
    }
    lemma_load_edges_mark(a, es, h.deleted_edges, id);
}

proof fn lemma_load_nodes_keeps_edges(g: GraphView, s: Seq<Seq<u8>>, d: Seq<u64>)
    requires
        load_nodes(g, s, d) is Some,
    ensures
        load_nodes(g, s, d)->0.edges == g.edges,
    decreases s.len(),
{
    if s.len() > 0 {
        lemma_load_nodes_keeps_edges(g, s.drop_last(), d);
    }
}


/// A header written at the start of a file reads back unchanged, provided
/// its record fits the header region and the slots it describes fit the file.
pub proof fn lemma_header_reads_back(f: Seq<u8>, h: HeaderView)
    requires
        header_fits(h),
        header_bytes(h).len() <= HEADER_SIZE,
        f.len() >= HEADER_SIZE,
        f.take(HEADER_SIZE as int) == padded(header_bytes(h), HEADER_SIZE as nat),
        layout_ok(h, f.len() as int),
    ensures
        file_header(f) == Some(h),
{
    lemma_header_round_trip(h, zeros((HEADER_SIZE - header_bytes(h).len()) as nat));
}

} // verus!
