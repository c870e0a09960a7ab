//! Decoding of the index image and the well-formedness the searches rely on.

use vstd::prelude::*;
use crate::{DIMS, PACKED_DIMS, SCALE};
use super::format::{
    PARTITION_CUTS, header_bytes, le_i16, le_i16s, le_i32, le_u32, magic, node_entry_bytes,
    partition_entry_bytes, patch,
};

verus! {

/// Vectors stored side by side in one block.
pub const LANES: usize = 8;

/// Most partitions a query can rank.

/// Bytes before the partition directory: magic and six 32-bit fields.
pub const HEADER_LEN: usize = 46;

/// Bytes of one partition or node directory entry.
pub const ENTRY_LEN: usize = 80;

/// 16-bit values in one block of vectors.
pub const BLOCK_VALUES: usize = 112;

#[derive(Debug, Clone, Copy, PartialEq, Eq, Structural)]
pub enum SearchMode {
    Exact,
    Specialist,
    KeyFirst,
}

impl SearchMode {
    /// The mode a setting names: `exact`, `key-first` (or `key_first`), and the specialist
    /// search for anything else.
    pub fn from_name(name: &[u8]) -> (m: SearchMode)
        ensures
            m == (if name@ == seq![101u8, 120u8, 97u8, 99u8, 116u8] {
                SearchMode::Exact
            } else if name@ == seq![107u8, 101u8, 121u8, 45u8, 102u8, 105u8, 114u8, 115u8, 116u8]
                || name@ == seq![107u8, 101u8, 121u8, 95u8, 102u8, 105u8, 114u8, 115u8, 116u8] {
                SearchMode::KeyFirst
            } else {
                SearchMode::Specialist
            }),
    {
        let n = name.len();
        if n == 5 && name[0] == 101 && name[1] == 120 && name[2] == 97 && name[3] == 99 && name[4]
            == 116 {
            assert(name@ =~= seq![101u8, 120u8, 97u8, 99u8, 116u8]);
            SearchMode::Exact
        } else if n == 9 && name[0] == 107 && name[1] == 101 && name[2] == 121 && (name[3] == 45
            || name[3] == 95) && name[4] == 102 && name[5] == 105 && name[6] == 114 && name[7] == 115
            && name[8] == 116 {
            if name[3] == 45 {
                assert(name@ =~= seq![107u8, 101u8, 121u8, 45u8, 102u8, 105u8, 114u8, 115u8, 116u8]);
            } else {
                assert(name@ =~= seq![107u8, 101u8, 121u8, 95u8, 102u8, 105u8, 114u8, 115u8, 116u8]);
            }
            SearchMode::KeyFirst
        } else {
            proof {
                if name@ == seq![101u8, 120u8, 97u8, 99u8, 116u8] {
                    assert(name@[4] == 116);
                }
                if name@ == seq![107u8, 101u8, 121u8, 45u8, 102u8, 105u8, 114u8, 115u8, 116u8] {
                    assert(name@[3] == 45 && name@[8] == 116);
                }
                if name@ == seq![107u8, 101u8, 121u8, 95u8, 102u8, 105u8, 114u8, 115u8, 116u8] {
                    assert(name@[3] == 95 && name@[8] == 116);
                }
            }
            SearchMode::Specialist
        }
    }
}

/// Why an index image was refused.
#[derive(Debug, Clone, Copy, PartialEq, Eq, Structural)]
pub enum IndexError {
    FileTooShort,
    UnknownMagic,
    UnexpectedEof,
    InvalidScale,
    InvalidPackedDims,
    UnalignedVectors,
    TruncatedVectors,
    TruncatedLabels,
}

#[derive(Clone, Copy)]
pub struct Partition {
    pub key: u32,
    pub root: usize,
    pub min: [i16; PACKED_DIMS],
    pub max: [i16; PACKED_DIMS],
}

#[derive(Clone, Copy)]
pub struct Node {
    pub left: i32,
    pub right: i32,
    pub start: usize,
    pub len: usize,
    pub min: [i16; PACKED_DIMS],
    pub max: [i16; PACKED_DIMS],
}

#[derive(Clone, Copy, Debug, Default, PartialEq, Eq)]
pub struct IndexMetadata {
    pub reference_count: usize,
    pub partition_count: usize,
    pub node_count: usize,
    pub block_count: usize,
}

#[derive(Clone, Copy, Debug, PartialEq, Eq)]
pub struct SearchStats {
    pub partitions_visited: u32,
    pub nodes_visited: u32,
    pub leaves_scanned: u32,
    pub blocks_scanned: u32,
}

impl SearchStats {
    pub fn new() -> (s: Self)
        ensures
            s.partitions_visited == 0,
            s.nodes_visited == 0,
            s.leaves_scanned == 0,
            s.blocks_scanned == 0,
    {
        SearchStats { partitions_visited: 0, nodes_visited: 0, leaves_scanned: 0, blocks_scanned: 0 }
    }
}

/// What an index holds.
pub struct IndexModel {
    pub reference_count: usize,
    pub partitions: Seq<Partition>,
    pub nodes: Seq<Node>,
    pub blocks: nat,
    pub vectors: Seq<i16>,
    pub labels: Seq<u8>,
    pub mode: SearchMode,
    pub cuts: Seq<i16>,
}

pub struct SpecialistIndex {
    pub(crate) reference_count: usize,
    pub(crate) partitions: Vec<Partition>,
    pub(crate) nodes: Vec<Node>,
    pub(crate) block_count: usize,
    pub(crate) vectors: Vec<i16>,
    pub(crate) labels: Vec<u8>,
    pub(crate) search_mode: SearchMode,
    pub(crate) cuts: [i16; PARTITION_CUTS],
}

// ---------------------------------------------------------------------------
// Byte layout

pub open spec fn u32_at(b: Seq<u8>, at: int) -> u32 {
    (b[at] as u32) | ((b[at + 1] as u32) << 8u32) | ((b[at + 2] as u32) << 16u32) | ((b[at + 3] as u32)
        << 24u32)
}

pub open spec fn i32_at(b: Seq<u8>, at: int) -> i32 {
    u32_at(b, at) as i32
}

pub open spec fn i16_at(b: Seq<u8>, at: int) -> i16 {
    ((b[at] as u16) | ((b[at + 1] as u16) << 8u16)) as i16
}

pub open spec fn i16s_at(b: Seq<u8>, at: int) -> Seq<i16> {
    Seq::new(PACKED_DIMS as nat, |d: int| i16_at(b, at + 2 * d))
}

/// The six header fields after the magic: scale, packed dimensions, reference count,
/// partition count, node count, block count.
pub open spec fn header_field(b: Seq<u8>, k: int) -> i32 {
    i32_at(b, 8 + 4 * k)
}

/// The partition cuts stored after the six header fields.
pub open spec fn cuts_at(b: Seq<u8>) -> Seq<i16> {
    Seq::new(PARTITION_CUTS as nat, |k: int| i16_at(b, 32 + 2 * k))
}

pub open spec fn partition_offset(p: int) -> int {
    HEADER_LEN + ENTRY_LEN * p
}

pub open spec fn node_offset(b: Seq<u8>, i: int) -> int {
    HEADER_LEN + ENTRY_LEN * (header_field(b, 3) + i)
}

pub open spec fn vectors_offset(b: Seq<u8>) -> int {
    HEADER_LEN + ENTRY_LEN * (header_field(b, 3) + header_field(b, 4))
}

pub open spec fn labels_offset(b: Seq<u8>) -> int {
    vectors_offset(b) + 224 * header_field(b, 5)
}

/// The first reason to refuse an image, in the order the loader checks them.
pub open spec fn layout_error(b: Seq<u8>) -> Option<IndexError> {
    if b.len() < 8 {
        Some(IndexError::FileTooShort)
    } else if b.subrange(0, 8) != magic() {
        Some(IndexError::UnknownMagic)
    } else if b.len() < HEADER_LEN {
        Some(IndexError::UnexpectedEof)
    } else if header_field(b, 0) != SCALE as i32 {
        Some(IndexError::InvalidScale)
    } else if header_field(b, 1) != PACKED_DIMS as i32 {
        Some(IndexError::InvalidPackedDims)
    } else if header_field(b, 3) < 0 || partition_offset(header_field(b, 3) as int) > b.len() {
        Some(IndexError::UnexpectedEof)
    } else if header_field(b, 4) < 0 || vectors_offset(b) > b.len() {
        Some(IndexError::UnexpectedEof)
    } else if vectors_offset(b) % 2 != 0 {
        Some(IndexError::UnalignedVectors)
    } else if header_field(b, 5) < 0 || labels_offset(b) > b.len() {
        Some(IndexError::TruncatedVectors)
    } else if labels_offset(b) + LANES * header_field(b, 5) > b.len() {
        Some(IndexError::TruncatedLabels)
    } else {
        None
    }
}

pub open spec fn decodes_partition(b: Seq<u8>, p: int, part: Partition) -> bool {
    let off = partition_offset(p);
    &&& part.key == u32_at(b, off)
    &&& part.root == i32_at(b, off + 4) as usize
    &&& part.min@ == i16s_at(b, off + 16)
    &&& part.max@ == i16s_at(b, off + 48)
}

pub open spec fn decodes_node(b: Seq<u8>, i: int, node: Node) -> bool {
    let off = node_offset(b, i);
    &&& node.left == i32_at(b, off)
    &&& node.right == i32_at(b, off + 4)
    &&& node.start == i32_at(b, off + 8) as usize
    &&& node.len == i32_at(b, off + 12) as usize
    &&& node.min@ == i16s_at(b, off + 16)
    &&& node.max@ == i16s_at(b, off + 48)
}

/// Partition `p` as the reader keeps it over a directory of `n` nodes: a root that names
/// no node becomes the empty leaf kept after the last node.
pub open spec fn reads_partition(b: Seq<u8>, p: int, part: Partition, n: int) -> bool {
    let off = partition_offset(p);
    let raw = i32_at(b, off + 4) as usize;
    &&& part.key == u32_at(b, off)
    &&& part.root == if raw < n { raw } else { n as usize }
    &&& part.min@ == i16s_at(b, off + 16)
    &&& part.max@ == i16s_at(b, off + 48)
}

/// Node `i` as the reader keeps it over `n` nodes and `blocks` blocks: a child link that
/// does not point to a later node of the directory becomes a link to the empty leaf kept
/// after the last node, and a leaf whose blocks run past the last block holds nothing.
pub open spec fn reads_node(b: Seq<u8>, i: int, node: Node, n: int, blocks: int) -> bool {
    let off = node_offset(b, i);
    let left = i32_at(b, off);
    let right = i32_at(b, off + 4);
    let start = i32_at(b, off + 8) as usize;
    let len = i32_at(b, off + 12) as usize;
    &&& node.min@ == i16s_at(b, off + 16)
    &&& node.max@ == i16s_at(b, off + 48)
    &&& if left < 0 || right < 0 {
        &&& node.left == left
        &&& node.right == right
        &&& if start + blocks_of(len as int) <= blocks {
            node.start == start && node.len == len
        } else {
            node.start == 0 && node.len == 0
        }
    } else {
        &&& node.left == (if i < left < n { left } else { n as i32 })
        &&& node.right == (if i < right < n { right } else { n as i32 })
        &&& node.start == start
        &&& node.len == len
    }
}

/// The empty leaf the reader keeps after the last node.
pub open spec fn empty_leaf(node: Node) -> bool {
    &&& node.left == -1
    &&& node.right == -1
    &&& node.start == 0
    &&& node.len == 0
    &&& node.min@ == Seq::new(PACKED_DIMS as nat, |d: int| 0i16)
    &&& node.max@ == Seq::new(PACKED_DIMS as nat, |d: int| 0i16)
}

/// `m` is what the image `b` (with no layout error) describes.
pub open spec fn decodes(b: Seq<u8>, m: IndexModel) -> bool {
    let n = header_field(b, 4) as int;
    &&& m.reference_count == header_field(b, 2) as usize
    &&& m.cuts == cuts_at(b)
    &&& m.partitions.len() == header_field(b, 3)
    &&& forall|p: int| 0 <= p < m.partitions.len() ==> reads_partition(b, p, #[trigger] m.partitions[p], n)
    &&& m.nodes.len() == n + 1
    &&& forall|i: int| 0 <= i < n ==> reads_node(b, i, #[trigger] m.nodes[i], n, m.blocks as int)
    &&& empty_leaf(m.nodes[n])
    &&& m.blocks == header_field(b, 5)
    &&& m.vectors.len() == BLOCK_VALUES * m.blocks
    &&& forall|j: int| 0 <= j < m.vectors.len() ==> #[trigger] m.vectors[j] == i16_at(b, vectors_offset(b) + 2 * j)
    &&& m.labels == b.subrange(labels_offset(b), labels_offset(b) + LANES * m.blocks)
}

// ---------------------------------------------------------------------------
// What the writer writes, the reader reads back

proof fn lemma_u32_at_le(b: Seq<u8>, at: int, v: u32)
    requires
        0 <= at,
        at + 4 <= b.len(),
        forall|j: int| 0 <= j < 4 ==> #[trigger] b[at + j] == le_u32(v)[j],
    ensures
        u32_at(b, at) == v,
{
    let b0 = b[at];
    let b1 = b[at + 1];
    let b2 = b[at + 2];
    let b3 = b[at + 3];
    assert(b[at + 0] == le_u32(v)[0]);
    assert(((b0 as u32) | ((b1 as u32) << 8u32) | ((b2 as u32) << 16u32) | ((b3 as u32) << 24u32))
        == v) by (bit_vector)
        requires
            b0 == (v & 0xff) as u8,
            b1 == ((v >> 8u32) & 0xff) as u8,
            b2 == ((v >> 16u32) & 0xff) as u8,
            b3 == ((v >> 24u32) & 0xff) as u8,
    ;
}

proof fn lemma_i16_at_le(b: Seq<u8>, at: int, v: i16)
    requires
        0 <= at,
        at + 2 <= b.len(),
        b[at] == le_i16(v)[0],
        b[at + 1] == le_i16(v)[1],
    ensures
        i16_at(b, at) == v,
{
    let b0 = b[at];
    let b1 = b[at + 1];
    let u = v as u16;
    assert((((b0 as u16) | ((b1 as u16) << 8u16)) as i16) == v) by (bit_vector)
        requires
            b0 == (v as u16 & 0xff) as u8,
            b1 == (((v as u16) >> 8u16) & 0xff) as u8,
    ;
}

proof fn lemma_le_i16s_layout(s: Seq<i16>)
    ensures
        le_i16s(s).len() == 2 * s.len(),
        forall|d: int|
            0 <= d < s.len() ==> le_i16s(s)[2 * d] == le_i16(#[trigger] s[d])[0] && le_i16s(s)[2 * d
                + 1] == le_i16(s[d])[1],
    decreases s.len(),
{
    if s.len() > 0 {
        lemma_le_i16s_layout(s.drop_last());
        assert forall|d: int| 0 <= d < s.len() implies le_i16s(s)[2 * d] == le_i16(#[trigger] s[d])[0]
            && le_i16s(s)[2 * d + 1] == le_i16(s[d])[1] by {
            let init = s.drop_last();
            assert(le_i16s(s) == le_i16s(init) + le_i16(s.last()));
            if d < s.len() - 1 {
                assert(init[d] == s[d]);
                assert(le_i16s(init)[2 * d + 1] == le_i16(init[d])[1]);
                assert(le_i16s(s)[2 * d] == le_i16s(init)[2 * d]);
                assert(le_i16s(s)[2 * d + 1] == le_i16s(init)[2 * d + 1]);
            }
        }
    }
}

/// Sixteen values written little-endian at `at` read back as themselves.
proof fn lemma_i16s_at_le(b: Seq<u8>, at: int, a: Seq<i16>)
    requires
        a.len() == PACKED_DIMS,
        0 <= at,
        at + 2 * PACKED_DIMS <= b.len(),
        forall|j: int| 0 <= j < 2 * PACKED_DIMS ==> #[trigger] b[at + j] == le_i16s(a)[j],
    ensures
        i16s_at(b, at) == a,
{
    lemma_le_i16s_layout(a);
    assert forall|d: int| 0 <= d < PACKED_DIMS implies #[trigger] i16s_at(b, at)[d] == a[d] by {
        assert(le_i16s(a)[2 * d] == le_i16(a[d])[0]);
        assert(b[at + 2 * d] == le_i16s(a)[2 * d]);
        assert(b[at + (2 * d + 1)] == le_i16s(a)[2 * d + 1]);
        lemma_i16_at_le(b, at + 2 * d, a[d]);
    }
    assert(i16s_at(b, at) =~= a);
}

/// An image as the writer emits it reads back: its header (with the three counts filled
/// in), `pc` partition entries, `nc` node entries, `bc` blocks of vectors and their labels.
/// The reader finds the magic, the scale, the packed dimensions, the counts and the cuts
/// that were written, and no layout error.
pub proof fn lemma_writer_image_reads_back(
    rc: i32,
    cuts: Seq<i16>,
    pc: i32,
    nc: i32,
    bc: i32,
    parts: Seq<u8>,
    nodes: Seq<u8>,
    vectors: Seq<u8>,
    labels: Seq<u8>,
)
    requires
        cuts.len() == PARTITION_CUTS,
        0 <= pc,
        0 <= nc,
        0 <= bc,
        parts.len() == ENTRY_LEN * pc,
        nodes.len() == ENTRY_LEN * nc,
        vectors.len() == 2 * BLOCK_VALUES * bc,
        labels.len() == LANES * bc,
    ensures
        ({
            let b = patch(
                patch(
                    patch(header_bytes(rc, cuts) + parts + nodes + vectors + labels, 20, le_i32(pc)),
                    24,
                    le_i32(nc),
                ),
                28,
                le_i32(bc),
            );
            &&& b.subrange(0, 8) == magic()
            &&& header_field(b, 0) == SCALE as i32
            &&& header_field(b, 1) == PACKED_DIMS as i32
            &&& header_field(b, 2) == rc
            &&& header_field(b, 3) == pc
            &&& header_field(b, 4) == nc
            &&& header_field(b, 5) == bc
            &&& cuts_at(b) == cuts
            &&& layout_error(b) is None
        }),
{
    let h = header_bytes(rc, cuts);
    let b0 = h + parts + nodes + vectors + labels;
    let b1 = patch(b0, 20, le_i32(pc));
    let b2 = patch(b1, 24, le_i32(nc));
    let b = patch(b2, 28, le_i32(bc));
    lemma_le_i16s_layout(cuts);
    assert(h.len() == 46);
    assert(b.len() == b0.len());
    assert(b.len() == 46 + 80 * pc + 80 * nc + 224 * bc + 8 * bc);
    assert forall|k: int| 0 <= k < 20 implies #[trigger] b[k] == h[k] by {}
    assert forall|k: int| 32 <= k < 46 implies #[trigger] b[k] == h[k] by {}
    assert forall|j: int| 0 <= j < 4 implies #[trigger] b[20 + j] == le_i32(pc)[j] by {}
    assert forall|j: int| 0 <= j < 4 implies #[trigger] b[24 + j] == le_i32(nc)[j] by {}
    assert forall|j: int| 0 <= j < 4 implies #[trigger] b[28 + j] == le_i32(bc)[j] by {}
    assert(b.subrange(0, 8) =~= magic());
    assert forall|j: int| 0 <= j < 4 implies #[trigger] b[8 + j] == le_u32(SCALE as i32 as u32)[j] by {
        assert(b[8 + j] == h[8 + j]);
    }
    lemma_u32_at_le(b, 8, SCALE as i32 as u32);
    assert forall|j: int| 0 <= j < 4 implies #[trigger] b[12 + j] == le_u32(PACKED_DIMS as i32 as u32)[j] by {
        assert(b[12 + j] == h[12 + j]);
    }
    lemma_u32_at_le(b, 12, PACKED_DIMS as i32 as u32);
    assert forall|j: int| 0 <= j < 4 implies #[trigger] b[16 + j] == le_u32(rc as u32)[j] by {
        assert(b[16 + j] == h[16 + j]);
    }
    lemma_u32_at_le(b, 16, rc as u32);
    lemma_u32_at_le(b, 20, pc as u32);
    lemma_u32_at_le(b, 24, nc as u32);
    lemma_u32_at_le(b, 28, bc as u32);
    assert((rc as u32) as i32 == rc) by (bit_vector);
    assert((pc as u32) as i32 == pc) by (bit_vector);
    assert((nc as u32) as i32 == nc) by (bit_vector);
    assert((bc as u32) as i32 == bc) by (bit_vector);
    assert forall|d: int| 0 <= d < PARTITION_CUTS implies #[trigger] cuts_at(b)[d] == cuts[d] by {
        assert(le_i16s(cuts)[2 * d] == le_i16(cuts[d])[0]);
        assert(b[32 + 2 * d] == h[32 + 2 * d]);
        assert(h[32 + 2 * d] == le_i16s(cuts)[2 * d]);
        assert(b[32 + 2 * d + 1] == h[32 + 2 * d + 1]);
        assert(h[32 + 2 * d + 1] == le_i16s(cuts)[2 * d + 1]);
        lemma_i16_at_le(b, 32 + 2 * d, cuts[d]);
    }
    assert(cuts_at(b) =~= cuts);
    assert((46 + 80 * (pc + nc)) % 2 == 0) by (nonlinear_arith)
        requires
            0 <= pc,
            0 <= nc,
    ;
}

/// A partition entry the writer appends at the place of entry `p` reads back as the
/// entry written: its key, its root and its box.
pub proof fn lemma_partition_entry_reads_back(
    pre: Seq<u8>,
    post: Seq<u8>,
    p: int,
    key: u32,
    root: usize,
    len: usize,
    min: [i16; PACKED_DIMS],
    max: [i16; PACKED_DIMS],
)
    requires
        pre.len() == partition_offset(p),
        root <= i32::MAX,
    ensures
        decodes_partition(
            pre + partition_entry_bytes(key, root, len, min@, max@) + post,
            p,
            Partition { key, root, min, max },
        ),
{
    let e = partition_entry_bytes(key, root, len, min@, max@);
    let b = pre + e + post;
    let off = pre.len() as int;
    lemma_le_i16s_layout(min@);
    lemma_le_i16s_layout(max@);
    assert(e.len() == 80);
    assert forall|j: int| 0 <= j < e.len() implies #[trigger] b[off + j] == e[j] by {}
    assert forall|j: int| 0 <= j < 4 implies #[trigger] b[off + j] == le_u32(key)[j] by {
        assert(b[off + j] == e[j]);
    }
    lemma_u32_at_le(b, off, key);
    assert forall|j: int| 0 <= j < 4 implies #[trigger] b[(off + 4) + j] == le_u32(
        root as i32 as u32,
    )[j] by {
        assert(b[off + (4 + j)] == e[4 + j]);
    }
    lemma_u32_at_le(b, off + 4, root as i32 as u32);
    assert forall|j: int| 0 <= j < 2 * PACKED_DIMS implies #[trigger] b[(off + 16) + j]
        == le_i16s(min@)[j] by {
        assert(b[off + (16 + j)] == e[16 + j]);
    }
    lemma_i16s_at_le(b, off + 16, min@);
    assert forall|j: int| 0 <= j < 2 * PACKED_DIMS implies #[trigger] b[(off + 48) + j]
        == le_i16s(max@)[j] by {
        assert(b[off + (48 + j)] == e[48 + j]);
    }
    lemma_i16s_at_le(b, off + 48, max@);
}

/// A node entry the writer appends at the place of node `i` reads back as the node
/// written: its children, its leaf range and its box.
pub proof fn lemma_node_entry_reads_back(
    pre: Seq<u8>,
    post: Seq<u8>,
    i: int,
    left: i32,
    right: i32,
    start: usize,
    len: usize,
    min: [i16; PACKED_DIMS],
    max: [i16; PACKED_DIMS],
)
    requires
        pre.len() == node_offset(pre + node_entry_bytes(left, right, start, len, min@, max@) + post, i),
        start <= i32::MAX,
        len <= i32::MAX,
    ensures
        decodes_node(
            pre + node_entry_bytes(left, right, start, len, min@, max@) + post,
            i,
            Node { left, right, start, len, min, max },
        ),
{
    let e = node_entry_bytes(left, right, start, len, min@, max@);
    let b = pre + e + post;
    let off = pre.len() as int;
    lemma_le_i16s_layout(min@);
    lemma_le_i16s_layout(max@);
    assert(e.len() == 80);
    assert forall|j: int| 0 <= j < e.len() implies #[trigger] b[off + j] == e[j] by {}
    assert forall|j: int| 0 <= j < 4 implies #[trigger] b[off + j] == le_u32(left as u32)[j] by {
        assert(b[off + j] == e[j]);
    }
    lemma_u32_at_le(b, off, left as u32);
    assert((left as u32) as i32 == left) by (bit_vector);
    assert((right as u32) as i32 == right) by (bit_vector);
    assert forall|j: int| 0 <= j < 4 implies #[trigger] b[(off + 4) + j] == le_u32(right as u32)[j] by {
        assert(b[off + (4 + j)] == e[4 + j]);
    }
    lemma_u32_at_le(b, off + 4, right as u32);
    assert forall|j: int| 0 <= j < 4 implies #[trigger] b[(off + 8) + j] == le_u32(
        start as i32 as u32,
    )[j] by {
        assert(b[off + (8 + j)] == e[8 + j]);
    }
    lemma_u32_at_le(b, off + 8, start as i32 as u32);
    assert forall|j: int| 0 <= j < 4 implies #[trigger] b[(off + 12) + j] == le_u32(
        len as i32 as u32,
    )[j] by {
        assert(b[off + (12 + j)] == e[12 + j]);
    }
    lemma_u32_at_le(b, off + 12, len as i32 as u32);
    assert forall|j: int| 0 <= j < 2 * PACKED_DIMS implies #[trigger] b[(off + 16) + j]
        == le_i16s(min@)[j] by {
        assert(b[off + (16 + j)] == e[16 + j]);
    }
    lemma_i16s_at_le(b, off + 16, min@);
    assert forall|j: int| 0 <= j < 2 * PACKED_DIMS implies #[trigger] b[(off + 48) + j]
        == le_i16s(max@)[j] by {
        assert(b[off + (48 + j)] == e[48 + j]);
    }
    lemma_i16s_at_le(b, off + 48, max@);
}

/// What the reader keeps of a partition entry the writer wrote is that entry: its key,
/// both corners of its box, and its root whenever the root names one of the `n` nodes
/// (else the empty leaf kept after them).
pub proof fn lemma_partition_entry_is_kept(
    pre: Seq<u8>,
    post: Seq<u8>,
    p: int,
    key: u32,
    root: usize,
    len: usize,
    min: [i16; PACKED_DIMS],
    max: [i16; PACKED_DIMS],
    n: int,
    part: Partition,
)
    requires
        pre.len() == partition_offset(p),
        root <= i32::MAX,
        0 <= n,
        reads_partition(pre + partition_entry_bytes(key, root, len, min@, max@) + post, p, part, n),
    ensures
        part.key == key,
        part.min@ == min@,
        part.max@ == max@,
        part.root == if root < n { root } else { n as usize },
{
    lemma_partition_entry_reads_back(pre, post, p, key, root, len, min, max);
}

/// What the reader keeps of a node entry the writer wrote is that entry: both corners of
/// its box; for a leaf its links, and its range of references whenever that range lies
/// within the `blocks` blocks (else an empty range); for an inner node its range, and each
/// child link that names a later one of the `n` nodes (else the empty leaf kept after
/// them).
pub proof fn lemma_node_entry_is_kept(
    pre: Seq<u8>,
    post: Seq<u8>,
    i: int,
    left: i32,
    right: i32,
    start: usize,
    len: usize,
    min: [i16; PACKED_DIMS],
    max: [i16; PACKED_DIMS],
    n: int,
    blocks: int,
    node: Node,
)
    requires
        pre.len() == node_offset(pre + node_entry_bytes(left, right, start, len, min@, max@) + post, i),
        start <= i32::MAX,
        len <= i32::MAX,
        reads_node(pre + node_entry_bytes(left, right, start, len, min@, max@) + post, i, node, n, blocks),
    ensures
        node.min@ == min@,
        node.max@ == max@,
        left < 0 || right < 0 ==> node.left == left && node.right == right && if start + blocks_of(
            len as int,
        ) <= blocks {
            node.start == start && node.len == len
        } else {
            node.start == 0 && node.len == 0
        },
        left >= 0 && right >= 0 ==> node.start == start && node.len == len && node.left == (if i
            < left < n {
            left
        } else {
            n as i32
        }) && node.right == (if i < right < n {
            right
        } else {
            n as i32
        }),
{
    lemma_node_entry_reads_back(pre, post, i, left, right, start, len, min, max);
}

// ---------------------------------------------------------------------------
// Well-formedness

pub open spec fn is_leaf(n: Node) -> bool {
    n.left < 0 || n.right < 0
}

pub open spec fn blocks_of(len: int) -> int {
    (len + LANES - 1) / LANES as int
}

pub open spec fn directory_ok(partitions: Seq<Partition>, nodes: Seq<Node>, blocks: int) -> bool {
    &&& partitions.len() <= i32::MAX
    &&& 1 <= nodes.len() <= i32::MAX + 1
    &&& forall|p: int| 0 <= p < partitions.len() ==> #[trigger] partitions[p].root < nodes.len()
    &&& forall|i: int| 0 <= i < nodes.len() ==> #[trigger] node_fits(nodes, i, blocks)
}

pub open spec fn well_formed(m: IndexModel) -> bool {
    &&& m.vectors.len() == BLOCK_VALUES * m.blocks
    &&& m.labels.len() == LANES * m.blocks
    &&& directory_ok(m.partitions, m.nodes, m.blocks as int)
}

impl View for SpecialistIndex {
    type V = IndexModel;

    closed spec fn view(&self) -> IndexModel {
        IndexModel {
            reference_count: self.reference_count,
            partitions: self.partitions@,
            nodes: self.nodes@,
            blocks: self.block_count as nat,
            vectors: self.vectors@,
            labels: self.labels@,
            mode: self.search_mode,
            cuts: self.cuts@,
        }
    }
}

impl SpecialistIndex {
    #[verifier::type_invariant]
    pub closed spec fn inv(self) -> bool {
        &&& well_formed(self@)
        &&& self.block_count * BLOCK_VALUES <= usize::MAX
    }

    /// What the view of an index is made of, for the searches.
    pub(crate) proof fn lemma_view(&self)
        requires
            self.inv(),
        ensures
            self@.reference_count == self.reference_count,
            self@.partitions == self.partitions@,
            self@.nodes == self.nodes@,
            self@.blocks == self.block_count,
            self@.vectors == self.vectors@,
            self@.labels == self.labels@,
            self@.mode == self.search_mode,
            self@.cuts == self.cuts@,
            well_formed(self@),
            self.block_count * BLOCK_VALUES <= usize::MAX,
    {
    }

    /// Opens an index image: checks the header, decodes the directories and copies the
    /// vector and label blocks. Any image with a sound layout is accepted; links that
    /// point nowhere useful (see `reads_partition` and `reads_node`) are kept as links to
    /// an empty leaf, so that every later search terminates and stays in bounds.
    pub fn open(bytes: &[u8], search_mode: SearchMode) -> (r: Result<Self, IndexError>)
        ensures
            r is Ok <==> layout_error(bytes@) is None,
            match r {
                Ok(index) => decodes(bytes@, index@) && well_formed(index@) && index@.mode == search_mode,
                Err(e) => layout_error(bytes@) == Some(e),
            },
    {
        let n = bytes.len();
        if n < 8 {
            return Err(IndexError::FileTooShort);
        }
        let is_magic = bytes[0] == 82 && bytes[1] == 78 && bytes[2] == 83 && bytes[3] == 80
            && bytes[4] == 67 && bytes[5] == 83 && bytes[6] == 84 && bytes[7] == 50;
        assert(is_magic <==> bytes@.subrange(0, 8) =~= magic());
        if !is_magic {
            return Err(IndexError::UnknownMagic);
        }
        let mut cursor: usize = 8;
        let scale = match read_i32(bytes, &mut cursor) {
            Ok(v) => v,
            Err(e) => return Err(e),
        };
        let packed_dims = match read_i32(bytes, &mut cursor) {
            Ok(v) => v,
            Err(e) => return Err(e),
        };
        let reference_count = match read_i32(bytes, &mut cursor) {
            Ok(v) => v,
            Err(e) => return Err(e),
        };
        let partition_count = match read_i32(bytes, &mut cursor) {
            Ok(v) => v,
            Err(e) => return Err(e),
        };
        let node_count = match read_i32(bytes, &mut cursor) {
            Ok(v) => v,
            Err(e) => return Err(e),
        };
        let total_blocks = match read_i32(bytes, &mut cursor) {
            Ok(v) => v,
            Err(e) => return Err(e),
        };
        let mut cuts = [0i16; PARTITION_CUTS];
        let mut c: usize = 0;
        while c < PARTITION_CUTS
            invariant
                n == bytes@.len(),
                n >= 32,
                bytes@.subrange(0, 8) == magic(),
                c <= PARTITION_CUTS,
                cursor == 32 + 2 * c,
                cursor <= n,
                forall|k: int| 0 <= k < c ==> #[trigger] cuts@[k] == i16_at(bytes@, 32 + 2 * k),
            decreases PARTITION_CUTS - c,
        {
            let v = match read_i16(bytes, &mut cursor) {
                Ok(v) => v,
                Err(e) => return Err(e),
            };
            cuts[c] = v;
            c += 1;
        }
        assert(cuts@ =~= cuts_at(bytes@));
        assert(cursor == HEADER_LEN);
        if scale != SCALE as i32 {
            return Err(IndexError::InvalidScale);
        }
        if packed_dims != PACKED_DIMS as i32 {
            return Err(IndexError::InvalidPackedDims);
        }
        if partition_count < 0 {
            return Err(IndexError::UnexpectedEof);
        }
        let pc = partition_count as usize;
        let mut partitions: Vec<Partition> = Vec::new();
        let mut p: usize = 0;
        while p < pc
            invariant
                n == bytes@.len(),
                bytes@.len() >= HEADER_LEN,
                bytes@.subrange(0, 8) == magic(),
                header_field(bytes@, 0) == SCALE as i32,
                header_field(bytes@, 1) == PACKED_DIMS as i32,
                pc == header_field(bytes@, 3),
                0 <= header_field(bytes@, 3),
                p <= pc,
                cursor == partition_offset(p as int),
                cursor <= n,
                partitions@.len() == p,
                forall|k: int| 0 <= k < p ==> decodes_partition(bytes@, k, #[trigger] partitions@[k]),
            decreases pc - p,
        {
            let key = match read_i32(bytes, &mut cursor) {
                Ok(v) => v as u32,
                Err(e) => return Err(e),
            };
            let root = match read_i32(bytes, &mut cursor) {
                Ok(v) => v as usize,
                Err(e) => return Err(e),
            };
            let _start = match read_i32(bytes, &mut cursor) {
                Ok(v) => v,
                Err(e) => return Err(e),
            };
            let _len = match read_i32(bytes, &mut cursor) {
                Ok(v) => v,
                Err(e) => return Err(e),
            };
            let min = match read_i16_array(bytes, &mut cursor) {
                Ok(v) => v,
                Err(e) => return Err(e),
            };
            let max = match read_i16_array(bytes, &mut cursor) {
                Ok(v) => v,
                Err(e) => return Err(e),
            };
            proof {
                let x = u32_at(bytes@, partition_offset(p as int));
                assert((x as i32) as u32 == x) by (bit_vector);
            }
            partitions.push(Partition { key, root, min, max });
            p += 1;
        }
        if node_count < 0 {
            return Err(IndexError::UnexpectedEof);
        }
        let nc = node_count as usize;
        let mut nodes: Vec<Node> = Vec::new();
        let mut i: usize = 0;
        while i < nc
            invariant
                n == bytes@.len(),
                bytes@.len() >= HEADER_LEN,
                bytes@.subrange(0, 8) == magic(),
                header_field(bytes@, 0) == SCALE as i32,
                header_field(bytes@, 1) == PACKED_DIMS as i32,
                pc == header_field(bytes@, 3),
                nc == header_field(bytes@, 4),
                0 <= header_field(bytes@, 3),
                0 <= header_field(bytes@, 4),
                i <= nc,
                cursor == node_offset(bytes@, i as int),
                cursor <= n,
                nodes@.len() == i,
                forall|k: int| 0 <= k < i ==> decodes_node(bytes@, k, #[trigger] nodes@[k]),
            decreases nc - i,
        {
            let left = match read_i32(bytes, &mut cursor) {
                Ok(v) => v,
                Err(e) => return Err(e),
            };
            let right = match read_i32(bytes, &mut cursor) {
                Ok(v) => v,
                Err(e) => return Err(e),
            };
            let start = match read_i32(bytes, &mut cursor) {
                Ok(v) => v as usize,
                Err(e) => return Err(e),
            };
            let len = match read_i32(bytes, &mut cursor) {
                Ok(v) => v as usize,
                Err(e) => return Err(e),
            };
            let min = match read_i16_array(bytes, &mut cursor) {
                Ok(v) => v,
                Err(e) => return Err(e),
            };
            let max = match read_i16_array(bytes, &mut cursor) {
                Ok(v) => v,
                Err(e) => return Err(e),
            };
            nodes.push(Node { left, right, start, len, min, max });
            i += 1;
        }
        assert(cursor == vectors_offset(bytes@));
        if cursor % 2 != 0 {
            return Err(IndexError::UnalignedVectors);
        }
        if total_blocks < 0 {
            return Err(IndexError::TruncatedVectors);
        }
        let tb = total_blocks as usize;
        let vector_values = match tb.checked_mul(BLOCK_VALUES) {
            Some(v) => v,
            None => return Err(IndexError::TruncatedVectors),
        };
        if vector_values > (n - cursor) / 2 {
            return Err(IndexError::TruncatedVectors);
        }
        let labels_start = cursor + 2 * vector_values;
        assert(total_blocks == header_field(bytes@, 5));
        assert(vector_values == BLOCK_VALUES * header_field(bytes@, 5));
        assert(cursor == vectors_offset(bytes@));
        assert(labels_start == labels_offset(bytes@));
        if LANES * tb > n - labels_start {
            return Err(IndexError::TruncatedLabels);
        }
        assert(layout_error(bytes@) is None);
        let mut vectors: Vec<i16> = Vec::new();
        let mut j: usize = 0;
        while j < vector_values
            invariant
                n == bytes@.len(),
                cursor == vectors_offset(bytes@) + 2 * j,
                labels_start == vectors_offset(bytes@) + 2 * vector_values,
                labels_start <= n,
                j <= vector_values,
                vectors@.len() == j,
                forall|k: int| 0 <= k < j ==> #[trigger] vectors@[k] == i16_at(bytes@, vectors_offset(bytes@) + 2 * k),
            decreases vector_values - j,
        {
            let v = match read_i16(bytes, &mut cursor) {
                Ok(v) => v,
                Err(e) => return Err(e),
            };
            vectors.push(v);
            j += 1;
        }
        let labels_len = LANES * tb;
        let mut labels: Vec<u8> = Vec::new();
        let mut k: usize = 0;
        while k < labels_len
            invariant
                n == bytes@.len(),
                labels_start + labels_len <= n,
                k <= labels_len,
                labels@ == bytes@.subrange(labels_start as int, labels_start + k),
            decreases labels_len - k,
        {
            labels.push(bytes[labels_start + k]);
            proof {
                assert(bytes@.subrange(labels_start as int, labels_start + k + 1) =~= bytes@.subrange(
                    labels_start as int,
                    labels_start + k,
                ).push(bytes@[labels_start + k]));
            }
            k += 1;
        }
        let ghost model = IndexModel {
            reference_count: reference_count as usize,
            partitions: partitions@,
            nodes: nodes@,
            blocks: tb as nat,
            vectors: vectors@,
            labels: labels@,
            mode: search_mode,
            cuts: cuts@,
        };
        let ghost nn = nc as int;
        let mut kept_parts: Vec<Partition> = Vec::new();
        let mut q: usize = 0;
        while q < pc
            invariant
                partitions@.len() == pc,
                nc == header_field(bytes@, 4),
                0 <= header_field(bytes@, 4),
                nn == nc,
                forall|k: int| 0 <= k < pc ==> decodes_partition(bytes@, k, #[trigger] partitions@[k]),
                q <= pc,
                kept_parts@.len() == q,
                forall|k: int| 0 <= k < q ==> reads_partition(bytes@, k, #[trigger] kept_parts@[k], nn)
                    && kept_parts@[k].root <= nc,
            decreases pc - q,
        {
            let part = partitions[q];
            assert(decodes_partition(bytes@, q as int, part));
            let root = if part.root < nc {
                part.root
            } else {
                nc
            };
            kept_parts.push(Partition { key: part.key, root, min: part.min, max: part.max });
            q += 1;
        }
        let mut kept_nodes: Vec<Node> = Vec::new();
        let mut t: usize = 0;
        while t < nc
            invariant
                nodes@.len() == nc,
                nc == header_field(bytes@, 4),
                0 <= header_field(bytes@, 4),
                nn == nc,
                forall|k: int| 0 <= k < nc ==> decodes_node(bytes@, k, #[trigger] nodes@[k]),
                t <= nc,
                kept_nodes@.len() == t,
                forall|k: int| 0 <= k < t ==> reads_node(bytes@, k, #[trigger] kept_nodes@[k], nn, tb as int),
                forall|k: int|
                    0 <= k < t ==> if is_leaf(#[trigger] kept_nodes@[k]) {
                        kept_nodes@[k].start + blocks_of(kept_nodes@[k].len as int) <= tb
                    } else {
                        k < kept_nodes@[k].left <= nc && k < kept_nodes@[k].right <= nc
                    },
            decreases nc - t,
        {
            let node = nodes[t];
            assert(decodes_node(bytes@, t as int, node));
            let kept = if node.left < 0 || node.right < 0 {
                let nb = node.len / LANES + if node.len % LANES != 0 {
                    1
                } else {
                    0
                };
                assert(nb == blocks_of(node.len as int));
                if node.start <= tb && nb <= tb - node.start {
                    node
                } else {
                    Node { left: node.left, right: node.right, start: 0, len: 0, min: node.min, max: node.max }
                }
            } else {
                let l = if (t as i32) < node.left && (node.left as usize) < nc {
                    node.left
                } else {
                    nc as i32
                };
                let r = if (t as i32) < node.right && (node.right as usize) < nc {
                    node.right
                } else {
                    nc as i32
                };
                Node { left: l, right: r, start: node.start, len: node.len, min: node.min, max: node.max }
            };
            kept_nodes.push(kept);
            t += 1;
        }
        let empty = Node { left: -1, right: -1, start: 0, len: 0, min: [0i16; PACKED_DIMS], max: [0i16; PACKED_DIMS] };
        assert(empty.min@ =~= Seq::new(PACKED_DIMS as nat, |d: int| 0i16));
        assert(empty.max@ =~= Seq::new(PACKED_DIMS as nat, |d: int| 0i16));
        let ghost before = kept_nodes@;
        kept_nodes.push(empty);
        let ghost model = IndexModel {
            reference_count: reference_count as usize,
            partitions: kept_parts@,
            nodes: kept_nodes@,
            blocks: tb as nat,
            vectors: vectors@,
            labels: labels@,
            mode: search_mode,
            cuts: cuts@,
        };
        assert forall|k: int| 0 <= k < nc implies #[trigger] kept_nodes@[k] == before[k] by {}
        assert(decodes(bytes@, model));
        assert forall|k: int| 0 <= k < kept_nodes@.len() implies #[trigger] node_fits(kept_nodes@, k, tb as int) by {
            if k < nc {
                assert(kept_nodes@[k] == before[k]);
            }
        }
        assert(well_formed(model));
        let partitions = kept_parts;
        let nodes = kept_nodes;
        Ok(
            SpecialistIndex {
                reference_count: reference_count as usize,
                partitions,
                nodes,
                block_count: tb,
                vectors,
                labels,
                search_mode,
                cuts,
            },
        )
    }
}

/// Directory check for node `i` over `blocks` blocks (see `node_ok`).
pub open spec fn node_fits(nodes: Seq<Node>, i: int, blocks: int) -> bool {
    let n = nodes[i];
    if is_leaf(n) {
        n.start + blocks_of(n.len as int) <= blocks
    } else {
        i < n.left < nodes.len() && i < n.right < nodes.len()
    }
}

/// Reads a little-endian `i32` at `*cursor` and moves past it.
pub fn read_i32(bytes: &[u8], cursor: &mut usize) -> (r: Result<i32, IndexError>)
    ensures
        *old(cursor) + 4 <= bytes@.len() ==> r == Ok::<i32, IndexError>(i32_at(bytes@, *old(cursor) as int))
            && *final(cursor) == *old(cursor) + 4,
        *old(cursor) + 4 > bytes@.len() ==> r == Err::<i32, IndexError>(IndexError::UnexpectedEof)
            && *final(cursor) == *old(cursor),
{
    let c = *cursor;
    if c > bytes.len() || bytes.len() - c < 4 {
        return Err(IndexError::UnexpectedEof);
    }
    let v = (bytes[c] as u32) | ((bytes[c + 1] as u32) << 8u32) | ((bytes[c + 2] as u32) << 16u32)
        | ((bytes[c + 3] as u32) << 24u32);
    *cursor = c + 4;
    Ok(v as i32)
}

/// Reads a little-endian `i16` at `*cursor` and moves past it.
pub fn read_i16(bytes: &[u8], cursor: &mut usize) -> (r: Result<i16, IndexError>)
    ensures
        *old(cursor) + 2 <= bytes@.len() ==> r == Ok::<i16, IndexError>(i16_at(bytes@, *old(cursor) as int))
            && *final(cursor) == *old(cursor) + 2,
        *old(cursor) + 2 > bytes@.len() ==> r == Err::<i16, IndexError>(IndexError::UnexpectedEof)
            && *final(cursor) == *old(cursor),
{
    let c = *cursor;
    if c > bytes.len() || bytes.len() - c < 2 {
        return Err(IndexError::UnexpectedEof);
    }
    let v = (bytes[c] as u16) | ((bytes[c + 1] as u16) << 8u16);
    *cursor = c + 2;
    Ok(v as i16)
}

/// Reads sixteen little-endian `i16` values at `*cursor` and moves past them.
pub fn read_i16_array(bytes: &[u8], cursor: &mut usize) -> (r: Result<[i16; PACKED_DIMS], IndexError>)
    ensures
        *old(cursor) + 32 <= bytes@.len() ==> (r matches Ok(a) && a@ == i16s_at(bytes@, *old(cursor) as int))
            && *final(cursor) == *old(cursor) + 32,
        *old(cursor) + 32 > bytes@.len() ==> r == Err::<[i16; PACKED_DIMS], IndexError>(IndexError::UnexpectedEof),
{
    let c0 = *cursor;
    if c0 > bytes.len() || bytes.len() - c0 < 32 {
        return Err(IndexError::UnexpectedEof);
    }
    let mut arr = [0i16; PACKED_DIMS];
    let mut d: usize = 0;
    while d < PACKED_DIMS
        invariant
            d <= PACKED_DIMS,
            c0 + 32 <= bytes@.len(),
            *cursor == c0 + 2 * d,
            arr@.len() == PACKED_DIMS,
            forall|k: int| 0 <= k < d ==> #[trigger] arr@[k] == i16_at(bytes@, c0 + 2 * k),
        decreases PACKED_DIMS - d,
    {
        let v = match read_i16(bytes, cursor) {
            Ok(v) => v,
            Err(e) => return Err(e),
        };
        arr[d] = v;
        d += 1;
    }
    assert(arr@ =~= i16s_at(bytes@, c0 as int));
    Ok(arr)
}

} // verus!
