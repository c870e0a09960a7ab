//! Writer for the on-disk index image (`RNSPCST2`).

use vstd::prelude::*;
use crate::{PACKED_DIMS, SCALE};

verus! {

/// Little-endian bytes of a 32-bit word.
pub open spec fn le_u32(v: u32) -> Seq<u8> {
    seq![
        (v & 0xff) as u8,
        ((v >> 8u32) & 0xff) as u8,
        ((v >> 16u32) & 0xff) as u8,
        ((v >> 24u32) & 0xff) as u8
    ]
}

pub open spec fn le_i32(v: i32) -> Seq<u8> {
    le_u32(v as u32)
}

pub open spec fn le_i16(v: i16) -> Seq<u8> {
    seq![((v as u16) & 0xff) as u8, (((v as u16) >> 8u16) & 0xff) as u8]
}

/// Little-endian bytes of a run of 16-bit values, in order.
pub open spec fn le_i16s(a: Seq<i16>) -> Seq<u8>
    decreases a.len(),
{
    if a.len() == 0 {
        Seq::empty()
    } else {
        le_i16s(a.drop_last()) + le_i16(a.last())
    }
}

/// `RNSPCST2`
pub open spec fn magic() -> Seq<u8> {
    seq![82u8, 78u8, 83u8, 80u8, 67u8, 83u8, 84u8, 50u8]
}

/// Cut points that split `vector[0]` into eight buckets of partition keys.
pub const PARTITION_CUTS: usize = 7;

/// The header the writer emits: magic, scale, packed dimensions, reference count, zeroed
/// partition, node and block counts to be patched later, and the partition cuts.
pub open spec fn header_bytes(reference_count: i32, cuts: Seq<i16>) -> Seq<u8> {
    magic() + le_i32(SCALE as i32) + le_i32(PACKED_DIMS as i32) + le_i32(reference_count) + le_i32(
        0,
    ) + le_i32(0) + le_i32(0) + le_i16s(cuts)
}

pub open spec fn partition_entry_bytes(
    key: u32,
    root: usize,
    len: usize,
    min: Seq<i16>,
    max: Seq<i16>,
) -> Seq<u8> {
    le_u32(key) + le_i32(root as i32) + le_i32(0) + le_i32(len as i32) + le_i16s(min) + le_i16s(
        max,
    )
}

pub open spec fn node_entry_bytes(
    left: i32,
    right: i32,
    start: usize,
    len: usize,
    min: Seq<i16>,
    max: Seq<i16>,
) -> Seq<u8> {
    le_i32(left) + le_i32(right) + le_i32(start as i32) + le_i32(len as i32) + le_i16s(min)
        + le_i16s(max)
}

/// `buf` with the four bytes at `offset` replaced by `word`.
pub open spec fn patch(buf: Seq<u8>, offset: int, word: Seq<u8>) -> Seq<u8> {
    buf.subrange(0, offset) + word + buf.subrange(offset + 4, buf.len() as int)
}

/// Offsets of the counts that the header leaves to be filled in.
pub const PARTITION_COUNT_OFFSET: usize = 20;
pub const NODE_COUNT_OFFSET: usize = 24;
pub const BLOCK_COUNT_OFFSET: usize = 28;

pub struct IndexWriter {
    buf: Vec<u8>,
}

impl View for IndexWriter {
    type V = Seq<u8>;

    closed spec fn view(&self) -> Seq<u8> {
        self.buf@
    }
}

impl IndexWriter {
    pub fn new() -> (w: Self)
        ensures
            w@ == Seq::<u8>::empty(),
    {
        IndexWriter { buf: Vec::new() }
    }

    pub fn write_header(&mut self, reference_count: i32, cuts: [i16; PARTITION_CUTS]) -> (r: Result<(), String>)
        ensures
            final(self)@ == old(self)@ + header_bytes(reference_count, cuts@),
            r is Ok,
    {
        self.buf.push(82);
        self.buf.push(78);
        self.buf.push(83);
        self.buf.push(80);
        self.buf.push(67);
        self.buf.push(83);
        self.buf.push(84);
        self.buf.push(50);
        let _ = self.write_i32(SCALE as i32);
        let _ = self.write_i32(PACKED_DIMS as i32);
        let _ = self.write_i32(reference_count);
        let _ = self.write_i32(0);
        let _ = self.write_i32(0);
        let _ = self.write_i32(0);
        let ghost fixed = self@;
        let mut i: usize = 0;
        while i < PARTITION_CUTS
            invariant
                i <= PARTITION_CUTS,
                cuts@.len() == PARTITION_CUTS,
                self@ == fixed + le_i16s(cuts@.subrange(0, i as int)),
            decreases PARTITION_CUTS - i,
        {
            let _ = self.write_i16(cuts[i]);
            proof {
                let s = cuts@.subrange(0, i + 1);
                assert(s.drop_last() =~= cuts@.subrange(0, i as int));
                assert(s.last() == cuts@[i as int]);
            }
            i += 1;
        }
        assert(cuts@.subrange(0, PARTITION_CUTS as int) =~= cuts@);
        assert(self@ =~= old(self)@ + header_bytes(reference_count, cuts@));
        Ok(())
    }

    fn patch_i32(&mut self, offset: usize, count: i32)
        requires
            offset + 4 <= old(self)@.len(),
        ensures
            final(self)@ == patch(old(self)@, offset as int, le_i32(count)),
    {
        let u = count as u32;
        let b0 = (u & 0xff) as u8;
        let b1 = ((u >> 8u32) & 0xff) as u8;
        let b2 = ((u >> 16u32) & 0xff) as u8;
        let b3 = ((u >> 24u32) & 0xff) as u8;
        let _n = self.buf.len();
        let (o1, o2, o3) = (offset + 1, offset + 2, offset + 3);
        self.buf[offset] = b0;
        self.buf[o1] = b1;
        self.buf[o2] = b2;
        self.buf[o3] = b3;
        assert(self@ =~= patch(old(self)@, offset as int, le_i32(count)));
    }

    /// Fills in the partition count of a header written earlier.
    pub fn write_partition_count(&mut self, count: i32) -> (r: Result<(), String>)
        requires
            old(self)@.len() >= PARTITION_COUNT_OFFSET + 4,
        ensures
            final(self)@ == patch(old(self)@, PARTITION_COUNT_OFFSET as int, le_i32(count)),
            r is Ok,
    {
        self.patch_i32(PARTITION_COUNT_OFFSET, count);
        Ok(())
    }

    /// Fills in the node count of a header written earlier.
    pub fn write_node_count(&mut self, count: i32) -> (r: Result<(), String>)
        requires
            old(self)@.len() >= NODE_COUNT_OFFSET + 4,
        ensures
            final(self)@ == patch(old(self)@, NODE_COUNT_OFFSET as int, le_i32(count)),
            r is Ok,
    {
        self.patch_i32(NODE_COUNT_OFFSET, count);
        Ok(())
    }

    /// Fills in the block count of a header written earlier.
    pub fn write_block_count(&mut self, count: i32) -> (r: Result<(), String>)
        requires
            old(self)@.len() >= BLOCK_COUNT_OFFSET + 4,
        ensures
            final(self)@ == patch(old(self)@, BLOCK_COUNT_OFFSET as int, le_i32(count)),
            r is Ok,
    {
        self.patch_i32(BLOCK_COUNT_OFFSET, count);
        Ok(())
    }

    pub fn write_partition_entry(
        &mut self,
        key: u32,
        root: usize,
        len: usize,
        min: [i16; PACKED_DIMS],
        max: [i16; PACKED_DIMS],
    ) -> (r: Result<(), String>)
        ensures
            final(self)@ == old(self)@ + partition_entry_bytes(key, root, len, min@, max@),
            r is Ok,
    {
        let _ = self.write_u32(key);
        let _ = self.write_i32(root as i32);
        let _ = self.write_i32(0);
        let _ = self.write_i32(len as i32);
        self.write_i16_run(&min);
        self.write_i16_run(&max);
        assert(self@ =~= old(self)@ + partition_entry_bytes(key, root, len, min@, max@));
        Ok(())
    }

    pub fn write_node_entry(
        &mut self,
        left: i32,
        right: i32,
        start: usize,
        len: usize,
        min: [i16; PACKED_DIMS],
        max: [i16; PACKED_DIMS],
    ) -> (r: Result<(), String>)
        ensures
            final(self)@ == old(self)@ + node_entry_bytes(left, right, start, len, min@, max@),
            r is Ok,
    {
        let _ = self.write_i32(left);
        let _ = self.write_i32(right);
        let _ = self.write_i32(start as i32);
        let _ = self.write_i32(len as i32);
        self.write_i16_run(&min);
        self.write_i16_run(&max);
        assert(self@ =~= old(self)@ + node_entry_bytes(left, right, start, len, min@, max@));
        Ok(())
    }

    fn write_i16_run(&mut self, values: &[i16; PACKED_DIMS])
        ensures
            final(self)@ == old(self)@ + le_i16s(values@),
    {
        let mut i: usize = 0;
        while i < PACKED_DIMS
            invariant
                i <= PACKED_DIMS,
                values@.len() == PACKED_DIMS,
                self@ == old(self)@ + le_i16s(values@.subrange(0, i as int)),
            decreases PACKED_DIMS - i,
        {
            let _ = self.write_i16(values[i]);
            proof {
                let s = values@.subrange(0, i + 1);
                assert(s.drop_last() =~= values@.subrange(0, i as int));
                assert(s.last() == values@[i as int]);
            }
            i += 1;
        }
        assert(values@.subrange(0, PACKED_DIMS as int) =~= values@);
    }

    pub fn write_i16(&mut self, v: i16) -> (r: Result<(), String>)
        ensures
            final(self)@ == old(self)@ + le_i16(v),
            r is Ok,
    {
        let u = v as u16;
        self.buf.push((u & 0xff) as u8);
        self.buf.push(((u >> 8u16) & 0xff) as u8);
        assert(self@ =~= old(self)@ + le_i16(v));
        Ok(())
    }

    pub fn write_u8(&mut self, v: u8) -> (r: Result<(), String>)
        ensures
            final(self)@ == old(self)@.push(v),
            r is Ok,
    {
        self.buf.push(v);
        Ok(())
    }

    pub fn into_bytes(self) -> (bytes: Vec<u8>)
        ensures
            bytes@ == self@,
    {
        self.buf
    }

    fn write_u32(&mut self, v: u32) -> (r: Result<(), String>)
        ensures
            final(self)@ == old(self)@ + le_u32(v),
            r is Ok,
    {
        self.buf.push((v & 0xff) as u8);
        self.buf.push(((v >> 8u32) & 0xff) as u8);
        self.buf.push(((v >> 16u32) & 0xff) as u8);
        self.buf.push(((v >> 24u32) & 0xff) as u8);
        assert(self@ =~= old(self)@ + le_u32(v));
        Ok(())
    }

    fn write_i32(&mut self, v: i32) -> (r: Result<(), String>)
        ensures
            final(self)@ == old(self)@ + le_i32(v),
            r is Ok,
    {
        self.write_u32(v as u32)
    }
}

} // verus!
