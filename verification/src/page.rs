//! A fixed-capacity in-memory page buffer with a high-water mark.

use vstd::prelude::*;

use crate::PAGE_SIZE;

verus! {

/// One page: a buffer of exactly [`PAGE_SIZE`] bytes plus the high-water
/// mark `end_offset`, the greatest `offset + len` of any write performed on
/// this page since it was materialized.  Only `[0, end_offset)` is flushed.
pub struct Page {
    pub bytes: Vec<u8>,
    pub end_offset: usize,
}

impl Page {
    /// A page buffer is well formed when it holds exactly one page of bytes
    /// and the high-water mark lies within the buffer.
    pub open spec fn wf(&self) -> bool {
        &&& self.bytes@.len() == PAGE_SIZE
        &&& self.end_offset <= PAGE_SIZE
    }

    /// Wraps one page worth of bytes; nothing counts as written yet.
    pub fn new(data: [u8; 4096]) -> (p: Page)
        ensures
            p.wf(),
            p.bytes@ == data@,
            p.end_offset == 0,
    {
        Page { bytes: vstd::slice::slice_to_vec(data.as_slice()), end_offset: 0 }
    }

    /// Copies `data` into the buffer at `offset` and raises the high-water
    /// mark; rejects exactly the writes that would run past the page end,
    /// leaving the page untouched.
    pub fn write(&mut self, offset: usize, data: &[u8]) -> (r: Result<(), &'static str>)
        requires
            old(self).wf(),
        ensures
            final(self).wf(),
            r is Ok <==> offset + data@.len() <= PAGE_SIZE,
            r matches Err(m) ==> {
                &&& m@ == "not enough space to write"@
                &&& *final(self) == *old(self)
            },
            r is Ok ==> {
                &&& final(self).bytes@ == old(self).bytes@.subrange(0, offset as int) + data@
                    + old(self).bytes@.subrange(offset + data@.len(), PAGE_SIZE as int)
                &&& final(self).end_offset == if offset + data@.len() > old(self).end_offset {
                    offset + data@.len()
                } else {
                    old(self).end_offset as int
                }
            },
    {
        if data.len() > PAGE_SIZE || offset > PAGE_SIZE - data.len() {
            Err("not enough space to write")
        } else {
            let mut i: usize = 0;
            while i < data.len()
                invariant
                    i <= data@.len(),
                    offset + data@.len() <= PAGE_SIZE,
                    self.bytes@.len() == PAGE_SIZE,
                    self.end_offset == old(self).end_offset,
                    forall|j: int| 0 <= j < offset ==> self.bytes@[j] == old(self).bytes@[j],
                    forall|j: int|
                        offset <= j < offset + i ==> self.bytes@[j] == data@[j - offset],
                    forall|j: int|
                        offset + data@.len() <= j < PAGE_SIZE ==> self.bytes@[j] == old(
                            self,
                        ).bytes@[j],
                decreases data@.len() - i,
            {
                self.bytes[offset + i] = data[i];
                i = i + 1;
            }
            if offset + data.len() > self.end_offset {
                self.end_offset = offset + data.len();
            }
            proof {
                assert(self.bytes@ =~= old(self).bytes@.subrange(0, offset as int) + data@ + old(
                    self,
                ).bytes@.subrange(offset + data@.len(), PAGE_SIZE as int));
            }
            Ok(())
        }
    }

    /// Reads `len` bytes starting at `offset`; the caller keeps offsets
    /// within the page, as the table's record arithmetic always does.
    pub fn read(&self, offset: usize, len: usize) -> (r: Vec<u8>)
        requires
            self.wf(),
            offset + len <= PAGE_SIZE,
        ensures
            r@ == self.bytes@.subrange(offset as int, offset + len),
    {
        let mut out: Vec<u8> = Vec::new();
        let mut i: usize = 0;
        while i < len
            invariant
                i <= len,
                offset + len <= PAGE_SIZE,
                self.bytes@.len() == PAGE_SIZE,
                out@ == self.bytes@.subrange(offset as int, offset + i),
            decreases len - i,
        {
            out.push(self.bytes[offset + i]);
            proof {
                assert(out@ =~= self.bytes@.subrange(offset as int, offset + i + 1));
            }
            i = i + 1;
        }
        out
    }
}

} // verus!
