//! The low-level NOR-flash abstraction: page-aligned erase, word-aligned
//! write, unaligned read, over a reserved byte-addressed storage region.
//!
//! The driver owns the region's observable contents and enforces the
//! hardware's physical constraints at the interface: erase works on whole
//! pages and resets every bit to 1 (the erased pattern), a write may only
//! clear bits (the new byte is the bitwise AND of the old byte and the data
//! byte, which equals the data byte whenever the destination was erased), and
//! a final partial word is padded with 1-bits, so trailing bytes of the last
//! word keep their erased state. Alignment and bounds violations are rejected
//! before anything is touched. The register protocol of a particular flash
//! controller — programming its config words, busy-waiting on its ready
//! signal, issuing volatile word writes — is hardware-specific machine access
//! and lives with the board support outside this crate; upper layers address
//! flash purely by logical offset and length, as they do here.

use vstd::prelude::*;

verus! {

/// Size of an erase unit (a flash page), in bytes.
pub const PAGE_SIZE: usize = 4096;

/// Writes must start at a multiple of this word size, in bytes.
pub const WRITE_ALIGNMENT: u32 = 4;

/// Why a flash operation was rejected.
#[derive(Debug, Clone, Copy, PartialEq, Eq, Structural)]
pub enum FlashError {
    /// The operation would touch addresses outside the storage region.
    OutOfBounds,
    /// An offset or bound does not meet the operation's alignment rule.
    Unaligned,
    /// A failure that is neither an alignment nor a bounds violation.
    Other,
}

/// `f` with every byte of `[from, to)` reset to the erased pattern.
pub open spec fn spec_erased(f: Seq<u8>, from: int, to: int) -> Seq<u8> {
    Seq::new(f.len(), |i: int| if from <= i < to { 0xFFu8 } else { f[i] })
}

/// `f` after `data` is written at `off`: within the written range each byte
/// can only lose 1-bits (NOR semantics); outside it nothing changes.
pub open spec fn spec_written(f: Seq<u8>, off: int, data: Seq<u8>) -> Seq<u8> {
    Seq::new(f.len(), |i: int| if off <= i < off + data.len() { f[i] & data[i - off] } else { f[i] })
}

/// A NOR-flash storage region of a fixed whole number of pages.
pub struct FlashStorage {
    mem: Vec<u8>,
}

impl View for FlashStorage {
    type V = Seq<u8>;

    closed spec fn view(&self) -> Seq<u8> {
        self.mem@
    }
}

impl FlashStorage {
    /// The region is a whole number of pages and is addressable by `u32`.
    pub open spec fn wf(&self) -> bool {
        self@.len() as int % (PAGE_SIZE as int) == 0 && self@.len() <= u32::MAX
    }

    /// A fresh region of `pages` erase pages, fully erased.
    pub fn new(pages: usize) -> (r: Self)
        requires
            pages * PAGE_SIZE <= u32::MAX,
        ensures
            r.wf(),
            r@.len() == pages * PAGE_SIZE,
            forall|i: int| 0 <= i < r@.len() ==> r@[i] == 0xFFu8,
    {
        let mem = vec![0xFFu8; pages * PAGE_SIZE];
        proof {
            assert((pages * PAGE_SIZE) as int % (PAGE_SIZE as int) == 0) by (nonlinear_arith);
        }
        FlashStorage { mem }
    }

    /// The fixed logical size of the reserved storage region, in bytes.
    pub fn capacity(&self) -> (r: usize)
        ensures
            r == self@.len(),
    {
        self.mem.len()
    }

    /// Reset one page to the erased (all-ones) pattern.
    fn erase_page(&mut self, page_addr: u32)
        requires
            old(self).wf(),
            page_addr % (PAGE_SIZE as u32) == 0,
            page_addr + PAGE_SIZE <= old(self)@.len(),
        ensures
            final(self).wf(),
            final(self)@ == spec_erased(old(self)@, page_addr as int, page_addr + PAGE_SIZE),
    {
        let base = page_addr as usize;
        let mut i: usize = 0;
        while i < PAGE_SIZE
            invariant
                i <= PAGE_SIZE,
                base + PAGE_SIZE <= self@.len(),
                self@.len() <= usize::MAX,
                self@.len() == old(self)@.len(),
                self@ == spec_erased(old(self)@, base as int, base + i),
            decreases PAGE_SIZE - i,
        {
            self.mem.set(base + i, 0xFF);
            proof {
                assert(self@ =~= spec_erased(old(self)@, base as int, base + i + 1));
            }
            i = i + 1;
        }
    }

    /// Erase the pages spanning `[from, to)`. Both bounds must be multiples
    /// of the page size and lie inside the region; violations are rejected
    /// before any page is touched.
    pub fn erase(&mut self, from: u32, to: u32) -> (r: Result<(), FlashError>)
        requires
            old(self).wf(),
        ensures
            final(self).wf(),
            final(self)@.len() == old(self)@.len(),
            r is Ok <==> from % (PAGE_SIZE as u32) == 0 && to % (PAGE_SIZE as u32) == 0
                && from <= to && to <= old(self)@.len(),
            r is Ok ==> final(self)@ == spec_erased(old(self)@, from as int, to as int),
            r is Err ==> final(self)@ == old(self)@,
            r == Err::<(), FlashError>(FlashError::Unaligned) <==> (from % (PAGE_SIZE as u32) != 0
                || to % (PAGE_SIZE as u32) != 0),
            r == Err::<(), FlashError>(FlashError::OutOfBounds) <==> (from % (PAGE_SIZE as u32) == 0
                && to % (PAGE_SIZE as u32) == 0 && !(from <= to && to <= old(self)@.len())),
    {
        if from % (PAGE_SIZE as u32) != 0 || to % (PAGE_SIZE as u32) != 0 {
            return Err(FlashError::Unaligned);
        }
        if from > to || to as usize > self.mem.len() {
            return Err(FlashError::OutOfBounds);
        }
        let mut page = from;
        while page < to
            invariant
                self.wf(),
                from <= page <= to,
                to as usize <= self@.len(),
                self@.len() == old(self)@.len(),
                page % (PAGE_SIZE as u32) == 0,
                to % (PAGE_SIZE as u32) == 0,
                self@ == spec_erased(old(self)@, from as int, page as int),
            decreases to - page,
        {
            proof {
                // a whole page still fits between two aligned bounds
                assert(page + PAGE_SIZE <= to) by (nonlinear_arith)
                    requires
                        page < to,
                        page % (PAGE_SIZE as u32) == 0,
                        to % (PAGE_SIZE as u32) == 0;
            }
            self.erase_page(page);
            proof {
                assert(self@ =~= spec_erased(old(self)@, from as int, page + PAGE_SIZE));
            }
            proof {
                assert((page as int + PAGE_SIZE as int) % (PAGE_SIZE as int) == 0) by (nonlinear_arith)
                    requires
                        page as int % (PAGE_SIZE as int) == 0;
            }
            page = page + PAGE_SIZE as u32;
        }
        Ok(())
    }

    /// Write `data` at `offset`, which must be word-aligned. Each written
    /// byte is ANDed onto the previous contents (writing to an erased byte
    /// stores the byte as given); the padding of a final partial word is
    /// all-ones and so leaves the remaining bytes of that word unchanged.
    pub fn write(&mut self, offset: u32, data: &[u8]) -> (r: Result<(), FlashError>)
        requires
            old(self).wf(),
        ensures
            final(self).wf(),
            final(self)@.len() == old(self)@.len(),
            r is Ok <==> offset % WRITE_ALIGNMENT == 0 && offset + data@.len() <= old(self)@.len(),
            r is Ok ==> final(self)@ == spec_written(old(self)@, offset as int, data@),
            r is Err ==> final(self)@ == old(self)@,
            r == Err::<(), FlashError>(FlashError::Unaligned) <==> offset % WRITE_ALIGNMENT != 0,
            r == Err::<(), FlashError>(FlashError::OutOfBounds) <==> (offset % WRITE_ALIGNMENT == 0
                && offset + data@.len() > old(self)@.len()),
    {
        if offset % WRITE_ALIGNMENT != 0 {
            return Err(FlashError::Unaligned);
        }
        let n = data.len();
        if n > self.mem.len() || offset as usize > self.mem.len() - n {
            return Err(FlashError::OutOfBounds);
        }
        let base = offset as usize;
        let mut i: usize = 0;
        while i < n
            invariant
                i <= n,
                n == data@.len(),
                base + n <= self@.len(),
                self@.len() <= usize::MAX,
                self@.len() == old(self)@.len(),
                self@ == spec_written(old(self)@, base as int, data@.subrange(0, i as int)),
            decreases n - i,
        {
            let b = self.mem[base + i] & data[i];
            proof {
                // the byte at base + i has not been touched yet
                assert(spec_written(old(self)@, base as int, data@.subrange(0, i as int))[base + i]
                    == old(self)@[base + i]);
            }
            self.mem.set(base + i, b);
            proof {
                assert(self@ =~= spec_written(old(self)@, base as int, data@.subrange(0, i + 1)));
            }
            i = i + 1;
        }
        proof {
            assert(data@.subrange(0, n as int) =~= data@);
        }
        Ok(())
    }

    /// Copy `len` bytes starting at `offset` into a fresh buffer. Reads have
    /// no alignment constraint.
    pub fn read(&self, offset: u32, len: usize) -> (r: Result<Vec<u8>, FlashError>)
        ensures
            r is Ok <==> offset + len <= self@.len(),
            r matches Ok(buf) ==> buf@ == self@.subrange(offset as int, offset + len),
            r is Err ==> r == Err::<Vec<u8>, FlashError>(FlashError::OutOfBounds),
    {
        if len > self.mem.len() || offset as usize > self.mem.len() - len {
            return Err(FlashError::OutOfBounds);
        }
        let base = offset as usize;
        let mut buf: Vec<u8> = Vec::new();
        let mut i: usize = 0;
        while i < len
            invariant
                i <= len,
                base + len <= self@.len(),
                self@.len() <= usize::MAX,
                buf@ == self@.subrange(base as int, base + i),
            decreases len - i,
        {
            buf.push(self.mem[base + i]);
            proof {
                assert(buf@ =~= self@.subrange(base as int, base + i + 1));
            }
            i = i + 1;
        }
        Ok(buf)
    }
}

} // verus!
