//! Executable memory, modelled as the image of a page-aligned region: its
//! contents, and the address at which the region is mapped.
use vstd::prelude::*;

verus! {

/// The granularity in which executable memory is mapped.
pub const PAGE_SIZE: usize = 4096;

/// `size` rounded up to a whole number of pages.
pub open spec fn page_round_up(size: nat) -> nat {
    ((size + (PAGE_SIZE - 1) as nat) / (PAGE_SIZE as nat)) * (PAGE_SIZE as nat)
}

/// `n` zero bytes.
pub open spec fn zeros(n: nat) -> Seq<u8> {
    Seq::new(n, |i: int| 0u8)
}

/// `bytes` with `data` written over it from offset `beg` on.
pub open spec fn spliced(bytes: Seq<u8>, beg: int, data: Seq<u8>) -> Seq<u8> {
    bytes.subrange(0, beg) + data + bytes.subrange(beg + data.len(), bytes.len() as int)
}

/// What is written can be read back where it was written, the rest of the memory
/// is unchanged, and so is its size.
pub proof fn lemma_read_back(bytes: Seq<u8>, beg: int, data: Seq<u8>)
    requires
        0 <= beg,
        beg + data.len() <= bytes.len(),
    ensures
        spliced(bytes, beg, data).len() == bytes.len(),
        spliced(bytes, beg, data).subrange(beg, beg + data.len()) == data,
        forall|i: int|
            0 <= i < bytes.len() && !(beg <= i < beg + data.len()) ==> #[trigger] spliced(
                bytes,
                beg,
                data,
            )[i] == bytes[i],
{
    assert(spliced(bytes, beg, data).subrange(beg, beg + data.len()) =~= data);
}

/// The rounded size is the least multiple of the page size that is at least `size`.
pub proof fn lemma_page_round_up(size: nat)
    ensures
        page_round_up(size) % PAGE_SIZE as nat == 0,
        size <= page_round_up(size) < size + PAGE_SIZE,
{
    let q = (size + 4095) / 4096;
    assert(q * 4096 <= size + 4095 < q * 4096 + 4096) by (nonlinear_arith)
        requires
            q == (size + 4095) / 4096,
    ;
    assert((q * 4096) % 4096 == 0) by (nonlinear_arith);
}

/// A region of executable memory: `mem_size` bytes, a whole number of pages,
/// mapped at address `mem_beg`. A new region is zero-filled, as an anonymous
/// mapping is, and is not placed yet (its address is 0) until `place` records
/// where it was mapped.
#[derive(Debug)]
pub struct ExecutableMemory {
    is_write_protected: bool,
    mem_beg: usize,
    mem_size: usize,
    mem: Vec<u8>,
}

impl ExecutableMemory {
    /// The size of the region in bytes.
    pub closed spec fn size(&self) -> nat {
        self.mem_size as nat
    }

    /// The contents of the region.
    pub closed spec fn bytes(&self) -> Seq<u8> {
        self.mem@
    }

    /// The address at which the region is mapped.
    pub closed spec fn base(&self) -> nat {
        self.mem_beg as nat
    }

    /// Whether the region is write protected.
    pub closed spec fn write_protected(&self) -> bool {
        self.is_write_protected
    }

    /// The region's invariant: its contents have its size, which is a whole number
    /// of pages, and all of it lies below the end of the address space.
    pub open spec fn wf(&self) -> bool {
        &&& self.bytes().len() == self.size()
        &&& self.size() % PAGE_SIZE as nat == 0
        &&& self.base() + self.size() <= usize::MAX
    }

    /// A zero-filled region of `size` bytes rounded up to whole pages.
    pub fn new(size: usize) -> (m: Self)
        requires
            size + (PAGE_SIZE - 1) <= usize::MAX,
        ensures
            m.wf(),
            m.size() == page_round_up(size as nat),
            m.bytes() == zeros(m.size()),
            m.base() == 0,
            !m.write_protected(),
    {
        let mem_size = ((size + (PAGE_SIZE - 1)) / PAGE_SIZE) * PAGE_SIZE;
        proof {
            lemma_page_round_up(size as nat);
        }
        let mut mem: Vec<u8> = Vec::with_capacity(mem_size);
        let mut i: usize = 0;
        while i < mem_size
            invariant
                i <= mem_size,
                mem@ == zeros(i as nat),
            decreases mem_size - i,
        {
            mem.push(0u8);
            i += 1;
            assert(mem@ =~= zeros(i as nat));
        }
        Self { mem_size, mem_beg: 0, is_write_protected: false, mem }
    }

    /// Records that the region is mapped at address `mem_beg`.
    pub fn place(&mut self, mem_beg: usize)
        requires
            old(self).wf(),
            mem_beg + old(self).size() <= usize::MAX,
        ensures
            final(self).wf(),
            final(self).base() == mem_beg,
            final(self).size() == old(self).size(),
            final(self).bytes() == old(self).bytes(),
            final(self).write_protected() == old(self).write_protected(),
    {
        self.mem_beg = mem_beg;
    }

    /// The `size` bytes from offset `beg` on; the range must end before the end of the region.
    pub fn get_slice_at(&self, beg: usize, size: usize) -> (r: &[u8])
        requires
            self.wf(),
            beg + size < self.size(),
        ensures
            r@ == self.bytes().subrange(beg as int, beg + size),
    {
        vstd::slice::slice_subrange(self.mem.as_slice(), beg, beg + size)
    }

    /// Copies `data` into the region from offset `beg` on; the range written must end
    /// before the end of the region.
    pub fn write_slice_at(&mut self, beg: usize, data: &[u8])
        requires
            old(self).wf(),
            beg + data@.len() < old(self).size(),
        ensures
            final(self).wf(),
            final(self).bytes() == spliced(old(self).bytes(), beg as int, data@),
            final(self).size() == old(self).size(),
            final(self).base() == old(self).base(),
            final(self).write_protected() == old(self).write_protected(),
    {
        let n = data.len();
        for i in 0..n
            invariant
                n == data@.len(),
                beg + n < self.mem_size,
                old(self).mem@.len() == old(self).mem_size,
                self.mem@.len() == self.mem_size,
                self.mem_size == old(self).mem_size,
                self.mem_beg == old(self).mem_beg,
                self.is_write_protected == old(self).is_write_protected,
                self.mem@ == old(self).mem@.subrange(0, beg as int) + data@.subrange(0, i as int)
                    + old(self).mem@.subrange(beg + i, old(self).mem_size as int),
        {
            let ghost before = self.mem@;
            self.mem.set(beg + i, data[i]);
            assert(self.mem@ =~= old(self).mem@.subrange(0, beg as int) + data@.subrange(
                0,
                i + 1,
            ) + old(self).mem@.subrange(beg + i + 1, old(self).mem_size as int));
        }
        assert(data@.subrange(0, n as int) =~= data@);
    }

    /// The address of the byte at `offset` in the region.
    pub fn get_ptr(&self, offset: usize) -> (r: usize)
        requires
            self.wf(),
            offset < self.size(),
        ensures
            r == self.base() + offset,
    {
        self.mem_beg + offset
    }

    /// The whole contents of the region.
    pub fn contents(&self) -> (r: &[u8])
        requires
            self.wf(),
        ensures
            r@ == self.bytes(),
    {
        self.mem.as_slice()
    }

    /// The size of the region in bytes.
    pub fn mem_size(&self) -> (r: usize)
        requires
            self.wf(),
        ensures
            r == self.size(),
    {
        self.mem_size
    }
}

} // verus!
