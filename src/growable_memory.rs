//! A lazily growing memory region with a hard size cap.

use vstd::prelude::*;
use vstd::arithmetic::power2::{pow2, lemma_pow2_unfold, lemma_pow2_strictly_increases, lemma2_to64};
use crate::memory_buffer::{MemoryBuffer, be_value, be_bytes, valid_width, lemma_be_bytes_len, lemma_be_round_trip, byte_range};
use crate::types::CeriumError;

verus! {

/// The physical size of a freshly created region.
pub const INITIAL_MEMORY: u32 = 0x100;

/// The size that no region may exceed.
pub const MAX_MEMORY: u32 = 0x10_0000;

/// The smallest power of two, starting the search at `p`, that is at least `n`.
pub open spec fn pow2_at_least(n: nat, p: nat) -> nat
    decreases (if p >= n || p == 0 { 0 } else { n - p }),
{
    if p >= n || p == 0 {
        p
    } else {
        pow2_at_least(n, 2 * p)
    }
}

/// The smallest power of two that is at least `n`.
pub open spec fn next_power_of_two(n: nat) -> nat {
    pow2_at_least(n, 1)
}

/// `s` with the bytes at `offset` replaced by `bytes`.
pub open spec fn splice(s: Seq<u8>, offset: int, bytes: Seq<u8>) -> Seq<u8> {
    s.subrange(0, offset) + bytes + s.subrange(offset + bytes.len(), s.len() as int)
}

fn next_power_of_two_u32(n: u32) -> (r: u32)
    requires
        n <= MAX_MEMORY,
    ensures
        r as nat == next_power_of_two(n as nat),
        r <= MAX_MEMORY,
        n <= r,
{
    let mut p: u32 = 1;
    let ghost mut k: nat = 0;
    proof {
        lemma2_to64();
    }
    while p < n
        invariant
            n <= MAX_MEMORY,
            p >= 1,
            p as nat == pow2(k),
            k <= 20,
            pow2(20) == MAX_MEMORY,
            pow2_at_least(n as nat, p as nat) == pow2_at_least(n as nat, 1),
        decreases MAX_MEMORY - p,
    {
        proof {
            if k >= 20 {
                if k > 20 {
                    lemma_pow2_strictly_increases(20, k);
                }
                assert(false);
            }
            lemma_pow2_unfold(k + 1);
            if k + 1 < 20 {
                lemma_pow2_strictly_increases(k + 1, 20);
            }
        }
        p = p * 2;
        proof {
            k = k + 1;
        }
    }
    p
}

/// A byte region that grows on demand, by powers of two, up to `MAX_MEMORY`.
pub struct GrowableMemoryBlock {
    memory: MemoryBuffer,
}

impl GrowableMemoryBlock {
    /// The bytes that are physically present.
    pub closed spec fn physical(&self) -> Seq<u8> {
        self.memory@
    }

    /// What the region holds at each of its `MAX_MEMORY` offsets: the bytes
    /// present, and zero beyond them.
    pub open spec fn contents(&self) -> Seq<u8> {
        Seq::new(
            MAX_MEMORY as nat,
            |i: int| if i < self.physical().len() { self.physical()[i] } else { 0u8 },
        )
    }

    pub open spec fn wf(&self) -> bool {
        INITIAL_MEMORY <= self.physical().len() <= MAX_MEMORY
    }

    pub fn new() -> (r: GrowableMemoryBlock)
        ensures
            r.wf(),
            r.physical().len() == INITIAL_MEMORY,
            r.contents() == Seq::new(MAX_MEMORY as nat, |i: int| 0u8),
    {
        let mut memory = MemoryBuffer::new();
        memory.resize(INITIAL_MEMORY as usize);
        let r = GrowableMemoryBlock { memory };
        assert(r.contents() =~= Seq::new(MAX_MEMORY as nat, |i: int| 0u8));
        r
    }

    pub fn size(&self) -> (r: usize)
        ensures
            r == self.physical().len(),
    {
        self.memory.size()
    }

    /// Makes room for `size` bytes: fails beyond `MAX_MEMORY`, otherwise grows
    /// to the next power of two when the region is smaller. Never shrinks.
    pub fn resize_to_fit(&mut self, size: u32) -> (r: Result<(), CeriumError>)
        requires
            old(self).wf(),
        ensures
            final(self).wf(),
            final(self).contents() == old(self).contents(),
            final(self).physical().len() >= old(self).physical().len(),
            size > MAX_MEMORY ==> r == Err::<(), CeriumError>(CeriumError::MemoryLimit)
                && final(self).physical() == old(self).physical(),
            size <= MAX_MEMORY ==> r is Ok && final(self).physical().len() == if size
                > old(self).physical().len() {
                next_power_of_two(size as nat)
            } else {
                old(self).physical().len()
            },
    {
        if size > MAX_MEMORY {
            Err(CeriumError::MemoryLimit)
        } else {
            if size as usize > self.memory.size() {
                let ghost old_self = *self;
                let new_size = next_power_of_two_u32(size);
                proof {
                    lemma_pow2_at_least_ge(size as nat, 1);
                }
                self.memory.resize(new_size as usize);
                assert(self.contents() =~= old_self.contents());
            }
            Ok(())
        }
    }

    /// Makes sure that `width` bytes at `offset` are present, growing the region
    /// if needed, and gives the index at which they start.
    pub fn at(&mut self, offset: u32, width: u32) -> (r: Result<usize, CeriumError>)
        requires
            old(self).wf(),
            valid_width(width as nat),
            offset < 0x8000_0000,
        ensures
            final(self).wf(),
            final(self).physical().len() >= old(self).physical().len(),
            final(self).contents() == old(self).contents(),
            offset + width > MAX_MEMORY ==> r == Err::<usize, CeriumError>(CeriumError::MemoryLimit),
            offset + width <= MAX_MEMORY ==> r == Ok::<usize, CeriumError>(offset as usize)
                && offset + width <= final(self).physical().len(),
    {
        match self.resize_to_fit(offset + width) {
            Ok(()) => {
                proof {
                    let n = (offset + width) as nat;
                    if n > old(self).physical().len() {
                        lemma_pow2_at_least_ge(n, 1);
                    }
                }
                Ok(offset as usize)
            },
            Err(e) => Err(e),
        }
    }

    /// Reads `width` bytes at `offset` as a big-endian number.
    pub fn read(&mut self, offset: u32, width: u32) -> (r: Result<u32, CeriumError>)
        requires
            old(self).wf(),
            valid_width(width as nat),
            offset < 0x8000_0000,
        ensures
            final(self).wf(),
            final(self).physical().len() >= old(self).physical().len(),
            r is Ok ==> offset + width <= final(self).physical().len(),
            final(self).contents() == old(self).contents(),
            offset + width > MAX_MEMORY ==> r == Err::<u32, CeriumError>(CeriumError::MemoryLimit),
            offset + width <= MAX_MEMORY ==> r == Ok::<u32, CeriumError>(
                be_value(old(self).contents().subrange(offset as int, offset + width)) as u32,
            ),
    {
        let index = self.at(offset, width)?;
        let v = self.memory.read(index, width as usize);
        assert(self.memory@.subrange(offset as int, offset + width) =~= self.contents().subrange(
            offset as int,
            offset + width,
        ));
        Ok(v)
    }

    /// Writes the `width` low-order bytes of `value` at `offset`, most significant first.
    pub fn write(&mut self, offset: u32, width: u32, value: u32) -> (r: Result<(), CeriumError>)
        requires
            old(self).wf(),
            valid_width(width as nat),
            offset < 0x8000_0000,
        ensures
            final(self).wf(),
            final(self).physical().len() >= old(self).physical().len(),
            r is Ok ==> offset + width <= final(self).physical().len(),
            offset + width > MAX_MEMORY ==> r == Err::<(), CeriumError>(CeriumError::MemoryLimit)
                && final(self).contents() == old(self).contents(),
            offset + width <= MAX_MEMORY ==> r is Ok && final(self).contents() == splice(
                old(self).contents(),
                offset as int,
                be_bytes(value as nat, width as nat),
            ),
    {
        let index = self.at(offset, width)?;
        let ghost mid = self.contents();
        self.memory.write(index, width as usize, value);
        proof {
            lemma_be_bytes_len(value as nat, width as nat);
        }
        assert(self.contents() =~= splice(mid, offset as int, be_bytes(value as nat, width as nat)));
        Ok(())
    }

    /// The `len` bytes at `offset`.
    pub fn read_bytes(&self, offset: u32, len: u32) -> (r: Vec<u8>)
        requires
            self.wf(),
            offset + len <= self.physical().len(),
        ensures
            r@ == self.contents().subrange(offset as int, offset + len),
    {
        let mut r: Vec<u8> = Vec::new();
        let mut k: u32 = 0;
        while k < len
            invariant
                self.wf(),
                k <= len,
                offset + len <= self.physical().len(),
                r@ == self.contents().subrange(offset as int, offset + k),
            decreases len - k,
        {
            r.push(self.memory.byte((offset + k) as usize));
            k = k + 1;
            assert(r@ =~= self.contents().subrange(offset as int, offset + k));
        }
        r
    }

    /// Overwrites the bytes at `offset` with `bytes`.
    pub fn write_bytes(&mut self, offset: u32, bytes: &Vec<u8>)
        requires
            old(self).wf(),
            offset + bytes@.len() <= old(self).physical().len(),
        ensures
            final(self).wf(),
            final(self).physical().len() == old(self).physical().len(),
            final(self).contents() == splice(old(self).contents(), offset as int, bytes@),
    {
        let ghost start = self.contents();
        let mut k: usize = 0;
        while k < bytes.len()
            invariant
                self.wf(),
                k <= bytes@.len(),
                offset + bytes@.len() <= self.physical().len(),
                self.physical().len() == old(self).physical().len(),
                self.contents() == splice(start, offset as int, bytes@.take(k as int)),
                start.len() == MAX_MEMORY,
            decreases bytes.len() - k,
        {
            let ghost before = self.contents();
            self.memory.set_byte(offset as usize + k, bytes[k]);
            assert(self.contents() =~= before.update(offset + k, bytes@[k as int]));
            proof {
                let a = splice(start, offset as int, bytes@.take(k + 1));
                let b = splice(start, offset as int, bytes@.take(k as int)).update(offset + k, bytes@[k as int]);
                assert(a.len() == b.len());
                assert forall|j: int| 0 <= j < a.len() implies a[j] == b[j] by {
                    if j < offset {
                    } else if j < offset + k {
                        assert(bytes@.take(k + 1)[j - offset] == bytes@.take(k as int)[j - offset]);
                    } else if j == offset + k {
                        assert(bytes@.take(k + 1)[j - offset] == bytes@[k as int]);
                    } else {
                    }
                }
                assert(a =~= b);
            }
            k = k + 1;
        }
        assert(bytes@.take(k as int) =~= bytes@);
    }
}

pub proof fn lemma_pow2_at_least_ge(n: nat, p: nat)
    requires
        p > 0,
    ensures
        pow2_at_least(n, p) >= n,
    decreases (if p >= n { 0 } else { n - p }),
{
    if p < n {
        lemma_pow2_at_least_ge(n, 2 * p);
    }
}

/// Writing a value of `width` bytes at an offset of a region, as `write`
/// does, and reading the same bytes back, as `read` does, gives the value.
pub proof fn lemma_write_then_read(contents: Seq<u8>, offset: int, width: nat, v: nat)
    requires
        valid_width(width),
        0 <= offset,
        offset + width <= contents.len(),
        v < byte_range(width),
    ensures
        be_value(splice(contents, offset, be_bytes(v, width)).subrange(offset, offset + width)) == v,
{
    lemma_be_bytes_len(v, width);
    assert(splice(contents, offset, be_bytes(v, width)).subrange(offset, offset + width) =~= be_bytes(v, width));
    lemma_be_round_trip(v, width);
    crate::memory_buffer::lemma_byte_range_pos(width);
    vstd::arithmetic::div_mod::lemma_small_mod(v, byte_range(width));
}

} // verus!
