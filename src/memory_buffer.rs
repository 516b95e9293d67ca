//! A resizable byte buffer with big-endian scalar access.

use vstd::prelude::*;

verus! {

/// The number that the bytes of `s` spell in big-endian order.
pub open spec fn be_value(s: Seq<u8>) -> nat
    decreases s.len(),
{
    if s.len() == 0 {
        0
    } else {
        be_value(s.drop_last()) * 256 + s.last() as nat
    }
}

/// The `width` low-order bytes of `v`, most significant first.
pub open spec fn be_bytes(v: nat, width: nat) -> Seq<u8>
    decreases width,
{
    if width == 0 {
        Seq::empty()
    } else {
        be_bytes(v / 256, (width - 1) as nat).push((v % 256) as u8)
    }
}

/// The largest number plus one that `width` bytes hold.
pub open spec fn byte_range(width: nat) -> nat
    decreases width,
{
    if width == 0 {
        1
    } else {
        256 * byte_range((width - 1) as nat)
    }
}

/// The widths of the machine's scalar types.
pub open spec fn valid_width(width: nat) -> bool {
    width == 1 || width == 2 || width == 4
}

pub proof fn lemma_be_bytes_len(v: nat, width: nat)
    ensures
        be_bytes(v, width).len() == width,
    decreases width,
{
    if width > 0 {
        lemma_be_bytes_len(v / 256, (width - 1) as nat);
    }
}

/// Writing a value in big-endian order and reading it back gives the value,
/// reduced to what the bytes can hold.
pub proof fn lemma_be_round_trip(v: nat, width: nat)
    ensures
        be_value(be_bytes(v, width)) == v % byte_range(width),
    decreases width,
{
    if width > 0 {
        let w1 = (width - 1) as nat;
        lemma_be_round_trip(v / 256, w1);
        assert(be_bytes(v, width).drop_last() =~= be_bytes(v / 256, w1));
        let r = byte_range(w1);
        assert(r > 0) by {
            lemma_byte_range_pos(w1);
        }
        // v % (256 * r) == (v / 256 % r) * 256 + v % 256
        vstd::arithmetic::div_mod::lemma_breakdown(v as int, 256, r as int);
    }
}

pub proof fn lemma_byte_range_pos(width: nat)
    ensures
        byte_range(width) > 0,
    decreases width,
{
    if width > 0 {
        lemma_byte_range_pos((width - 1) as nat);
    }
}

pub proof fn lemma_byte_ranges()
    ensures
        byte_range(1) == 0x100,
        byte_range(2) == 0x1_0000,
        byte_range(4) == 0x1_0000_0000,
{
    reveal_with_fuel(byte_range, 5);
}

/// A value read in big-endian order is below the range of its width.
pub proof fn lemma_be_value_bound(s: Seq<u8>)
    ensures
        be_value(s) < byte_range(s.len()),
    decreases s.len(),
{
    if s.len() > 0 {
        lemma_be_value_bound(s.drop_last());
    }
}

/// A contiguous, resizable region of bytes.
pub struct MemoryBuffer {
    memory: Vec<u8>,
}

impl View for MemoryBuffer {
    type V = Seq<u8>;

    closed spec fn view(&self) -> Seq<u8> {
        self.memory@
    }
}

impl MemoryBuffer {
    pub fn new() -> (r: MemoryBuffer)
        ensures
            r@ == Seq::<u8>::empty(),
    {
        MemoryBuffer { memory: Vec::new() }
    }

    pub fn from_bytes(bytes: Vec<u8>) -> (r: MemoryBuffer)
        ensures
            r@ == bytes@,
    {
        MemoryBuffer { memory: bytes }
    }

    pub fn size(&self) -> (r: usize)
        ensures
            r == self@.len(),
    {
        self.memory.len()
    }

    /// Grows or shrinks the buffer to `new_size` bytes, filling new bytes with zero.
    pub fn resize(&mut self, new_size: usize)
        ensures
            final(self)@.len() == new_size,
            forall|i: int|
                0 <= i < new_size ==> #[trigger] final(self)@[i] == if i < old(self)@.len() {
                    old(self)@[i]
                } else {
                    0u8
                },
    {
        self.memory.resize(new_size, 0u8);
    }

    pub fn push(&mut self, byte: u8)
        ensures
            final(self)@ == old(self)@.push(byte),
    {
        self.memory.push(byte);
    }

    pub fn extend(&mut self, bytes: &[u8])
        ensures
            final(self)@ == old(self)@ + bytes@,
    {
        self.memory.extend_from_slice(bytes);
    }

    pub fn byte(&self, index: usize) -> (r: u8)
        requires
            index < self@.len(),
        ensures
            r == self@[index as int],
    {
        self.memory[index]
    }

    pub fn set_byte(&mut self, index: usize, value: u8)
        requires
            index < old(self)@.len(),
        ensures
            final(self)@ == old(self)@.update(index as int, value),
    {
        self.memory.set(index, value);
    }

    /// Reads `width` bytes at `offset` as a big-endian unsigned number.
    pub fn read(&self, offset: usize, width: usize) -> (r: u32)
        requires
            valid_width(width as nat),
            offset + width <= self@.len(),
        ensures
            r as nat == be_value(self@.subrange(offset as int, offset + width)),
    {
        let _len = self.memory.len();
        let s = Ghost(self@.subrange(offset as int, offset + width));
        reveal_with_fuel(be_value, 5);
        let b0 = self.memory[offset] as u32;
        if width == 1 {
            assert(s@.drop_last() =~= Seq::<u8>::empty());
            return b0;
        }
        let b1 = self.memory[offset + 1] as u32;
        if width == 2 {
            assert(s@.drop_last().drop_last() =~= Seq::<u8>::empty());
            return b0 * 256 + b1;
        }
        let b2 = self.memory[offset + 2] as u32;
        let b3 = self.memory[offset + 3] as u32;
        assert(s@.drop_last().drop_last().drop_last().drop_last() =~= Seq::<u8>::empty());
        ((b0 * 256 + b1) * 256 + b2) * 256 + b3
    }

    /// Writes the `width` low-order bytes of `value` at `offset`, most significant first.
    pub fn write(&mut self, offset: usize, width: usize, value: u32)
        requires
            valid_width(width as nat),
            offset + width <= old(self)@.len(),
        ensures
            final(self)@ == old(self)@.subrange(0, offset as int) + be_bytes(value as nat, width as nat)
                + old(self)@.subrange(offset + width, old(self)@.len() as int),
    {
        let ghost old_mem = self@;
        let _len = self.memory.len();
        reveal_with_fuel(be_bytes, 5);
        let v = value;
        if width == 1 {
            self.memory.set(offset, (v % 256) as u8);
        } else if width == 2 {
            self.memory.set(offset + 1, (v % 256) as u8);
            self.memory.set(offset, ((v / 256) % 256) as u8);
        } else {
            self.memory.set(offset + 3, (v % 256) as u8);
            self.memory.set(offset + 2, ((v / 256) % 256) as u8);
            self.memory.set(offset + 1, ((v / 256 / 256) % 256) as u8);
            self.memory.set(offset, ((v / 256 / 256 / 256) % 256) as u8);
        }
        assert(self@ =~= old_mem.subrange(0, offset as int) + be_bytes(value as nat, width as nat)
            + old_mem.subrange(offset + width, old_mem.len() as int));
    }
}

} // verus!
