//! Flat, zero-initialised, bounds-checked byte memory with little-endian words.

use vstd::prelude::*;
use crate::instructions::{Instruction, Word};

verus! {

/// A byte address.
pub type MemoryAddress = u32;

/// The size of the memory that `Memory::new` creates (1 MiB).
pub const MEMORY_SIZE: usize = 1048576;

/// The largest memory size: every byte, and the first address past the end,
/// has a 32-bit address.
pub const ADDRESS_SPACE: u64 = 0xffff_ffff;

/// A memory fault.
#[derive(Debug, Clone, Copy, PartialEq, Eq, Structural)]
pub enum MemoryError {
    AddressOutOfRange(MemoryAddress),
}

/// Byte `k` (0 = least significant) of `v`.
pub open spec fn byte_of(v: u32, k: u32) -> u8 {
    ((v >> (8 * k)) & 0xff) as u8
}

/// The little-endian word made of four bytes.
pub open spec fn word_of_bytes(b0: u8, b1: u8, b2: u8, b3: u8) -> u32 {
    (b0 as u32) | ((b1 as u32) << 8u32) | ((b2 as u32) << 16u32) | ((b3 as u32) << 24u32)
}

/// The little-endian word stored at `a`.
pub open spec fn word_at(m: Seq<u8>, a: int) -> u32 {
    word_of_bytes(m[a], m[a + 1], m[a + 2], m[a + 3])
}

/// `m` with the little-endian word `v` stored at `a`.
pub open spec fn put_word(m: Seq<u8>, a: int, v: u32) -> Seq<u8> {
    m.update(a, byte_of(v, 0)).update(a + 1, byte_of(v, 1)).update(a + 2, byte_of(v, 2)).update(
        a + 3,
        byte_of(v, 3),
    )
}

/// Whether the four bytes at `a` lie inside a memory of `len` bytes.
pub open spec fn word_in_bounds(a: int, len: int) -> bool {
    0 <= a && a + 3 < len
}

/// Splitting a word into bytes and joining them again gives the word back.
pub proof fn lemma_bytes_of_word(v: u32)
    ensures
        word_of_bytes(byte_of(v, 0), byte_of(v, 1), byte_of(v, 2), byte_of(v, 3)) == v,
{
    assert(((v & 0xff) as u8 as u32) | ((((v >> 8u32) & 0xff) as u8 as u32) << 8u32) | ((((v
        >> 16u32) & 0xff) as u8 as u32) << 16u32) | ((((v >> 24u32) & 0xff) as u8 as u32)
        << 24u32) == v) by (bit_vector);
    assert(byte_of(v, 0) == (v & 0xff) as u8) by {
        assert(v >> 0u32 == v) by (bit_vector);
    }
}

/// Writing a word and reading it back at the same in-bounds address gives the
/// word written; the length of the memory does not change.
pub proof fn lemma_word_round_trip(m: Seq<u8>, a: int, v: u32)
    requires
        word_in_bounds(a, m.len() as int),
    ensures
        word_at(put_word(m, a, v), a) == v,
        put_word(m, a, v).len() == m.len(),
{
    lemma_bytes_of_word(v);
}

/// A bounds-checked byte store.
#[derive(Debug, Clone)]
pub struct Memory {
    data: Vec<u8>,
}

impl View for Memory {
    type V = Seq<u8>;

    closed spec fn view(&self) -> Seq<u8> {
        self.data@
    }
}

/// `n` zero bytes.
pub open spec fn zeros(n: nat) -> Seq<u8> {
    Seq::new(n, |i: int| 0u8)
}

impl Memory {
    /// The contents never outgrow what a 32-bit address can reach.
    pub open spec fn wf(&self) -> bool {
        self@.len() <= ADDRESS_SPACE as int
    }

    /// A zeroed memory of `MEMORY_SIZE` bytes.
    pub fn new() -> (r: Self)
        ensures
            r.wf(),
            r@ == zeros(MEMORY_SIZE as nat),
    {
        Self::with_size(MEMORY_SIZE)
    }

    /// A zeroed memory of `size` bytes.
    pub fn with_size(size: usize) -> (r: Self)
        requires
            size as int <= ADDRESS_SPACE as int,
        ensures
            r.wf(),
            r@ == zeros(size as nat),
    {
        let data: Vec<u8> = vec![0u8; size];
        assert(data@ == zeros(size as nat));
        Self { data }
    }

    /// Stores one byte.
    pub fn write_byte(&mut self, address: MemoryAddress, value: u8) -> (r: Result<(), MemoryError>)
        ensures
            address < old(self)@.len() ==> r is Ok && final(self)@ == old(self)@.update(
                address as int,
                value,
            ),
            address >= old(self)@.len() ==> r == Err::<(), MemoryError>(
                MemoryError::AddressOutOfRange(address),
            ) && final(self)@ == old(self)@,
            final(self).wf() == old(self).wf(),
    {
        if address as usize >= self.data.len() {
            return Err(MemoryError::AddressOutOfRange(address));
        }
        self.data.set(address as usize, value);
        Ok(())
    }

    /// Loads one byte.
    pub fn read_byte(&self, address: MemoryAddress) -> (r: Result<u8, MemoryError>)
        ensures
            address < self@.len() ==> r == Ok::<u8, MemoryError>(self@[address as int]),
            address >= self@.len() ==> r == Err::<u8, MemoryError>(
                MemoryError::AddressOutOfRange(address),
            ),
    {
        if address as usize >= self.data.len() {
            return Err(MemoryError::AddressOutOfRange(address));
        }
        Ok(self.data[address as usize])
    }

    /// Stores a little-endian word in the four bytes starting at `address`.
    pub fn write_word(&mut self, address: MemoryAddress, value: Word) -> (r: Result<(), MemoryError>)
        ensures
            word_in_bounds(address as int, old(self)@.len() as int) ==> r is Ok && final(self)@
                == put_word(old(self)@, address as int, value),
            !word_in_bounds(address as int, old(self)@.len() as int) ==> r == Err::<
                (),
                MemoryError,
            >(MemoryError::AddressOutOfRange(address)) && final(self)@ == old(self)@,
            final(self).wf() == old(self).wf(),
    {
        if (address as usize).saturating_add(3) >= self.data.len() {
            return Err(MemoryError::AddressOutOfRange(address));
        }
        let addr = address as usize;
        self.data.set(addr, (value & 0xff) as u8);
        self.data.set(addr + 1, ((value >> 8u32) & 0xff) as u8);
        self.data.set(addr + 2, ((value >> 16u32) & 0xff) as u8);
        self.data.set(addr + 3, ((value >> 24u32) & 0xff) as u8);
        proof {
            assert(value >> 0u32 == value) by (bit_vector);
        }
        Ok(())
    }

    /// Loads the little-endian word in the four bytes starting at `address`.
    pub fn read_word(&self, address: MemoryAddress) -> (r: Result<Word, MemoryError>)
        ensures
            word_in_bounds(address as int, self@.len() as int) ==> r == Ok::<Word, MemoryError>(
                word_at(self@, address as int),
            ),
            !word_in_bounds(address as int, self@.len() as int) ==> r == Err::<Word, MemoryError>(
                MemoryError::AddressOutOfRange(address),
            ),
    {
        if (address as usize).saturating_add(3) >= self.data.len() {
            return Err(MemoryError::AddressOutOfRange(address));
        }
        let addr = address as usize;
        let word = (self.data[addr] as Word) | ((self.data[addr + 1] as Word) << 8u32) | ((
        self.data[addr + 2] as Word) << 16u32) | ((self.data[addr + 3] as Word) << 24u32);
        Ok(word)
    }

    /// Stores an instruction word.
    pub fn write_instruction(&mut self, address: MemoryAddress, instruction: Instruction) -> (r:
        Result<(), MemoryError>)
        ensures
            word_in_bounds(address as int, old(self)@.len() as int) ==> r is Ok && final(self)@
                == put_word(old(self)@, address as int, instruction),
            !word_in_bounds(address as int, old(self)@.len() as int) ==> r == Err::<
                (),
                MemoryError,
            >(MemoryError::AddressOutOfRange(address)) && final(self)@ == old(self)@,
            final(self).wf() == old(self).wf(),
    {
        self.write_word(address, instruction)
    }

    /// Loads an instruction word.
    pub fn read_instruction(&self, address: MemoryAddress) -> (r: Result<Instruction, MemoryError>)
        ensures
            word_in_bounds(address as int, self@.len() as int) ==> r == Ok::<
                Instruction,
                MemoryError,
            >(word_at(self@, address as int)),
            !word_in_bounds(address as int, self@.len() as int) ==> r == Err::<
                Instruction,
                MemoryError,
            >(MemoryError::AddressOutOfRange(address)),
    {
        self.read_word(address)
    }

    /// Sets the bytes `start..=end` to zero.
    pub fn clear_range(&mut self, start: MemoryAddress, end: MemoryAddress) -> (r: Result<
        (),
        MemoryError,
    >)
        ensures
            (start < old(self)@.len() && end < old(self)@.len() && start <= end) ==> r is Ok
                && final(self)@ == Seq::new(
                old(self)@.len(),
                |i: int|
                    if start <= i <= end {
                        0u8
                    } else {
                        old(self)@[i]
                    },
            ),
            !(start < old(self)@.len() && end < old(self)@.len() && start <= end) ==> r == Err::<
                (),
                MemoryError,
            >(MemoryError::AddressOutOfRange(start)) && final(self)@ == old(self)@,
            final(self).wf() == old(self).wf(),
    {
        if start as usize >= self.data.len() || end as usize >= self.data.len() || start > end {
            return Err(MemoryError::AddressOutOfRange(start));
        }
        let mut addr: usize = start as usize;
        while addr <= end as usize
            invariant
                start <= addr <= end as int + 1,
                (end as int) < self.data@.len(),
                self.data@.len() == old(self)@.len(),
                forall|i: int|
                    0 <= i < self.data@.len() ==> #[trigger] self.data@[i] == if start <= i
                        < addr {
                        0u8
                    } else {
                        old(self)@[i]
                    },
            decreases end as int + 1 - addr,
        {
            self.data.set(addr, 0);
            addr = addr + 1;
        }
        assert(self@ =~= Seq::new(
            old(self)@.len(),
            |i: int|
                if start <= i <= end {
                    0u8
                } else {
                    old(self)@[i]
                },
        ));
        Ok(())
    }

    /// The number of bytes.
    pub fn size(&self) -> (r: usize)
        ensures
            r == self@.len(),
    {
        self.data.len()
    }
}

} // verus!
