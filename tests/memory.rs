use mips_sim::memory::{Memory, MemoryError, MEMORY_SIZE};

#[test]
fn test_memory_read_write_byte() {
    let mut memory = Memory::new();
    memory.write_byte(0x1000, 0xAB).unwrap();
    assert_eq!(memory.read_byte(0x1000).unwrap(), 0xAB);
}

#[test]
fn test_memory_read_write_word() {
    let mut memory = Memory::new();
    memory.write_word(0x1000, 0x12345678).unwrap();
    assert_eq!(memory.read_word(0x1000).unwrap(), 0x12345678);
}

#[test]
fn test_memory_address_out_of_range() {
    let memory = Memory::new();
    assert!(memory.read_byte(MEMORY_SIZE as u32).is_err());
}

#[test]
fn test_memory_instruction_read_write() {
    let mut memory = Memory::new();
    let instruction = 0x00430820u32;
    memory.write_instruction(0x1000, instruction).unwrap();
    assert_eq!(memory.read_instruction(0x1000).unwrap(), instruction);
}

#[test]
fn memory_words_are_little_endian() {
    let mut memory = Memory::with_size(64);
    memory.write_word(4, 0x12345678).unwrap();
    assert_eq!(memory.read_byte(4).unwrap(), 0x78);
    assert_eq!(memory.read_byte(5).unwrap(), 0x56);
    assert_eq!(memory.read_byte(6).unwrap(), 0x34);
    assert_eq!(memory.read_byte(7).unwrap(), 0x12);
    assert_eq!(memory.read_byte(3).unwrap(), 0);
    assert_eq!(memory.read_byte(8).unwrap(), 0);
}

#[test]
fn memory_word_round_trip_at_edges() {
    let mut memory = Memory::with_size(16);
    for (a, v) in [(0u32, 0xffff_ffffu32), (12, 0x8000_0001), (5, 0)] {
        memory.write_word(a, v).unwrap();
        assert_eq!(memory.read_word(a).unwrap(), v);
    }
}

#[test]
fn memory_word_bounds() {
    let mut memory = Memory::with_size(16);
    assert_eq!(memory.read_word(13), Err(MemoryError::AddressOutOfRange(13)));
    assert_eq!(memory.write_word(13, 1), Err(MemoryError::AddressOutOfRange(13)));
    assert_eq!(memory.read_word(0xffff_ffff), Err(MemoryError::AddressOutOfRange(0xffff_ffff)));
    assert_eq!(memory.write_byte(16, 1), Err(MemoryError::AddressOutOfRange(16)));
    assert_eq!(memory.read_byte(15), Ok(0));
}

#[test]
fn memory_starts_zeroed_with_its_size() {
    let memory = Memory::with_size(100);
    assert_eq!(memory.size(), 100);
    assert_eq!(memory.read_word(96), Ok(0));
    assert_eq!(Memory::new().size(), MEMORY_SIZE);
}

#[test]
fn memory_clear_range() {
    let mut memory = Memory::with_size(32);
    for a in 0..32u32 {
        memory.write_byte(a, 0xee).unwrap();
    }
    memory.clear_range(4, 7).unwrap();
    assert_eq!(memory.read_byte(3), Ok(0xee));
    assert_eq!(memory.read_word(4), Ok(0));
    assert_eq!(memory.read_byte(8), Ok(0xee));
    assert_eq!(memory.clear_range(8, 4), Err(MemoryError::AddressOutOfRange(8)));
    assert_eq!(memory.clear_range(4, 32), Err(MemoryError::AddressOutOfRange(4)));
    assert_eq!(memory.clear_range(32, 33), Err(MemoryError::AddressOutOfRange(32)));
    assert_eq!(memory.read_byte(8), Ok(0xee));
}

#[test]
fn empty_memory_rejects_everything() {
    let mut memory = Memory::with_size(0);
    assert_eq!(memory.size(), 0);
    assert_eq!(memory.read_byte(0), Err(MemoryError::AddressOutOfRange(0)));
    assert_eq!(memory.write_word(0, 1), Err(MemoryError::AddressOutOfRange(0)));
    assert_eq!(memory.clear_range(0, 0), Err(MemoryError::AddressOutOfRange(0)));
}
