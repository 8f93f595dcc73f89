use mips_sim::cache::Cache;
use mips_sim::memory::{Memory, MemoryError};

#[test]
fn test_cache_read_write() {
    let mut memory = Memory::new();
    let mut cache = Cache::new();
    memory.write_byte(0x1000, 0xAB).unwrap();
    let value = cache.read_byte(&mut memory, 0x1000).unwrap();
    assert_eq!(value, 0xAB);
    cache.write_byte(&mut memory, 0x1000, 0xCD).unwrap();
    let value = cache.read_byte(&mut memory, 0x1000).unwrap();
    assert_eq!(value, 0xCD);
}

#[test]
fn test_cache_stats() {
    let mut memory = Memory::new();
    let mut cache = Cache::new();
    cache.read_byte(&mut memory, 0x1000).unwrap();
    cache.read_byte(&mut memory, 0x1000).unwrap();
    cache.read_byte(&mut memory, 0x1001).unwrap();
    let stats = cache.get_stats();
    assert_eq!(stats.misses, 1);
    assert_eq!(stats.hits, 2);
}

#[test]
fn first_access_misses_then_same_line_hits() {
    let mut memory = Memory::new();
    let mut cache = Cache::new();
    cache.write_byte(&mut memory, 0x2005, 1).unwrap();
    assert_eq!(cache.get_stats().misses, 1);
    assert_eq!(cache.get_stats().hits, 0);
    // every other byte of the 32-byte line 0x2000..0x2020 hits
    for a in 0x2000u32..0x2020 {
        cache.read_byte(&mut memory, a).unwrap();
    }
    assert_eq!(cache.get_stats().misses, 1);
    assert_eq!(cache.get_stats().hits, 32);
    // the next line misses
    cache.read_byte(&mut memory, 0x2020).unwrap();
    assert_eq!(cache.get_stats().misses, 2);
}

#[test]
fn fifth_line_in_a_set_evicts_least_recently_used() {
    let mut memory = Memory::new();
    let mut cache = Cache::new();
    // lines 2048 bytes apart share a set
    let lines: Vec<u32> = (0..5u32).map(|k| 0x1000 + k * 0x800).collect();
    for &a in &lines {
        cache.read_byte(&mut memory, a).unwrap();
    }
    assert_eq!(cache.get_stats().misses, 5);
    assert_eq!(cache.get_stats().hits, 0);
    // lines 1..5 are still resident
    for &a in &lines[1..] {
        cache.read_byte(&mut memory, a).unwrap();
    }
    assert_eq!(cache.get_stats().hits, 4);
    assert_eq!(cache.get_stats().misses, 5);
    // the first line was evicted
    cache.read_byte(&mut memory, lines[0]).unwrap();
    assert_eq!(cache.get_stats().misses, 6);
}

#[test]
fn lru_follows_recent_use() {
    let mut memory = Memory::new();
    let mut cache = Cache::new();
    let lines: Vec<u32> = (0..5u32).map(|k| 0x1000 + k * 0x800).collect();
    for &a in &lines[..4] {
        cache.read_byte(&mut memory, a).unwrap();
    }
    // touch the oldest again: the second becomes least recently used
    cache.read_byte(&mut memory, lines[0]).unwrap();
    cache.read_byte(&mut memory, lines[4]).unwrap();
    assert_eq!(cache.get_stats().misses, 5);
    cache.read_byte(&mut memory, lines[0]).unwrap();
    assert_eq!(cache.get_stats().misses, 5);
    cache.read_byte(&mut memory, lines[1]).unwrap();
    assert_eq!(cache.get_stats().misses, 6);
}

#[test]
fn write_then_flush_reaches_memory() {
    let mut memory = Memory::new();
    let mut cache = Cache::new();
    cache.write_word(&mut memory, 0x3000, 0xdeadbeef).unwrap();
    // write-back: memory has not seen it yet
    assert_eq!(memory.read_word(0x3000), Ok(0));
    assert_eq!(cache.read_word(&mut memory, 0x3000), Ok(0xdeadbeef));
    cache.flush(&mut memory).unwrap();
    assert_eq!(memory.read_word(0x3000), Ok(0xdeadbeef));
    assert_eq!(cache.get_stats().writebacks, 1);
    // a second flush finds nothing dirty
    cache.flush(&mut memory).unwrap();
    assert_eq!(cache.get_stats().writebacks, 1);
}

#[test]
fn word_round_trip_through_cache_across_lines() {
    let mut memory = Memory::new();
    let mut cache = Cache::new();
    // 0x101e..0x1021 spans two lines
    cache.write_word(&mut memory, 0x101e, 0x0102_0304).unwrap();
    assert_eq!(cache.read_word(&mut memory, 0x101e), Ok(0x0102_0304));
    assert_eq!(cache.read_byte(&mut memory, 0x101e), Ok(0x04));
    assert_eq!(cache.read_byte(&mut memory, 0x1021), Ok(0x01));
}

#[test]
fn eviction_writes_dirty_line_back() {
    let mut memory = Memory::new();
    let mut cache = Cache::new();
    cache.write_byte(&mut memory, 0x1000, 0x5a).unwrap();
    for k in 1..5u32 {
        cache.read_byte(&mut memory, 0x1000 + k * 0x800).unwrap();
    }
    assert_eq!(cache.get_stats().writebacks, 1);
    assert_eq!(memory.read_byte(0x1000), Ok(0x5a));
}

#[test]
fn write_miss_keeps_rest_of_line() {
    let mut memory = Memory::new();
    let mut cache = Cache::new();
    memory.write_byte(0x2001, 0xab).unwrap();
    cache.write_byte(&mut memory, 0x2000, 0x11).unwrap();
    assert_eq!(cache.read_byte(&mut memory, 0x2001), Ok(0xab));
    for k in 1..5u32 {
        cache.read_byte(&mut memory, 0x2000 + k * 0x800).unwrap();
    }
    assert_eq!(memory.read_byte(0x2000), Ok(0x11));
    assert_eq!(memory.read_byte(0x2001), Ok(0xab));
}

#[test]
fn cache_word_bounds_and_faults() {
    let mut memory = Memory::with_size(64);
    let mut cache = Cache::new();
    assert_eq!(cache.read_word(&mut memory, 61), Err(MemoryError::AddressOutOfRange(61)));
    assert_eq!(cache.write_word(&mut memory, 62, 1), Err(MemoryError::AddressOutOfRange(62)));
    assert_eq!(cache.read_byte(&mut memory, 64), Err(MemoryError::AddressOutOfRange(64)));
    assert_eq!(cache.write_byte(&mut memory, 100, 1), Err(MemoryError::AddressOutOfRange(96)));
    assert_eq!(cache.read_word(&mut memory, 60), Ok(0));
    // a line that runs past the end of memory cannot be filled
    let mut short = Memory::with_size(40);
    let mut fresh = Cache::new();
    assert_eq!(fresh.read_byte(&mut short, 33), Err(MemoryError::AddressOutOfRange(40)));
    assert_eq!(fresh.read_byte(&mut short, 31), Ok(0));
}

#[test]
fn reset_stats_clears_counts() {
    let mut memory = Memory::new();
    let mut cache = Cache::new();
    cache.read_byte(&mut memory, 0).unwrap();
    cache.read_byte(&mut memory, 0).unwrap();
    cache.reset_stats();
    assert_eq!(cache.get_stats().hits, 0);
    assert_eq!(cache.get_stats().misses, 0);
    assert_eq!(cache.get_stats().writebacks, 0);
    // the line stays resident
    cache.read_byte(&mut memory, 1).unwrap();
    assert_eq!(cache.get_stats().hits, 1);
}

#[test]
fn flush_counts_each_dirty_line_once() {
    let mut memory = Memory::new();
    let mut cache = Cache::new();
    cache.write_byte(&mut memory, 0x0000, 1).unwrap();
    cache.write_byte(&mut memory, 0x0001, 2).unwrap();
    cache.write_byte(&mut memory, 0x0020, 3).unwrap();
    cache.write_byte(&mut memory, 0x0800, 4).unwrap();
    cache.read_byte(&mut memory, 0x0040).unwrap();
    cache.flush(&mut memory).unwrap();
    assert_eq!(cache.get_stats().writebacks, 3);
    assert_eq!(memory.read_byte(0x0001), Ok(2));
    assert_eq!(memory.read_byte(0x0800), Ok(4));
}

#[test]
fn word_access_counts_four_byte_accesses() {
    let mut memory = Memory::new();
    let mut cache = Cache::new();
    cache.write_word(&mut memory, 0x101e, 7).unwrap();
    let s = cache.get_stats();
    assert_eq!(s.hits + s.misses, 4);
    cache.read_word(&mut memory, 0x101e).unwrap();
    let s = cache.get_stats();
    assert_eq!(s.hits + s.misses, 8);
    assert_eq!(s.misses, 2);
}
