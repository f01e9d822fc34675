use cache_sim::{ConfigError, Cpu, ReplacementPolicy};

fn word(x: f64) -> u64 {
    x.to_bits()
}

fn value(w: u64) -> f64 {
    f64::from_bits(w)
}

#[test]
fn test_addressing_fully_associative() {
    // 1 cache set, 8 cache lines, 8 words per line
    let cpu = Cpu::new(512, 64, 8, ReplacementPolicy::LRU, 2048).unwrap();
    assert_eq!(cpu.parts(0), (0, 0, 0));
    assert_eq!(cpu.parts(1), (0, 0, 1));
    assert_eq!(cpu.parts(7), (0, 0, 7));
    assert_eq!(cpu.parts(8), (1, 0, 0));
    assert_eq!(cpu.parts(16), (2, 0, 0));
    assert_eq!(cpu.parts(17), (2, 0, 1));
    assert_eq!(cpu.parts(19), (2, 0, 3));
}

#[test]
fn test_addressing_direct_mapping() {
    // 8 cache lines, 8 cache sets, 8 words per line
    let cpu = Cpu::new(512, 64, 1, ReplacementPolicy::LRU, 2048).unwrap();
    assert_eq!(cpu.parts(0), (0, 0, 0));
    assert_eq!(cpu.parts(1), (0, 0, 1));
    assert_eq!(cpu.parts(7), (0, 0, 7));
    assert_eq!(cpu.parts(8), (0, 1, 0));
    assert_eq!(cpu.parts(10), (0, 1, 2));
    assert_eq!(cpu.parts(16), (0, 2, 0));
    assert_eq!(cpu.parts(64), (1, 0, 0));
    assert_eq!(cpu.parts(75), (1, 1, 3));
}

#[test]
fn test_addressing_2_associative() {
    // 8 cache lines, 4 cache sets, 8 words per line
    let cpu = Cpu::new(512, 64, 2, ReplacementPolicy::LRU, 2048).unwrap();
    assert_eq!(cpu.parts(0), (0, 0, 0));
    assert_eq!(cpu.parts(7), (0, 0, 7));
    assert_eq!(cpu.parts(9), (0, 1, 1));
    assert_eq!(cpu.parts(17), (0, 2, 1));
    assert_eq!(cpu.parts(50), (1, 2, 2));
    assert_eq!(cpu.parts(100), (3, 0, 4));
}

#[test]
fn cpu_test_load_store() {
    let mut cpu = Cpu::new(512, 64, 8, ReplacementPolicy::LRU, 128).unwrap();
    for i in 0..100 {
        cpu.store(i, word(i as f64));
    }

    for i in 0..100 {
        assert_eq!(cpu.load(i), word(i as f64));
    }
}

#[test]
fn test_test_load_store() {
    let mut cpu = Cpu::new(512, 64, 8, ReplacementPolicy::LRU, 128).unwrap();
    for i in 0..100 {
        cpu.store(i, word(i as f64));
    }

    let _ = cpu.parts(56);

    assert_eq!(cpu.load(56), word(56.0));
}

#[test]
fn test_test_dot_product() {
    let mut cpu = Cpu::new(512, 64, 8, ReplacementPolicy::LRU, 128).unwrap();

    for i in 0..8 {
        cpu.store(i, word(2.0));
    }
    for i in 8..16 {
        cpu.store(i, word(4.0));
    }

    for i in 0..8 {
        let x = value(cpu.load(i)) * value(cpu.load(8 + i));
        cpu.store(16 + i, word(x));
    }
    for i in 16..24 {
        assert!((value(cpu.load(i)) - 8.0).abs() < 0.00001, "{}", value(cpu.load(i)));
    }
}

#[test]
fn test_write_through() {
    let mut cpu = Cpu::new(512, 64, 8, ReplacementPolicy::LRU, 128).unwrap();
    cpu.store(3, 41);
    assert_eq!(cpu.load(3), 41);
    cpu.store(3, 42);
    assert_eq!(cpu.load(3), 42);
    cpu.store(127, 7);
    assert_eq!(cpu.load(127), 7);
}

#[test]
fn test_hit_miss_counting() {
    let mut cpu = Cpu::new(512, 64, 8, ReplacementPolicy::LRU, 2048).unwrap();
    // The first access to any address is a miss.
    cpu.load(100);
    assert_eq!(cpu.read_misses(), 1);
    assert_eq!(cpu.read_hits(), 0);
    // An immediate repeated access to the same address is a hit.
    cpu.load(100);
    assert_eq!(cpu.read_misses(), 1);
    assert_eq!(cpu.read_hits(), 1);
    // The same block hits too, a different block misses.
    cpu.load(101);
    assert_eq!(cpu.read_hits(), 2);
    cpu.load(200);
    assert_eq!(cpu.read_misses(), 2);
    // The same holds for stores.
    cpu.store(300, 1);
    assert_eq!(cpu.write_misses(), 1);
    assert_eq!(cpu.write_hits(), 0);
    cpu.store(300, 2);
    assert_eq!(cpu.write_hits(), 1);
    assert_eq!(cpu.instruction_number(), 6);
}

#[test]
fn test_lru_eviction() {
    // 1 set, 2 ways, 1 word per block: the address is the tag.
    let mut cpu = Cpu::new(16, 8, 2, ReplacementPolicy::LRU, 32).unwrap();
    cpu.load(0); // A: miss
    cpu.load(1); // B: miss
    cpu.load(0); // A: hit
    cpu.load(2); // C: miss, evicts B (least recently used), not A
    assert_eq!(cpu.read_misses(), 3);
    assert_eq!(cpu.read_hits(), 1);
    cpu.load(0); // A survived
    assert_eq!(cpu.read_hits(), 2);
    cpu.load(1); // B was evicted
    assert_eq!(cpu.read_misses(), 4);
}

#[test]
fn test_fifo_eviction() {
    // Same geometry, FIFO: C evicts A (first written), despite A's re-access.
    let mut cpu = Cpu::new(16, 8, 2, ReplacementPolicy::FIFO, 32).unwrap();
    cpu.load(0); // A: miss
    cpu.load(1); // B: miss
    cpu.load(0); // A: hit
    cpu.load(2); // C: miss, evicts A
    assert_eq!(cpu.read_misses(), 3);
    assert_eq!(cpu.read_hits(), 1);
    cpu.load(1); // B survived
    assert_eq!(cpu.read_hits(), 2);
    cpu.load(0); // A was evicted
    assert_eq!(cpu.read_misses(), 4);
}

#[test]
fn test_random_policy_in_range() {
    // Whatever line the random policy evicts, values stay correct and every
    // access is counted exactly once.
    let mut cpu = Cpu::new(16, 8, 2, ReplacementPolicy::Random, 32).unwrap();
    for i in 0..8 {
        cpu.store(i, 10 + i as u64);
    }
    for i in 0..8 {
        assert_eq!(cpu.load(i), 10 + i as u64);
    }
    assert_eq!(cpu.write_hits() + cpu.write_misses(), 8);
    assert_eq!(cpu.read_hits() + cpu.read_misses(), 8);
    assert_eq!(cpu.instruction_number(), 16);
}

#[test]
fn test_read_idempotent() {
    let mut cpu = Cpu::new(512, 64, 8, ReplacementPolicy::LRU, 128).unwrap();
    cpu.store(9, 1234);
    let a = cpu.load(9);
    let b = cpu.load(9);
    let c = cpu.load(9);
    assert_eq!(a, 1234);
    assert_eq!(a, b);
    assert_eq!(b, c);
    // Loads did not disturb any other word of Memory either.
    assert_eq!(cpu.load(8), 0);
    assert_eq!(cpu.load(10), 0);
}

#[test]
fn test_reset_counters() {
    let mut cpu = Cpu::new(512, 64, 8, ReplacementPolicy::LRU, 128).unwrap();
    cpu.store(0, 5);
    cpu.load(0);
    assert_eq!(cpu.write_misses(), 1);
    assert_eq!(cpu.read_hits(), 1);
    cpu.reset_counters();
    assert_eq!(cpu.read_hits(), 0);
    assert_eq!(cpu.read_misses(), 0);
    assert_eq!(cpu.write_hits(), 0);
    assert_eq!(cpu.write_misses(), 0);
    // The instruction counter and the cache contents are kept.
    assert_eq!(cpu.instruction_number(), 2);
    cpu.load(0);
    assert_eq!(cpu.read_hits(), 1);
}

#[test]
fn test_reset_counters_keeps_lines() {
    // Resetting the statistics must not disturb the lines' metadata: the
    // eviction order afterwards is as if the counters had never been reset.
    let mut cpu = Cpu::new(16, 8, 2, ReplacementPolicy::LRU, 32).unwrap();
    cpu.load(0); // A: miss
    cpu.load(1); // B: miss
    cpu.load(0); // A: hit
    cpu.reset_counters();
    cpu.load(2); // C: miss, still evicts B (least recently used), not A
    assert_eq!(cpu.read_misses(), 1);
    cpu.load(0); // A survived
    assert_eq!(cpu.read_hits(), 1);
    cpu.load(1); // B was evicted
    assert_eq!(cpu.read_misses(), 2);
}

#[test]
fn test_reset_cache() {
    let mut cpu = Cpu::new(512, 64, 8, ReplacementPolicy::LRU, 128).unwrap();
    cpu.store(0, 5);
    cpu.load(0);
    cpu.reset_cache();
    assert_eq!(cpu.instruction_number(), 0);
    // The hit/miss counters survive, but every line was invalidated: the
    // next access to the address is a miss again, and Memory still holds
    // the stored value.
    assert_eq!(cpu.read_hits(), 1);
    assert_eq!(cpu.read_misses(), 0);
    assert_eq!(cpu.load(0), 5);
    assert_eq!(cpu.read_misses(), 1);
    assert_eq!(cpu.read_hits(), 1);
}

#[test]
fn test_direct_mapped_conflict() {
    // 2 lines, 2 sets, 1 word per block: even addresses map to set 0, odd to
    // set 1, and blocks two apart collide.
    let mut cpu = Cpu::new(16, 8, 1, ReplacementPolicy::LRU, 32).unwrap();
    cpu.store(0, 1); // set 0, tag 0: miss
    cpu.store(2, 2); // set 0, tag 1: miss, evicts block 0
    assert_eq!(cpu.write_misses(), 2);
    assert_eq!(cpu.load(0), 1); // evicted, so a miss; the value survived in Memory
    assert_eq!(cpu.read_misses(), 1);
    cpu.load(0); // back in its set
    assert_eq!(cpu.read_hits(), 1);
    cpu.load(1); // set 1 was never filled
    assert_eq!(cpu.read_misses(), 2);
}

#[test]
fn test_geometry_errors() {
    let e = Cpu::new(512, 63, 8, ReplacementPolicy::LRU, 128).unwrap_err();
    assert_eq!(e, ConfigError::BlockSizeNotWordMultiple);
    let e = Cpu::new(512, 0, 8, ReplacementPolicy::LRU, 128).unwrap_err();
    assert_eq!(e, ConfigError::BlockSizeNotWordMultiple);
    let e = Cpu::new(512, 64, 8, ReplacementPolicy::LRU, 100).unwrap_err();
    assert_eq!(e, ConfigError::RamSizeNotBlockMultiple);
    let e = Cpu::new(500, 64, 8, ReplacementPolicy::LRU, 128).unwrap_err();
    assert_eq!(e, ConfigError::CacheSizeNotBlockMultiple);
    let e = Cpu::new(512, 64, 3, ReplacementPolicy::LRU, 128).unwrap_err();
    assert_eq!(e, ConfigError::UnevenSets);
    let e = Cpu::new(512, 64, 0, ReplacementPolicy::LRU, 128).unwrap_err();
    assert_eq!(e, ConfigError::UnevenSets);
    let e = Cpu::new(0, 64, 1, ReplacementPolicy::LRU, 128).unwrap_err();
    assert_eq!(e, ConfigError::AssociativityTooLarge);
}

#[test]
fn test_geometry_accessors() {
    let cpu = Cpu::new(512, 64, 8, ReplacementPolicy::FIFO, 128).unwrap();
    assert_eq!(cpu.cache_size(), 512);
    assert_eq!(cpu.block_size(), 64);
    assert_eq!(cpu.associativity(), 8);
    assert_eq!(cpu.replacement(), ReplacementPolicy::FIFO);
    assert_eq!(cpu.cache_lines(), 8);
    assert_eq!(cpu.words(), 8);
    assert_eq!(cpu.ram_size(), 128);
    assert_eq!(cpu.read_hits(), 0);
    assert_eq!(cpu.read_misses(), 0);
    assert_eq!(cpu.write_hits(), 0);
    assert_eq!(cpu.write_misses(), 0);
    assert_eq!(cpu.instruction_number(), 0);
}

#[test]
fn test_new_memory_zeroed() {
    let mut cpu = Cpu::new(512, 64, 8, ReplacementPolicy::LRU, 128).unwrap();
    for i in 0..128 {
        assert_eq!(cpu.load(i), 0);
    }
}
