//! The cache/memory subsystem: a set-associative, write-through,
//! write-allocate cache over a flat word-addressed memory, with hit/miss and
//! instruction counting.

use vstd::prelude::*;
use vstd::arithmetic::div_mod::{
    lemma_div_non_zero, lemma_div_nonincreasing, lemma_div_pos_is_pos,
    lemma_fundamental_div_mod, lemma_fundamental_div_mod_converse, lemma_mod_bound,
    lemma_mod_multiples_basic, lemma_multiply_divide_lt,
};

use crate::policy::{
    CacheLine, ReplacementPolicy, is_min_last_used, is_min_write_time,
    lemma_min_last_used_unique, lemma_min_write_time_unique, select_victim,
};

verus! {

/// Size of one memory word in bytes; every word of Memory holds one value.
pub const WORD_BYTES: usize = 8;

/// Sentinel tag of a cache line that holds no block.
pub const EMPTY_TAG: usize = usize::MAX;

/// Why a cache geometry was rejected at construction.
#[derive(Clone, Copy, Debug, PartialEq, Eq, Structural)]
pub enum ConfigError {
    /// `block_size` is zero or not a multiple of the word size.
    BlockSizeNotWordMultiple,
    /// `ram_size` is not a multiple of `block_size`.
    RamSizeNotBlockMultiple,
    /// `cache_size` is not a multiple of `block_size`.
    CacheSizeNotBlockMultiple,
    /// `associativity` is zero or does not evenly divide the line count.
    UnevenSets,
    /// `associativity` exceeds the total number of cache lines.
    AssociativityTooLarge,
}

/// The geometry invariants checked at construction.
pub open spec fn geometry_ok(cache_size: int, block_size: int, associativity: int, ram_size: int) -> bool {
    &&& block_size > 0
    &&& block_size % (WORD_BYTES as int) == 0
    &&& ram_size % block_size == 0
    &&& cache_size % block_size == 0
    &&& associativity > 0
    &&& (cache_size / block_size) % associativity == 0
    &&& associativity <= cache_size / block_size
}

/// The word offset of an address within its block.
pub open spec fn spec_offset(address: int, words_per_block: int) -> int {
    address % words_per_block
}

/// The memory block an address belongs to.
pub open spec fn spec_block(address: int, words_per_block: int) -> int {
    address / words_per_block
}

/// The associative set an address maps to.
pub open spec fn spec_set_index(address: int, words_per_block: int, n_sets: int) -> int {
    spec_block(address, words_per_block) % n_sets
}

/// The tag that identifies an address's block within its set.
pub open spec fn spec_tag(address: int, words_per_block: int, n_sets: int) -> int {
    spec_block(address, words_per_block) / n_sets
}

/// What a load observes: the value is Memory's word at the address, and
/// Memory is left as it was.
pub open spec fn load_transition(pre_mem: Seq<u64>, post_mem: Seq<u64>, address: int, value: u64) -> bool {
    &&& post_mem == pre_mem
    &&& value == pre_mem[address]
}

/// What a store does to Memory: the addressed word now holds the stored
/// value and every other word is left as it was (write-through).
pub open spec fn store_transition(pre_mem: Seq<u64>, post_mem: Seq<u64>, address: int, value: u64) -> bool {
    post_mem == pre_mem.update(address, value)
}

/// How one access to `address` moves the cache's line state.  The
/// instruction counter advances by one and the address's block ends up
/// cached.  On a hit, the set's line that already held the address's tag
/// keeps its contents and is stamped as used now - and as written now when
/// the access writes.  On a miss, one line of the set is refilled with the
/// address's block and stamped as written and used now; under LRU that line
/// is exactly the set's tie-broken minimum of `last_used`, under FIFO of
/// `write_time` (lowest line index on ties, in both).
pub open spec fn access_post(pre: Cpu, post: Cpu, address: int, write: bool) -> bool {
    let st = pre.set_start(pre.addr_index(address));
    let en = st + pre.spec_associativity();
    &&& same_config(pre, post)
    &&& post.spec_instruction_number() == pre.spec_instruction_number() + 1
    &&& post.spec_lines().len() == pre.spec_lines().len()
    &&& post.spec_cached(address)
    &&& (pre.spec_cached(address) ==> exists|l: int|
        #![trigger pre.spec_lines()[l]]
        {
            &&& st <= l < en
            &&& pre.spec_lines()[l].tag == pre.addr_tag(address)
            &&& post.spec_lines() == pre.spec_lines().update(l, (CacheLine {
                tag: pre.spec_lines()[l].tag,
                write_time: if write {
                    post.spec_instruction_number()
                } else {
                    pre.spec_lines()[l].write_time
                },
                last_used: post.spec_instruction_number(),
            }))
        })
    &&& (!pre.spec_cached(address) ==> exists|l: int|
        #![trigger pre.spec_lines()[l]]
        {
            &&& st <= l < en
            &&& (pre.spec_replacement() == ReplacementPolicy::LRU
                ==> is_min_last_used(pre.spec_lines(), st, en, l))
            &&& (pre.spec_replacement() == ReplacementPolicy::FIFO
                ==> is_min_write_time(pre.spec_lines(), st, en, l))
            &&& post.spec_lines() == pre.spec_lines().update(l, (CacheLine {
                tag: (pre.addr_tag(address)) as usize,
                write_time: post.spec_instruction_number(),
                last_used: post.spec_instruction_number(),
            }))
        })
    &&& (!pre.spec_cached(address) && pre.spec_replacement() == ReplacementPolicy::LRU
        ==> forall|l: int|
            #![trigger is_min_last_used(pre.spec_lines(), st, en, l)]
            is_min_last_used(pre.spec_lines(), st, en, l)
                ==> post.spec_lines() == pre.spec_lines().update(l, (CacheLine {
                    tag: (pre.addr_tag(address)) as usize,
                    write_time: post.spec_instruction_number(),
                    last_used: post.spec_instruction_number(),
                })))
    &&& (!pre.spec_cached(address) && pre.spec_replacement() == ReplacementPolicy::FIFO
        ==> forall|l: int|
            #![trigger is_min_write_time(pre.spec_lines(), st, en, l)]
            is_min_write_time(pre.spec_lines(), st, en, l)
                ==> post.spec_lines() == pre.spec_lines().update(l, (CacheLine {
                    tag: (pre.addr_tag(address)) as usize,
                    write_time: post.spec_instruction_number(),
                    last_used: post.spec_instruction_number(),
                })))
}

/// Write-through consistency: a store leaves Memory holding the stored value
/// at the stored address, and a load returns Memory's word at its address, so
/// `store(a, v)` followed immediately by `load(a)` returns `v`.
pub proof fn lemma_write_through(m0: Seq<u64>, m1: Seq<u64>, m2: Seq<u64>, a: int, v: u64, r: u64)
    requires
        0 <= a < m0.len(),
        store_transition(m0, m1, a, v),
        load_transition(m1, m2, a, r),
    ensures
        r == v,
{
}

/// Idempotence of reads: a load leaves Memory unchanged and returns Memory's
/// word at its address, so repeated loads of one address with no store
/// between them return the same value every time and never change Memory.
pub proof fn lemma_read_idempotent(m0: Seq<u64>, m1: Seq<u64>, m2: Seq<u64>, a: int, r1: u64, r2: u64)
    requires
        0 <= a < m0.len(),
        load_transition(m0, m1, a, r1),
        load_transition(m1, m2, a, r2),
    ensures
        r1 == r2,
        m2 == m0,
{
}

/// LRU eviction: in a cold one-set, two-way cache, accessing blocks A, B, A
/// and then a third block C evicts B's block (the least recently used at C's
/// arrival), not A's.  The accesses may read or write: LRU ignores
/// `write_time`.
pub proof fn lemma_lru_eviction(
    s0: Cpu, s1: Cpu, s2: Cpu, s3: Cpu, s4: Cpu,
    a: int, b: int, c: int,
    w1: bool, w2: bool, w3: bool, w4: bool,
)
    requires
        s0.spec_replacement() == ReplacementPolicy::LRU,
        s0.spec_associativity() == 2,
        s0.spec_cache_lines() == 2,
        s0.spec_lines().len() == 2,
        forall|l: int| 0 <= l < 2 ==> (#[trigger] s0.spec_lines()[l])
            == (CacheLine { tag: EMPTY_TAG, write_time: 0, last_used: 0 }),
        0 <= s0.addr_tag(a) < EMPTY_TAG as int,
        0 <= s0.addr_tag(b) < EMPTY_TAG as int,
        0 <= s0.addr_tag(c) < EMPTY_TAG as int,
        s0.addr_tag(a) != s0.addr_tag(b),
        s0.addr_tag(a) != s0.addr_tag(c),
        s0.addr_tag(b) != s0.addr_tag(c),
        access_post(s0, s1, a, w1),
        access_post(s1, s2, b, w2),
        access_post(s2, s3, a, w3),
        access_post(s3, s4, c, w4),
    ensures
        s4.spec_cached(a),
        !s4.spec_cached(b),
        s4.spec_cached(c),
{
    let ta = s0.addr_tag(a);
    let tb = s0.addr_tag(b);
    let tc = s0.addr_tag(c);
    assert((ta as usize) as int == ta);
    assert((tb as usize) as int == tb);
    assert((tc as usize) as int == tc);
    lemma_one_set_trace(s0, s1, s2, s3, a, b, w1, w2, w3);
    let n2 = s2.spec_instruction_number();
    let n3 = s3.spec_instruction_number();
    let n4 = s4.spec_instruction_number();
    assert(!s3.spec_cached(c)) by {
        if s3.spec_cached(c) {
            let l = choose|l: int|
                s3.set_start(s3.addr_index(c)) <= l
                    < s3.set_start(s3.addr_index(c)) + s3.spec_associativity()
                    && (#[trigger] s3.spec_lines()[l].tag) == s3.addr_tag(c);
            assert(s3.spec_lines()[l].tag == tc);
            assert(false);
        }
    }
    assert(is_min_last_used(
        s3.spec_lines(),
        s3.set_start(s3.addr_index(c)),
        s3.set_start(s3.addr_index(c)) + s3.spec_associativity(),
        1,
    )) by {
        assert(s3.spec_lines()[1].last_used == n2);
        assert(s3.spec_lines()[0].last_used == n3);
        assert(n2 < n3);
    }
    assert(s4.spec_lines() == s3.spec_lines().update(1, (CacheLine {
        tag: (s3.addr_tag(c)) as usize,
        write_time: n4,
        last_used: n4,
    })));
    assert(s4.spec_lines()[0].tag == ta as usize);
    assert(s4.spec_lines()[1].tag == tc as usize);
    assert(s4.set_start(s4.addr_index(a)) == 0 && s4.spec_associativity() == 2);
    assert(s4.spec_lines()[0].tag == s4.addr_tag(a));
    assert(s4.spec_cached(a));
    assert(s4.spec_lines()[1].tag == s4.addr_tag(c));
    assert(s4.spec_cached(c));
    assert(!s4.spec_cached(b)) by {
        if s4.spec_cached(b) {
            let l = choose|l: int|
                s4.set_start(s4.addr_index(b)) <= l
                    < s4.set_start(s4.addr_index(b)) + s4.spec_associativity()
                    && (#[trigger] s4.spec_lines()[l].tag) == s4.addr_tag(b);
            assert(s4.spec_lines()[l].tag == tb);
            assert(false);
        }
    }
}

/// FIFO eviction: in a cold one-set, two-way cache, reading blocks A, B, A
/// and then a third block C evicts A's block (the one written first),
/// regardless of A's later re-access.
pub proof fn lemma_fifo_eviction(
    s0: Cpu, s1: Cpu, s2: Cpu, s3: Cpu, s4: Cpu,
    a: int, b: int, c: int,
)
    requires
        s0.spec_replacement() == ReplacementPolicy::FIFO,
        s0.spec_associativity() == 2,
        s0.spec_cache_lines() == 2,
        s0.spec_lines().len() == 2,
        forall|l: int| 0 <= l < 2 ==> (#[trigger] s0.spec_lines()[l])
            == (CacheLine { tag: EMPTY_TAG, write_time: 0, last_used: 0 }),
        0 <= s0.addr_tag(a) < EMPTY_TAG as int,
        0 <= s0.addr_tag(b) < EMPTY_TAG as int,
        0 <= s0.addr_tag(c) < EMPTY_TAG as int,
        s0.addr_tag(a) != s0.addr_tag(b),
        s0.addr_tag(a) != s0.addr_tag(c),
        s0.addr_tag(b) != s0.addr_tag(c),
        access_post(s0, s1, a, false),
        access_post(s1, s2, b, false),
        access_post(s2, s3, a, false),
        access_post(s3, s4, c, false),
    ensures
        !s4.spec_cached(a),
        s4.spec_cached(b),
        s4.spec_cached(c),
{
    let ta = s0.addr_tag(a);
    let tb = s0.addr_tag(b);
    let tc = s0.addr_tag(c);
    assert((ta as usize) as int == ta);
    assert((tb as usize) as int == tb);
    assert((tc as usize) as int == tc);
    lemma_one_set_trace(s0, s1, s2, s3, a, b, false, false, false);
    let n1 = s1.spec_instruction_number();
    let n2 = s2.spec_instruction_number();
    let n4 = s4.spec_instruction_number();
    assert(!s3.spec_cached(c)) by {
        if s3.spec_cached(c) {
            let l = choose|l: int|
                s3.set_start(s3.addr_index(c)) <= l
                    < s3.set_start(s3.addr_index(c)) + s3.spec_associativity()
                    && (#[trigger] s3.spec_lines()[l].tag) == s3.addr_tag(c);
            assert(s3.spec_lines()[l].tag == tc);
            assert(false);
        }
    }
    assert(is_min_write_time(
        s3.spec_lines(),
        s3.set_start(s3.addr_index(c)),
        s3.set_start(s3.addr_index(c)) + s3.spec_associativity(),
        0,
    )) by {
        assert(s3.spec_lines()[0].write_time == n1);
        assert(s3.spec_lines()[1].write_time == n2);
        assert(n1 < n2);
    }
    assert(s4.spec_lines() == s3.spec_lines().update(0, (CacheLine {
        tag: (s3.addr_tag(c)) as usize,
        write_time: n4,
        last_used: n4,
    })));
    assert(s4.spec_lines()[0].tag == tc as usize);
    assert(s4.spec_lines()[1].tag == tb as usize);
    assert(s4.set_start(s4.addr_index(b)) == 0 && s4.spec_associativity() == 2);
    assert(s4.spec_lines()[1].tag == s4.addr_tag(b));
    assert(s4.spec_cached(b));
    assert(s4.spec_lines()[0].tag == s4.addr_tag(c));
    assert(s4.spec_cached(c));
    assert(!s4.spec_cached(a)) by {
        if s4.spec_cached(a) {
            let l = choose|l: int|
                s4.set_start(s4.addr_index(a)) <= l
                    < s4.set_start(s4.addr_index(a)) + s4.spec_associativity()
                    && (#[trigger] s4.spec_lines()[l].tag) == s4.addr_tag(a);
            assert(s4.spec_lines()[l].tag == ta);
            assert(false);
        }
    }
}

/// The first three steps shared by the eviction laws: from a cold one-set,
/// two-way cache under LRU or FIFO, accessing A, B, A fills line 0 with A's
/// block and line 1 with B's, leaving A's line used last and both lines'
/// fill times in arrival order.
proof fn lemma_one_set_trace(
    s0: Cpu, s1: Cpu, s2: Cpu, s3: Cpu,
    a: int, b: int,
    w1: bool, w2: bool, w3: bool,
)
    requires
        s0.spec_replacement() == ReplacementPolicy::LRU
            || s0.spec_replacement() == ReplacementPolicy::FIFO,
        s0.spec_associativity() == 2,
        s0.spec_cache_lines() == 2,
        s0.spec_lines().len() == 2,
        forall|l: int| 0 <= l < 2 ==> (#[trigger] s0.spec_lines()[l])
            == (CacheLine { tag: EMPTY_TAG, write_time: 0, last_used: 0 }),
        0 <= s0.addr_tag(a) < EMPTY_TAG as int,
        0 <= s0.addr_tag(b) < EMPTY_TAG as int,
        s0.addr_tag(a) != s0.addr_tag(b),
        access_post(s0, s1, a, w1),
        access_post(s1, s2, b, w2),
        access_post(s2, s3, a, w3),
    ensures
        same_config(s0, s3),
        s3.spec_lines().len() == 2,
        s3.spec_n_sets() == 1,
        s3.spec_lines()[0].tag == (s0.addr_tag(a)) as usize,
        s3.spec_lines()[1].tag == (s0.addr_tag(b)) as usize,
        s3.spec_lines()[0].last_used == s3.spec_instruction_number(),
        s3.spec_lines()[1].last_used == s2.spec_instruction_number(),
        s3.spec_lines()[0].write_time == (if w3 {
            s3.spec_instruction_number()
        } else {
            s1.spec_instruction_number()
        }),
        s3.spec_lines()[1].write_time == s2.spec_instruction_number(),
        s1.spec_instruction_number() == s0.spec_instruction_number() + 1,
        s2.spec_instruction_number() == s0.spec_instruction_number() + 2,
        s3.spec_instruction_number() == s0.spec_instruction_number() + 3,
        forall|x: int| #[trigger] s3.addr_tag(x) == s0.addr_tag(x),
        forall|x: int| #[trigger] s3.addr_index(x) == 0,
        s3.spec_associativity() == 2,
        forall|i: int| #[trigger] s3.set_start(i) == i * 2,
{
    let ta = s0.addr_tag(a);
    let tb = s0.addr_tag(b);
    let e = (CacheLine { tag: EMPTY_TAG, write_time: 0, last_used: 0 });
    assert((ta as usize) as int == ta);
    assert((tb as usize) as int == tb);
    assert(s0.spec_n_sets() == 1);
    assert(same_config(s0, s1) && same_config(s1, s2) && same_config(s2, s3));
    assert(forall|x: int| #[trigger] s1.addr_tag(x) == s0.addr_tag(x));
    assert(forall|x: int| #[trigger] s2.addr_tag(x) == s0.addr_tag(x));
    assert(forall|x: int| #[trigger] s3.addr_tag(x) == s0.addr_tag(x));
    assert forall|x: int| #[trigger] s0.addr_index(x) == 0 by {
        lemma_mod_bound(spec_block(x, s0.spec_words()), 1);
    }
    assert(forall|x: int| #[trigger] s1.addr_index(x) == 0);
    assert(forall|x: int| #[trigger] s2.addr_index(x) == 0);
    assert(forall|x: int| #[trigger] s3.addr_index(x) == 0);

    // A's first access misses the cold set; both policies fill line 0.
    assert(s0.spec_lines()[0] == e);
    assert(s0.spec_lines()[1] == e);
    assert(!s0.spec_cached(a)) by {
        if s0.spec_cached(a) {
            let l = choose|l: int|
                s0.set_start(s0.addr_index(a)) <= l
                    < s0.set_start(s0.addr_index(a)) + s0.spec_associativity()
                    && (#[trigger] s0.spec_lines()[l].tag) == s0.addr_tag(a);
            assert(s0.spec_lines()[l] == e);
            assert(false);
        }
    }
    assert(is_min_last_used(
        s0.spec_lines(),
        s0.set_start(s0.addr_index(a)),
        s0.set_start(s0.addr_index(a)) + s0.spec_associativity(),
        0,
    ));
    assert(is_min_write_time(
        s0.spec_lines(),
        s0.set_start(s0.addr_index(a)),
        s0.set_start(s0.addr_index(a)) + s0.spec_associativity(),
        0,
    ));
    assert(s1.spec_lines() == s0.spec_lines().update(0, (CacheLine {
        tag: (s0.addr_tag(a)) as usize,
        write_time: s1.spec_instruction_number(),
        last_used: s1.spec_instruction_number(),
    })));
    let n1 = s1.spec_instruction_number();
    assert(s1.spec_lines()[0] == (CacheLine { tag: ta as usize, write_time: n1, last_used: n1 }));
    assert(s1.spec_lines()[1] == e);
    assert(n1 >= 1);

    // B's access misses too; the still-empty line 1 is both policies' choice.
    assert(!s1.spec_cached(b)) by {
        if s1.spec_cached(b) {
            let l = choose|l: int|
                s1.set_start(s1.addr_index(b)) <= l
                    < s1.set_start(s1.addr_index(b)) + s1.spec_associativity()
                    && (#[trigger] s1.spec_lines()[l].tag) == s1.addr_tag(b);
            assert(s1.addr_tag(b) == tb);
            assert(false);
        }
    }
    assert(is_min_last_used(
        s1.spec_lines(),
        s1.set_start(s1.addr_index(b)),
        s1.set_start(s1.addr_index(b)) + s1.spec_associativity(),
        1,
    )) by {
        assert(s1.spec_lines()[1].last_used == 0);
        assert(s1.spec_lines()[0].last_used == n1);
    }
    assert(is_min_write_time(
        s1.spec_lines(),
        s1.set_start(s1.addr_index(b)),
        s1.set_start(s1.addr_index(b)) + s1.spec_associativity(),
        1,
    )) by {
        assert(s1.spec_lines()[1].write_time == 0);
        assert(s1.spec_lines()[0].write_time == n1);
    }
    assert(s2.spec_lines() == s1.spec_lines().update(1, (CacheLine {
        tag: (s1.addr_tag(b)) as usize,
        write_time: s2.spec_instruction_number(),
        last_used: s2.spec_instruction_number(),
    })));
    let n2 = s2.spec_instruction_number();
    assert(s2.spec_lines()[0] == s1.spec_lines()[0]);
    assert(s2.spec_lines()[1] == (CacheLine { tag: tb as usize, write_time: n2, last_used: n2 }));

    // A's re-access hits its line, which must be line 0.
    assert(s2.spec_cached(a)) by {
        assert(s2.set_start(s2.addr_index(a)) == 0);
        assert(s2.spec_lines()[0].tag == s2.addr_tag(a));
    }
    let h = choose|l: int|
        #![trigger s2.spec_lines()[l]]
        {
            &&& s2.set_start(s2.addr_index(a)) <= l
                < s2.set_start(s2.addr_index(a)) + s2.spec_associativity()
            &&& s2.spec_lines()[l].tag == s2.addr_tag(a)
            &&& s3.spec_lines() == s2.spec_lines().update(l, (CacheLine {
                tag: s2.spec_lines()[l].tag,
                write_time: if w3 {
                    s3.spec_instruction_number()
                } else {
                    s2.spec_lines()[l].write_time
                },
                last_used: s3.spec_instruction_number(),
            }))
        };
    assert(h == 0) by {
        if h == 1 {
            assert(s2.spec_lines()[1].tag == tb as usize);
            assert(s2.addr_tag(a) == ta);
            assert(false);
        }
    }
    assert(s3.spec_lines()[0] == (CacheLine {
        tag: ta as usize,
        write_time: if w3 { s3.spec_instruction_number() } else { n1 },
        last_used: s3.spec_instruction_number(),
    }));
    assert(s3.spec_lines()[1] == s2.spec_lines()[1]);
    assert(forall|i: int| #[trigger] s3.set_start(i) == i * 2);
}

/// The simulated processor: a fixed associative cache in front of a flat
/// memory, with hit/miss and instruction counters.
#[derive(Debug)]
pub struct Cpu {
    cache_size: usize,
    block_size: usize,
    associativity: usize,
    replacement: ReplacementPolicy,
    cache_lines: usize,
    words: usize,
    read_hits: u64,
    read_misses: u64,
    write_hits: u64,
    write_misses: u64,
    instruction_number: u64,
    ram: Vec<u64>,
    lines: Vec<CacheLine>,
    data: Vec<u64>,
}

/// Both states carry the same geometry and replacement policy.
pub open spec fn same_config(a: Cpu, b: Cpu) -> bool {
    &&& b.spec_cache_size() == a.spec_cache_size()
    &&& b.spec_block_size() == a.spec_block_size()
    &&& b.spec_associativity() == a.spec_associativity()
    &&& b.spec_replacement() == a.spec_replacement()
    &&& b.spec_cache_lines() == a.spec_cache_lines()
    &&& b.spec_words() == a.spec_words()
}

impl Cpu {
    /// Total cache capacity in bytes.
    pub closed spec fn spec_cache_size(self) -> int {
        self.cache_size as int
    }

    /// Size of one block in bytes.
    pub closed spec fn spec_block_size(self) -> int {
        self.block_size as int
    }

    /// Lines per associative set.
    pub closed spec fn spec_associativity(self) -> int {
        self.associativity as int
    }

    /// The replacement policy fixed at construction.
    pub closed spec fn spec_replacement(self) -> ReplacementPolicy {
        self.replacement
    }

    /// Total number of cache lines.
    pub closed spec fn spec_cache_lines(self) -> int {
        self.cache_lines as int
    }

    /// Words per block.
    pub closed spec fn spec_words(self) -> int {
        self.words as int
    }

    /// Number of associative sets.
    pub open spec fn spec_n_sets(self) -> int {
        self.spec_cache_lines() / self.spec_associativity()
    }

    /// The backing Memory, one word per address.
    pub closed spec fn spec_mem(self) -> Seq<u64> {
        self.ram@
    }

    /// The cache lines' metadata: tag, fill time and last use of each
    /// physical slot, in line order.
    pub closed spec fn spec_lines(self) -> Seq<CacheLine> {
        self.lines@
    }

    /// Reads that found their block in the cache.
    pub closed spec fn spec_read_hits(self) -> u64 {
        self.read_hits
    }

    /// Reads that had to fill a line from Memory.
    pub closed spec fn spec_read_misses(self) -> u64 {
        self.read_misses
    }

    /// Writes that found their block in the cache.
    pub closed spec fn spec_write_hits(self) -> u64 {
        self.write_hits
    }

    /// Writes that had to fill a line from Memory.
    pub closed spec fn spec_write_misses(self) -> u64 {
        self.write_misses
    }

    /// How many loads and stores have been issued.
    pub closed spec fn spec_instruction_number(self) -> u64 {
        self.instruction_number
    }

    /// The tag of `address` under this cache's geometry.
    pub open spec fn addr_tag(self, address: int) -> int {
        spec_tag(address, self.spec_words(), self.spec_n_sets())
    }

    /// The set index of `address` under this cache's geometry.
    pub open spec fn addr_index(self, address: int) -> int {
        spec_set_index(address, self.spec_words(), self.spec_n_sets())
    }

    /// The associative set that line `l` belongs to.
    spec fn set_of(self, l: int) -> int {
        l / self.spec_associativity()
    }

    /// The first line of set `index`: the sets partition the line array
    /// into consecutive slices of `associativity` lines.
    pub open spec fn set_start(self, index: int) -> int {
        index * self.spec_associativity()
    }

    /// The word of line `l` at offset `i` within the flat data arena.
    spec fn line_word(self, l: int, i: int) -> u64 {
        self.data@[l * self.spec_words() + i]
    }

    /// The Memory address of the first word of the block held by line `l`.
    spec fn line_base(self, l: int) -> int {
        (self.lines@[l].tag * self.spec_n_sets() + self.set_of(l)) * self.spec_words()
    }

    /// A non-empty line mirrors its Memory block word for word.
    spec fn line_ok(self, l: int) -> bool {
        self.lines@[l].tag != EMPTY_TAG ==> {
            &&& 0 <= self.line_base(l)
            &&& self.line_base(l) + self.spec_words() <= self.ram@.len()
            &&& forall|i: int|
                0 <= i < self.spec_words()
                    ==> #[trigger] self.line_word(l, i) == self.ram@[self.line_base(l) + i]
        }
    }

    /// No two lines of one set hold the same non-empty tag.
    spec fn tags_distinct(self) -> bool {
        forall|l1: int, l2: int|
            #![trigger self.lines@[l1].tag, self.lines@[l2].tag]
            0 <= l1 < self.lines@.len() && 0 <= l2 < self.lines@.len() && l1 != l2
                && self.set_of(l1) == self.set_of(l2) && self.lines@[l1].tag != EMPTY_TAG
                ==> self.lines@[l1].tag != self.lines@[l2].tag
    }

    /// The geometry invariants and the arrays' fixed lengths, without the
    /// coherence of the lines.
    spec fn geometry_wf(self) -> bool {
        &&& self.words >= 1
        &&& self.spec_block_size() == WORD_BYTES as int * self.spec_words()
        &&& self.spec_cache_size() == self.spec_block_size() * self.spec_cache_lines()
        &&& 1 <= self.associativity <= self.cache_lines
        &&& self.cache_lines % self.associativity == 0
        &&& self.lines@.len() == self.cache_lines
        &&& self.data@.len() == self.spec_cache_lines() * self.spec_words()
        &&& self.ram@.len() as int % self.spec_words() == 0
    }

    /// Well-formedness: the geometry invariants hold, the arrays have their
    /// fixed lengths, and the cache is coherent with Memory.
    pub closed spec fn wf(self) -> bool {
        &&& self.geometry_wf()
        &&& forall|l: int| 0 <= l < self.spec_cache_lines() ==> #[trigger] self.line_ok(l)
        &&& self.tags_distinct()
    }

    /// Whether the block of `address` currently sits in the cache: some line
    /// of the address's set carries the address's tag.
    pub open spec fn spec_cached(self, address: int) -> bool {
        exists|l: int|
            self.set_start(self.addr_index(address)) <= l
                < self.set_start(self.addr_index(address)) + self.spec_associativity()
                && (#[trigger] self.spec_lines()[l].tag) == self.addr_tag(address)
    }

    /// The lines of set `index` lie within the line array.
    proof fn lemma_set_range(self, index: int)
        requires
            self.geometry_wf(),
            0 <= index < self.spec_n_sets(),
        ensures
            0 <= self.set_start(index),
            self.set_start(index) + self.spec_associativity() <= self.spec_cache_lines(),
    {
        lemma_fundamental_div_mod(self.spec_cache_lines(), self.spec_associativity());
        assert(self.set_start(index) >= 0 && (index + 1) * self.spec_associativity()
            <= self.spec_n_sets() * self.spec_associativity()) by (nonlinear_arith)
            requires
                0 <= index < self.spec_n_sets(),
                self.spec_associativity() >= 1,
        ;
        assert(self.spec_n_sets() * self.spec_associativity()
            == self.spec_associativity() * self.spec_n_sets()) by (nonlinear_arith);
        assert((index + 1) * self.spec_associativity()
            == self.set_start(index) + self.spec_associativity()) by (nonlinear_arith);
    }

    /// How an in-range address decomposes: offset, set index and tag are in
    /// their ranges, and block and offset reassemble to the address.
    proof fn lemma_addr_decomp(self, address: int)
        requires
            self.geometry_wf(),
            0 <= address,
        ensures
            self.spec_n_sets() >= 1,
            0 <= spec_offset(address, self.spec_words()) < self.spec_words(),
            0 <= spec_block(address, self.spec_words()),
            0 <= self.addr_index(address) < self.spec_n_sets(),
            0 <= self.addr_tag(address) <= address,
            spec_block(address, self.spec_words())
                == self.addr_tag(address) * self.spec_n_sets() + self.addr_index(address),
            address == spec_block(address, self.spec_words()) * self.spec_words()
                + spec_offset(address, self.spec_words()),
    {
        let w = self.spec_words();
        let block = spec_block(address, w);
        let n_sets = self.spec_n_sets();
        lemma_div_non_zero(self.spec_cache_lines(), self.spec_associativity());
        lemma_mod_bound(address, w);
        lemma_div_pos_is_pos(address, w);
        lemma_div_nonincreasing(address, w);
        lemma_mod_bound(block, n_sets);
        lemma_div_pos_is_pos(block, n_sets);
        lemma_div_nonincreasing(block, n_sets);
        lemma_fundamental_div_mod(address, w);
        lemma_fundamental_div_mod(block, n_sets);
        assert(w * block == block * w) by (nonlinear_arith);
        assert(n_sets * self.addr_tag(address) == self.addr_tag(address) * n_sets)
            by (nonlinear_arith);
    }

    /// Builds a cache of the given geometry over a zeroed Memory of
    /// `ram_size` words, all lines empty and all counters zero; rejects any
    /// geometry that violates the construction invariants, naming the first
    /// violated one.
    pub fn new(
        cache_size: usize,
        block_size: usize,
        associativity: usize,
        replacement: ReplacementPolicy,
        ram_size: usize,
    ) -> (r: Result<Cpu, ConfigError>)
        ensures
            match r {
                Ok(cpu) => {
                    &&& geometry_ok(cache_size as int, block_size as int, associativity as int, ram_size as int)
                    &&& cpu.wf()
                    &&& cpu.spec_cache_size() == cache_size
                    &&& cpu.spec_block_size() == block_size
                    &&& cpu.spec_associativity() == associativity
                    &&& cpu.spec_replacement() == replacement
                    &&& cpu.spec_cache_lines() == cache_size as int / block_size as int
                    &&& cpu.spec_words() == block_size as int / WORD_BYTES as int
                    &&& cpu.spec_mem().len() == ram_size
                    &&& forall|a: int| 0 <= a < ram_size ==> cpu.spec_mem()[a] == 0
                    &&& cpu.spec_read_hits() == 0
                    &&& cpu.spec_read_misses() == 0
                    &&& cpu.spec_write_hits() == 0
                    &&& cpu.spec_write_misses() == 0
                    &&& cpu.spec_instruction_number() == 0
                    &&& cpu.spec_lines().len() == cache_size as int / block_size as int
                    &&& forall|l: int| 0 <= l < cpu.spec_lines().len()
                        ==> (#[trigger] cpu.spec_lines()[l])
                            == (CacheLine { tag: EMPTY_TAG, write_time: 0, last_used: 0 })
                    &&& forall|a: int| 0 <= a < ram_size ==> !cpu.spec_cached(a)
                },
                Err(e) => {
                    &&& !geometry_ok(cache_size as int, block_size as int, associativity as int, ram_size as int)
                    &&& (e == ConfigError::BlockSizeNotWordMultiple <==> !(block_size > 0
                        && block_size as int % (WORD_BYTES as int) == 0))
                    &&& (e == ConfigError::RamSizeNotBlockMultiple <==> block_size > 0
                        && block_size as int % (WORD_BYTES as int) == 0
                        && ram_size as int % (block_size as int) != 0)
                    &&& (e == ConfigError::CacheSizeNotBlockMultiple <==> block_size > 0
                        && block_size as int % (WORD_BYTES as int) == 0
                        && ram_size as int % (block_size as int) == 0
                        && cache_size as int % (block_size as int) != 0)
                    &&& (e == ConfigError::UnevenSets <==> block_size > 0
                        && block_size as int % (WORD_BYTES as int) == 0
                        && ram_size as int % (block_size as int) == 0
                        && cache_size as int % (block_size as int) == 0
                        && !(associativity > 0
                            && (cache_size as int / block_size as int) % (associativity as int) == 0))
                    &&& (e == ConfigError::AssociativityTooLarge <==> block_size > 0
                        && block_size as int % (WORD_BYTES as int) == 0
                        && ram_size as int % (block_size as int) == 0
                        && cache_size as int % (block_size as int) == 0
                        && associativity > 0
                        && (cache_size as int / block_size as int) % (associativity as int) == 0
                        && associativity as int > cache_size as int / block_size as int)
                },
            },
    {
        if block_size == 0 || block_size % WORD_BYTES != 0 {
            return Err(ConfigError::BlockSizeNotWordMultiple);
        }
        if ram_size % block_size != 0 {
            return Err(ConfigError::RamSizeNotBlockMultiple);
        }
        if cache_size % block_size != 0 {
            return Err(ConfigError::CacheSizeNotBlockMultiple);
        }
        let cache_lines = cache_size / block_size;
        if associativity == 0 || cache_lines % associativity != 0 {
            return Err(ConfigError::UnevenSets);
        }
        if associativity > cache_lines {
            return Err(ConfigError::AssociativityTooLarge);
        }
        let words = block_size / WORD_BYTES;

        proof {
            lemma_fundamental_div_mod(block_size as int, WORD_BYTES as int);
            lemma_fundamental_div_mod(cache_size as int, block_size as int);
            lemma_fundamental_div_mod(ram_size as int, block_size as int);
        }
        assert(block_size as int == WORD_BYTES as int * words as int);
        assert(words >= 1);
        assert(cache_size as int == block_size as int * cache_lines as int);
        assert(cache_lines as int * words as int <= cache_size as int
            && cache_lines as int * words as int == cache_size as int / WORD_BYTES as int)
            by (nonlinear_arith)
            requires
                cache_size as int == (WORD_BYTES as int * words as int) * cache_lines as int,
                words as int >= 1,
                cache_lines as int >= 0,
                WORD_BYTES == 8usize,
        ;
        assert(ram_size as int % words as int == 0) by {
            let q = ram_size as int / block_size as int;
            assert(ram_size as int == (WORD_BYTES as int * words as int) * q);
            assert((WORD_BYTES as int * words as int) * q == (WORD_BYTES as int * q) * words as int)
                by (nonlinear_arith);
            lemma_mod_multiples_basic(WORD_BYTES as int * q, words as int);
        }

        let ram = zero_vec(ram_size);
        let data = zero_vec(cache_lines * words);
        let lines = empty_lines(cache_lines);

        let cpu = Cpu {
            cache_size,
            block_size,
            associativity,
            replacement,
            cache_lines,
            words,
            read_hits: 0,
            read_misses: 0,
            write_hits: 0,
            write_misses: 0,
            instruction_number: 0,
            ram,
            lines,
            data,
        };

        proof {
            assert forall|l: int| 0 <= l < cpu.spec_cache_lines() implies #[trigger] cpu.line_ok(l) by {
                assert(cpu.lines@[l].tag == EMPTY_TAG);
            }
            assert forall|a: int| 0 <= a < ram_size implies !cpu.spec_cached(a) by {
                if cpu.spec_cached(a) {
                    let l = choose|l: int|
                        cpu.set_start(cpu.addr_index(a)) <= l
                            < cpu.set_start(cpu.addr_index(a)) + cpu.spec_associativity()
                            && (#[trigger] cpu.spec_lines()[l].tag) == cpu.addr_tag(a);
                    cpu.lemma_addr_decomp(a);
                    cpu.lemma_set_range(cpu.addr_index(a));
                    assert(0 <= l < cpu.spec_cache_lines());
                    assert(cpu.lines@[l].tag == EMPTY_TAG);
                    assert(cpu.addr_tag(a) <= a < EMPTY_TAG as int);
                }
            }
        }
        Ok(cpu)
    }

    /// Decomposes an address into `(tag, set index, word offset)`:
    /// the offset is the address modulo the words per block, the set index is
    /// the block number modulo the set count, and the tag is the block number
    /// divided by the set count.
    pub fn parts(&self, address: usize) -> (r: (usize, usize, usize))
        requires
            self.wf(),
            address < self.spec_mem().len(),
        ensures
            r.0 == self.addr_tag(address as int),
            r.1 == self.addr_index(address as int),
            r.2 == spec_offset(address as int, self.spec_words()),
            r.1 < self.spec_n_sets(),
            r.0 < EMPTY_TAG,
    {
        let ram_len = self.ram.len();
        proof {
            self.lemma_addr_decomp(address as int);
            assert(address < ram_len <= usize::MAX);
        }
        let offset = address % self.words;
        let block = address / self.words;
        let n_sets = self.cache_lines / self.associativity;
        let index = block % n_sets;
        let tag = block / n_sets;
        (tag, index, offset)
    }

    /// Line `l` belongs to set `index` exactly when it lies in the set's
    /// slice of the line array.
    proof fn lemma_set_membership(self, index: int, l: int)
        requires
            self.geometry_wf(),
            0 <= index < self.spec_n_sets(),
            0 <= l < self.spec_cache_lines(),
        ensures
            self.set_of(l) == index
                <==> self.set_start(index) <= l < self.set_start(index) + self.spec_associativity(),
    {
        let asc = self.spec_associativity();
        lemma_fundamental_div_mod(l, asc);
        lemma_mod_bound(l, asc);
        assert(asc * (l / asc) == (l / asc) * asc) by (nonlinear_arith);
        assert(asc * index == index * asc) by (nonlinear_arith);
        if self.set_start(index) <= l < self.set_start(index) + asc {
            lemma_fundamental_div_mod_converse(l, asc, index, l - index * asc);
        }
    }

    /// A non-empty line whose block range covers `address` must carry the
    /// address's tag and sit in the address's set.
    proof fn lemma_covering_line(self, l: int, address: int)
        requires
            self.geometry_wf(),
            0 <= address,
            0 <= l < self.spec_cache_lines(),
            self.lines@[l].tag != EMPTY_TAG,
            self.line_base(l) <= address < self.line_base(l) + self.spec_words(),
        ensures
            self.lines@[l].tag == self.addr_tag(address),
            self.set_of(l) == self.addr_index(address),
    {
        let w = self.spec_words();
        let n_sets = self.spec_n_sets();
        let asc = self.spec_associativity();
        let t = self.lines@[l].tag as int;
        let s = self.set_of(l);
        let b = t * n_sets + s;
        lemma_div_non_zero(self.spec_cache_lines(), asc);
        lemma_div_pos_is_pos(l, asc);
        lemma_fundamental_div_mod(self.spec_cache_lines(), asc);
        lemma_multiply_divide_lt(l, asc, n_sets);
        assert(0 <= s < n_sets);
        lemma_fundamental_div_mod_converse(address, w, b, address - b * w);
        lemma_fundamental_div_mod_converse(b, n_sets, t, s);
    }

    /// A line in the address's set that carries the address's tag holds the
    /// address's block, whose base the address's offset leads back from.
    proof fn lemma_line_for_address(self, line: int, address: int)
        requires
            self.geometry_wf(),
            0 <= address,
            0 <= line < self.spec_cache_lines(),
            self.set_of(line) == self.addr_index(address),
            self.lines@[line].tag == self.addr_tag(address),
        ensures
            self.line_base(line) == spec_block(address, self.spec_words()) * self.spec_words(),
            self.line_base(line) + spec_offset(address, self.spec_words()) == address,
    {
        self.lemma_addr_decomp(address);
    }

    /// Well-formedness carries over to a state with the same geometry and
    /// arrays and pointwise-equal line tags.
    proof fn lemma_wf_same_arrays(self, other: Cpu)
        requires
            self.wf(),
            other.cache_size == self.cache_size,
            other.block_size == self.block_size,
            other.associativity == self.associativity,
            other.cache_lines == self.cache_lines,
            other.words == self.words,
            other.ram@ == self.ram@,
            other.data@ == self.data@,
            other.lines@.len() == self.lines@.len(),
            forall|l: int|
                0 <= l < self.lines@.len()
                    ==> (#[trigger] other.lines@[l]).tag == self.lines@[l].tag,
        ensures
            other.wf(),
    {
        assert forall|l: int| 0 <= l < other.spec_cache_lines() implies #[trigger] other.line_ok(l) by {
            assert(self.line_ok(l));
            assert(other.line_base(l) == self.line_base(l));
            if other.lines@[l].tag != EMPTY_TAG {
                assert forall|i: int|
                    0 <= i < other.spec_words()
                        implies #[trigger] other.line_word(l, i)
                            == other.ram@[other.line_base(l) + i] by {
                    assert(self.line_word(l, i) == self.ram@[self.line_base(l) + i]);
                }
            }
        }
        assert forall|l1: int, l2: int|
            #![trigger other.lines@[l1].tag, other.lines@[l2].tag]
            0 <= l1 < other.lines@.len() && 0 <= l2 < other.lines@.len() && l1 != l2
                && other.set_of(l1) == other.set_of(l2) && other.lines@[l1].tag != EMPTY_TAG
                implies other.lines@[l1].tag != other.lines@[l2].tag by {
            assert(self.lines@[l1].tag != EMPTY_TAG);
            assert(self.set_of(l1) == self.set_of(l2));
            assert(self.lines@[l1].tag != self.lines@[l2].tag);
        }
    }

    /// Whether an address is cached depends only on the geometry and the
    /// line tags.
    proof fn lemma_cached_same_tags(self, other: Cpu, address: int)
        requires
            self.geometry_wf(),
            0 <= address,
            other.associativity == self.associativity,
            other.cache_lines == self.cache_lines,
            other.words == self.words,
            other.lines@.len() == self.lines@.len(),
            forall|l: int|
                0 <= l < self.lines@.len()
                    ==> (#[trigger] other.lines@[l]).tag == self.lines@[l].tag,
        ensures
            other.spec_cached(address) == self.spec_cached(address),
    {
        self.lemma_addr_decomp(address);
        self.lemma_set_range(self.addr_index(address));
        let index = self.addr_index(address);
        assert(other.addr_index(address) == index);
        assert(other.addr_tag(address) == self.addr_tag(address));
        if self.spec_cached(address) {
            let l = choose|l: int|
                self.set_start(index) <= l < self.set_start(index) + self.spec_associativity()
                    && (#[trigger] self.spec_lines()[l].tag) == self.addr_tag(address);
            assert(other.spec_lines()[l].tag == other.addr_tag(address));
        }
        if other.spec_cached(address) {
            let l = choose|l: int|
                other.set_start(other.addr_index(address)) <= l
                    < other.set_start(other.addr_index(address)) + other.spec_associativity()
                    && (#[trigger] other.spec_lines()[l].tag) == other.addr_tag(address);
            assert(self.spec_lines()[l].tag == self.addr_tag(address));
        }
    }

    /// Tag distinctness depends only on the associativity and the tags.
    proof fn lemma_tags_distinct_same_tags(self, other: Cpu)
        requires
            self.tags_distinct(),
            other.associativity == self.associativity,
            other.lines@.len() == self.lines@.len(),
            forall|l: int|
                0 <= l < self.lines@.len()
                    ==> (#[trigger] other.lines@[l]).tag == self.lines@[l].tag,
        ensures
            other.tags_distinct(),
    {
        assert forall|l1: int, l2: int|
            #![trigger other.lines@[l1].tag, other.lines@[l2].tag]
            0 <= l1 < other.lines@.len() && 0 <= l2 < other.lines@.len() && l1 != l2
                && other.set_of(l1) == other.set_of(l2) && other.lines@[l1].tag != EMPTY_TAG
                implies other.lines@[l1].tag != other.lines@[l2].tag by {
            assert(self.lines@[l1].tag != EMPTY_TAG);
            assert(self.set_of(l1) == self.set_of(l2));
            assert(self.lines@[l1].tag != self.lines@[l2].tag);
        }
    }

    /// Well-formedness survives emptying one line.
    proof fn lemma_wf_invalidate(self, other: Cpu, victim: int)
        requires
            self.wf(),
            0 <= victim < self.spec_cache_lines(),
            other.cache_size == self.cache_size,
            other.block_size == self.block_size,
            other.associativity == self.associativity,
            other.cache_lines == self.cache_lines,
            other.words == self.words,
            other.ram@ == self.ram@,
            other.data@ == self.data@,
            other.lines@.len() == self.lines@.len(),
            other.lines@[victim].tag == EMPTY_TAG,
            forall|l: int|
                0 <= l < self.lines@.len() && l != victim
                    ==> #[trigger] other.lines@[l] == self.lines@[l],
        ensures
            other.wf(),
    {
        assert forall|l: int| 0 <= l < other.spec_cache_lines() implies #[trigger] other.line_ok(l) by {
            assert(self.line_ok(l));
            if l != victim && other.lines@[l].tag != EMPTY_TAG {
                assert(other.line_base(l) == self.line_base(l));
                assert forall|i: int|
                    0 <= i < other.spec_words()
                        implies #[trigger] other.line_word(l, i)
                            == other.ram@[other.line_base(l) + i] by {
                    assert(self.line_word(l, i) == self.ram@[self.line_base(l) + i]);
                }
            }
        }
        assert forall|l1: int, l2: int|
            #![trigger other.lines@[l1].tag, other.lines@[l2].tag]
            0 <= l1 < other.lines@.len() && 0 <= l2 < other.lines@.len() && l1 != l2
                && other.set_of(l1) == other.set_of(l2) && other.lines@[l1].tag != EMPTY_TAG
                implies other.lines@[l1].tag != other.lines@[l2].tag by {
            assert(l1 != victim);
            if l2 != victim {
                assert(self.lines@[l1].tag != self.lines@[l2].tag);
            }
        }
    }

    /// Copies the aligned Memory block of `address` into line `replacement`
    /// and stamps the line with the address's tag and the current instruction
    /// number as its `write_time`.  The victim must sit in the address's set,
    /// and no line of that set may already hold the tag.
    fn fill_on_miss(&mut self, address: usize, replacement: usize, tag: usize)
        requires
            old(self).wf(),
            address < old(self).spec_mem().len(),
            tag == old(self).addr_tag(address as int),
            old(self).set_start(old(self).addr_index(address as int)) <= replacement
                < old(self).set_start(old(self).addr_index(address as int))
                    + old(self).spec_associativity(),
            forall|l: int|
                0 <= l < old(self).lines@.len()
                    && old(self).set_start(old(self).addr_index(address as int)) <= l
                    < old(self).set_start(old(self).addr_index(address as int))
                        + old(self).spec_associativity()
                    ==> (#[trigger] old(self).lines@[l].tag) != tag,
        ensures
            final(self).wf(),
            same_config(*old(self), *final(self)),
            final(self).spec_mem() == old(self).spec_mem(),
            final(self).spec_read_hits() == old(self).spec_read_hits(),
            final(self).spec_read_misses() == old(self).spec_read_misses(),
            final(self).spec_write_hits() == old(self).spec_write_hits(),
            final(self).spec_write_misses() == old(self).spec_write_misses(),
            final(self).spec_instruction_number() == old(self).spec_instruction_number(),
            final(self).lines@.len() == old(self).lines@.len(),
            forall|l: int|
                0 <= l < old(self).lines@.len() && l != replacement
                    ==> #[trigger] final(self).lines@[l] == old(self).lines@[l],
            final(self).lines@[replacement as int].tag == tag,
            final(self).lines@[replacement as int].write_time
                == old(self).spec_instruction_number(),
            final(self).lines@[replacement as int].last_used
                == old(self).lines@[replacement as int].last_used,
            final(self).spec_cached(address as int),
    {
        let words = self.words;
        let ram_len = self.ram.len();
        proof {
            self.lemma_addr_decomp(address as int);
            self.lemma_set_range(self.addr_index(address as int));
            self.lemma_set_membership(self.addr_index(address as int), replacement as int);
            assert(replacement < self.spec_cache_lines());
            assert((replacement as int) * (words as int) + (words as int)
                <= self.spec_cache_lines() * self.spec_words()) by (nonlinear_arith)
                requires
                    0 <= (replacement as int) < self.spec_cache_lines(),
                    words as int == self.spec_words(),
                    words as int >= 1,
            ;
        }
        let block = address / words;
        proof {
            lemma_fundamental_div_mod(address as int, words as int);
            assert((words as int) * (block as int) == (block as int) * (words as int))
                by (nonlinear_arith);
            assert((block as int) * (words as int) <= address as int);
        }
        let base = block * words;
        proof {
            lemma_fundamental_div_mod(ram_len as int, words as int);
            assert(ram_len as int == (words as int) * (ram_len as int / words as int));
            assert(base as int + words as int <= ram_len as int) by (nonlinear_arith)
                requires
                    ram_len as int == (words as int) * (ram_len as int / words as int),
                    base as int == (block as int) * (words as int),
                    base as int <= address as int,
                    (address as int) < ram_len as int,
                    words as int >= 1,
            ;
        }

        let mut cleared = self.lines[replacement];
        cleared.tag = EMPTY_TAG;
        self.lines.set(replacement, cleared);
        proof {
            old(self).lemma_wf_invalidate(*self, replacement as int);
        }
        let ghost s1 = *self;
        let data_len = self.data.len();

        let mut i: usize = 0;
        while i < words
            invariant
                i <= words,
                self.data@.len() == data_len,
                self.ram@.len() == ram_len,
                words == self.words,
                self.cache_size == s1.cache_size,
                self.block_size == s1.block_size,
                self.associativity == s1.associativity,
                self.replacement == s1.replacement,
                self.cache_lines == s1.cache_lines,
                self.words == s1.words,
                self.read_hits == s1.read_hits,
                self.read_misses == s1.read_misses,
                self.write_hits == s1.write_hits,
                self.write_misses == s1.write_misses,
                self.instruction_number == s1.instruction_number,
                self.ram@ == s1.ram@,
                self.lines@ == s1.lines@,
                self.data@.len() == s1.data@.len(),
                replacement < self.cache_lines,
                (replacement as int) * (words as int) + (words as int) <= self.data@.len(),
                base as int + words as int <= self.ram@.len(),
                forall|j: int|
                    0 <= j < self.data@.len()
                        && !((replacement as int) * (words as int) <= j
                            < (replacement as int) * (words as int) + i)
                        ==> (#[trigger] self.data@[j]) == s1.data@[j],
                forall|j: int|
                    (replacement as int) * (words as int) <= j
                        < (replacement as int) * (words as int) + i
                        ==> (#[trigger] self.data@[j])
                            == self.ram@[base as int + (j - (replacement as int) * (words as int))],
            decreases words - i,
        {
            let v = self.ram[base + i];
            self.data.set(replacement * words + i, v);
            i = i + 1;
        }

        let mut meta = self.lines[replacement];
        meta.tag = tag;
        meta.write_time = self.instruction_number;
        self.lines.set(replacement, meta);

        proof {
            let o = *old(self);
            let f = *self;
            assert(f.geometry_wf());
            assert(tag < EMPTY_TAG) by {
                assert(o.addr_tag(address as int) <= address);
                assert(address < ram_len <= usize::MAX);
            }
            assert(f.set_of(replacement as int) == o.set_of(replacement as int));
            assert(f.addr_tag(address as int) == o.addr_tag(address as int));
            assert(f.addr_index(address as int) == o.addr_index(address as int));
            f.lemma_line_for_address(replacement as int, address as int);
            assert(f.line_base(replacement as int) == base as int);

            assert forall|l: int| 0 <= l < f.spec_cache_lines() implies #[trigger] f.line_ok(l) by {
                if l == replacement {
                    assert forall|i2: int|
                        0 <= i2 < f.spec_words()
                            implies #[trigger] f.line_word(l, i2)
                                == f.ram@[f.line_base(l) + i2] by {
                        assert(f.data@[(replacement as int) * (words as int) + i2]
                            == f.ram@[base as int + i2]);
                    }
                } else {
                    assert(o.line_ok(l));
                    assert(f.lines@[l] == o.lines@[l]);
                    if f.lines@[l].tag != EMPTY_TAG {
                        assert(f.line_base(l) == o.line_base(l));
                        assert forall|i2: int|
                            0 <= i2 < f.spec_words()
                                implies #[trigger] f.line_word(l, i2)
                                    == f.ram@[f.line_base(l) + i2] by {
                            lemma_cell_owner(words as int, l, replacement as int, i2);
                            assert(0 <= l * (words as int) + i2 < f.data@.len())
                                by (nonlinear_arith)
                                requires
                                    0 <= l < f.spec_cache_lines(),
                                    0 <= i2 < (words as int),
                                    (words as int) == f.spec_words(),
                                    f.data@.len() == f.spec_cache_lines() * f.spec_words(),
                            ;
                            assert(f.data@[l * (words as int) + i2]
                                == s1.data@[l * (words as int) + i2]);
                            assert(o.line_word(l, i2) == o.ram@[o.line_base(l) + i2]);
                        }
                    }
                }
            }

            assert forall|l1: int, l2: int|
                #![trigger f.lines@[l1].tag, f.lines@[l2].tag]
                0 <= l1 < f.lines@.len() && 0 <= l2 < f.lines@.len() && l1 != l2
                    && f.set_of(l1) == f.set_of(l2) && f.lines@[l1].tag != EMPTY_TAG
                    implies f.lines@[l1].tag != f.lines@[l2].tag by {
                if l1 == replacement {
                    assert(o.set_of(l2) == o.set_of(replacement as int));
                    o.lemma_set_membership(o.addr_index(address as int), l2);
                    assert(o.lines@[l2].tag != tag);
                    assert(f.lines@[l2].tag == o.lines@[l2].tag);
                } else if l2 == replacement {
                    assert(o.set_of(l1) == o.set_of(replacement as int));
                    o.lemma_set_membership(o.addr_index(address as int), l1);
                    assert(o.lines@[l1].tag != tag);
                    assert(f.lines@[l1].tag == o.lines@[l1].tag);
                } else {
                    assert(o.lines@[l1].tag != o.lines@[l2].tag);
                }
            }
            assert(f.wf());
            assert(f.lines@[replacement as int].tag == f.addr_tag(address as int));
            assert(f.spec_lines()[replacement as int].tag == f.addr_tag(address as int));
            assert(f.spec_cached(address as int));
        }
    }

    /// How the set of cached blocks may change across one access that
    /// resolves to `line`: a hit changes nothing; other sets keep every
    /// block; only the accessed block enters; and whatever leaves came from
    /// one single line, so all evicted addresses share one block.
    proof fn lemma_access_cached_frame(o: Cpu, f: Cpu, address: int, line: int, hit: bool)
        requires
            o.wf(),
            f.wf(),
            0 <= address < o.spec_mem().len(),
            same_config(o, f),
            f.lines@.len() == o.lines@.len(),
            0 <= line < o.spec_cache_lines(),
            o.set_of(line) == o.addr_index(address),
            f.lines@[line].tag == f.addr_tag(address),
            forall|l: int|
                0 <= l < o.lines@.len() && l != line
                    ==> (#[trigger] f.lines@[l]).tag == o.lines@[l].tag,
            hit ==> f.lines@[line].tag == o.lines@[line].tag,
            hit == o.spec_cached(address),
        ensures
            hit ==> forall|a2: int|
                0 <= a2 < o.spec_mem().len()
                    ==> (f.spec_cached(a2) <==> o.spec_cached(a2)),
            forall|a2: int|
                0 <= a2 < o.spec_mem().len() && o.spec_cached(a2)
                    && o.addr_index(a2) != o.addr_index(address)
                    ==> f.spec_cached(a2),
            forall|a2: int|
                0 <= a2 < o.spec_mem().len() && f.spec_cached(a2)
                    ==> o.spec_cached(a2)
                        || (o.addr_tag(a2) == o.addr_tag(address)
                            && o.addr_index(a2) == o.addr_index(address)),
            forall|a2: int, a3: int|
                #![trigger o.spec_cached(a2), o.spec_cached(a3)]
                0 <= a2 < o.spec_mem().len() && 0 <= a3 < o.spec_mem().len()
                    && o.spec_cached(a2) && o.spec_cached(a3)
                    && !f.spec_cached(a2) && !f.spec_cached(a3)
                    ==> o.addr_tag(a2) == o.addr_tag(a3)
                        && o.addr_index(a2) == o.addr_index(a3),
    {
        if hit {
            assert forall|a2: int|
                0 <= a2 < o.spec_mem().len()
                    implies (f.spec_cached(a2) <==> o.spec_cached(a2)) by {
                o.lemma_cached_same_tags(f, a2);
            }
        }
        assert forall|a2: int|
            0 <= a2 < o.spec_mem().len() && o.spec_cached(a2)
                && o.addr_index(a2) != o.addr_index(address)
                implies f.spec_cached(a2) by {
            o.lemma_addr_decomp(a2);
            o.lemma_set_range(o.addr_index(a2));
            let l2 = choose|l2: int|
                o.set_start(o.addr_index(a2)) <= l2
                    < o.set_start(o.addr_index(a2)) + o.spec_associativity()
                    && (#[trigger] o.spec_lines()[l2].tag) == o.addr_tag(a2);
            o.lemma_set_membership(o.addr_index(a2), l2);
            assert(l2 != line);
            assert(f.addr_index(a2) == o.addr_index(a2));
            assert(f.addr_tag(a2) == o.addr_tag(a2));
            assert(f.set_start(f.addr_index(a2)) == o.set_start(o.addr_index(a2)));
            assert(f.spec_lines()[l2].tag == f.addr_tag(a2));
        }
        assert forall|a2: int|
            0 <= a2 < o.spec_mem().len() && f.spec_cached(a2)
                implies o.spec_cached(a2)
                    || (o.addr_tag(a2) == o.addr_tag(address)
                        && o.addr_index(a2) == o.addr_index(address)) by {
            f.lemma_addr_decomp(a2);
            f.lemma_set_range(f.addr_index(a2));
            let l2 = choose|l2: int|
                f.set_start(f.addr_index(a2)) <= l2
                    < f.set_start(f.addr_index(a2)) + f.spec_associativity()
                    && (#[trigger] f.spec_lines()[l2].tag) == f.addr_tag(a2);
            f.lemma_set_membership(f.addr_index(a2), l2);
            assert(f.addr_index(a2) == o.addr_index(a2));
            assert(f.addr_tag(a2) == o.addr_tag(a2));
            if l2 == line {
                assert(o.addr_tag(a2) == o.addr_tag(address));
                assert(f.set_of(line) == o.set_of(line));
                assert(o.addr_index(a2) == o.addr_index(address));
            } else {
                assert(o.spec_lines()[l2].tag == o.addr_tag(a2));
                assert(o.set_start(o.addr_index(a2)) == f.set_start(f.addr_index(a2)));
                assert(o.spec_cached(a2));
            }
        }
        assert forall|a2: int, a3: int|
            #![trigger o.spec_cached(a2), o.spec_cached(a3)]
            0 <= a2 < o.spec_mem().len() && 0 <= a3 < o.spec_mem().len()
                && o.spec_cached(a2) && o.spec_cached(a3)
                && !f.spec_cached(a2) && !f.spec_cached(a3)
                implies o.addr_tag(a2) == o.addr_tag(a3)
                    && o.addr_index(a2) == o.addr_index(a3) by {
            Self::lemma_evicted_from_line(o, f, line, a2);
            Self::lemma_evicted_from_line(o, f, line, a3);
        }
    }

    /// A block that was cached before an access that resolves to `line` and
    /// is cached no longer must have sat in that very line.
    proof fn lemma_evicted_from_line(o: Cpu, f: Cpu, line: int, a2: int)
        requires
            o.wf(),
            f.wf(),
            same_config(o, f),
            f.lines@.len() == o.lines@.len(),
            0 <= line < o.spec_cache_lines(),
            0 <= a2 < o.spec_mem().len(),
            o.spec_cached(a2),
            !f.spec_cached(a2),
            forall|l: int|
                0 <= l < o.lines@.len() && l != line
                    ==> (#[trigger] f.lines@[l]).tag == o.lines@[l].tag,
        ensures
            o.addr_tag(a2) == o.lines@[line].tag,
            o.addr_index(a2) == o.set_of(line),
    {
        o.lemma_addr_decomp(a2);
        o.lemma_set_range(o.addr_index(a2));
        let l2 = choose|l2: int|
            o.set_start(o.addr_index(a2)) <= l2
                < o.set_start(o.addr_index(a2)) + o.spec_associativity()
                && (#[trigger] o.spec_lines()[l2].tag) == o.addr_tag(a2);
        o.lemma_set_membership(o.addr_index(a2), l2);
        if l2 != line {
            assert(f.lines@[l2].tag == o.addr_tag(a2));
            assert(f.addr_index(a2) == o.addr_index(a2));
            assert(f.addr_tag(a2) == o.addr_tag(a2));
            assert(f.set_start(f.addr_index(a2)) == o.set_start(o.addr_index(a2)));
            assert(f.spec_lines()[l2].tag == f.addr_tag(a2));
            assert(f.spec_cached(a2));
            assert(false);
        }
    }

    /// Looks the tag up in set `index`: `Ok(line)` when some line of the set
    /// holds it, else `Err(victim)` with the victim line the replacement
    /// policy picks for the set.
    fn check_cache(&self, tag: usize, index: usize) -> (r: Result<usize, usize>)
        requires
            self.wf(),
            index < self.spec_n_sets(),
        ensures
            ({
                let start = self.set_start(index as int);
                let end = start + self.spec_associativity();
                match r {
                    Ok(line) => {
                        &&& start <= line < end
                        &&& self.lines@[line as int].tag == tag
                    },
                    Err(victim) => {
                        &&& forall|l: int| start <= l < end ==> (#[trigger] self.lines@[l].tag) != tag
                        &&& start <= victim < end
                        &&& self.spec_replacement() == ReplacementPolicy::LRU
                            ==> is_min_last_used(self.lines@, start, end, victim as int)
                        &&& self.spec_replacement() == ReplacementPolicy::FIFO
                            ==> is_min_write_time(self.lines@, start, end, victim as int)
                    },
                }
            }),
    {
        proof {
            self.lemma_set_range(index as int);
        }
        let start = index * self.associativity;
        let end = start + self.associativity;
        let mut l = start;
        while l < end
            invariant
                start == self.set_start(index as int),
                end == start + self.spec_associativity(),
                end <= self.lines@.len(),
                start <= l <= end,
                forall|k: int| start <= k < l ==> (#[trigger] self.lines@[k].tag) != tag,
            decreases end - l,
        {
            if self.lines[l].tag == tag {
                return Ok(l);
            }
            l = l + 1;
        }
        let victim = select_victim(self.replacement, &self.lines, start, self.associativity);
        Err(victim)
    }

    /// Resolves `address` to a line that holds its block, filling a victim
    /// line from Memory first on a miss (the fill synchronizes the line with
    /// Memory and stamps its `write_time`); marks the line used now and
    /// reports whether the access hit.
    fn get_cache(&mut self, address: usize) -> (r: (usize, usize, bool))
        requires
            old(self).wf(),
            address < old(self).spec_mem().len(),
        ensures
            ({
                let (line, offset, is_hit) = r;
                &&& final(self).wf()
                &&& same_config(*old(self), *final(self))
                &&& final(self).spec_mem() == old(self).spec_mem()
                &&& final(self).spec_read_hits() == old(self).spec_read_hits()
                &&& final(self).spec_read_misses() == old(self).spec_read_misses()
                &&& final(self).spec_write_hits() == old(self).spec_write_hits()
                &&& final(self).spec_write_misses() == old(self).spec_write_misses()
                &&& final(self).spec_instruction_number() == old(self).spec_instruction_number()
                &&& is_hit == old(self).spec_cached(address as int)
                &&& final(self).spec_cached(address as int)
                &&& offset == spec_offset(address as int, final(self).spec_words())
                &&& line < final(self).spec_cache_lines()
                &&& final(self).set_of(line as int) == final(self).addr_index(address as int)
                &&& final(self).lines@[line as int].tag == final(self).addr_tag(address as int)
                &&& final(self).addr_tag(address as int) < EMPTY_TAG
                &&& line as int * final(self).spec_words() + offset < final(self).data@.len()
                &&& final(self).line_word(line as int, offset as int)
                    == old(self).spec_mem()[address as int]
                &&& forall|l: int|
                    0 <= l < final(self).spec_cache_lines() && l != line
                        ==> (#[trigger] final(self).lines@[l]).tag == old(self).lines@[l].tag
                &&& is_hit ==> final(self).lines@[line as int].tag
                    == old(self).lines@[line as int].tag
                &&& final(self).lines@[line as int].last_used
                    == old(self).spec_instruction_number()
                &&& is_hit ==> final(self).data@ == old(self).data@
                &&& is_hit ==> final(self).lines@ == old(self).lines@.update(
                    line as int,
                    (CacheLine {
                        tag: old(self).lines@[line as int].tag,
                        write_time: old(self).lines@[line as int].write_time,
                        last_used: old(self).spec_instruction_number(),
                    }),
                )
                &&& !is_hit ==> final(self).lines@ == old(self).lines@.update(
                    line as int,
                    (CacheLine {
                        tag: (old(self).addr_tag(address as int)) as usize,
                        write_time: old(self).spec_instruction_number(),
                        last_used: old(self).spec_instruction_number(),
                    }),
                )
                &&& !is_hit && old(self).spec_replacement() == ReplacementPolicy::LRU
                    ==> is_min_last_used(
                        old(self).lines@,
                        old(self).set_start(old(self).addr_index(address as int)),
                        old(self).set_start(old(self).addr_index(address as int))
                            + old(self).spec_associativity(),
                        line as int,
                    )
                &&& !is_hit && old(self).spec_replacement() == ReplacementPolicy::FIFO
                    ==> is_min_write_time(
                        old(self).lines@,
                        old(self).set_start(old(self).addr_index(address as int)),
                        old(self).set_start(old(self).addr_index(address as int))
                            + old(self).spec_associativity(),
                        line as int,
                    )
            }),
    {
        let ghost s0 = *self;
        let (tag, index, offset) = self.parts(address);
        let words = self.words;
        let ram_len = self.ram.len();
        proof {
            self.lemma_addr_decomp(address as int);
            self.lemma_set_range(index as int);
        }
        let (line, is_hit) = match self.check_cache(tag, index) {
            Ok(line) => {
                proof {
                    s0.lemma_set_membership(index as int, line as int);
                    s0.lemma_line_for_address(line as int, address as int);
                    assert(s0.spec_lines()[line as int].tag == s0.addr_tag(address as int));
                    assert(s0.spec_cached(address as int));
                    assert(s0.line_ok(line as int));
                    assert(s0.line_word(line as int, offset as int)
                        == s0.ram@[s0.line_base(line as int) + offset]);
                    assert(s0.line_word(line as int, offset as int)
                        == s0.spec_mem()[address as int]);
                }
                (line, true)
            },
            Err(replacement) => {
                proof {
                    if s0.spec_cached(address as int) {
                        let l = choose|l: int|
                            s0.set_start(s0.addr_index(address as int)) <= l
                                < s0.set_start(s0.addr_index(address as int))
                                    + s0.spec_associativity()
                                && (#[trigger] s0.spec_lines()[l].tag) == s0.addr_tag(address as int);
                        assert(s0.lines@[l].tag != tag);
                        assert(false);
                    }
                    s0.lemma_set_membership(index as int, replacement as int);
                }
                self.fill_on_miss(address, replacement, tag);
                proof {
                    let sf = *self;
                    assert(sf.associativity == s0.associativity);
                    assert(sf.set_of(replacement as int) == s0.set_of(replacement as int));
                    assert(sf.addr_index(address as int) == s0.addr_index(address as int));
                    assert(sf.addr_tag(address as int) == s0.addr_tag(address as int));
                    assert(sf.lines@[replacement as int].tag == tag);
                    assert(sf.lines@[replacement as int].tag != EMPTY_TAG);
                    sf.lemma_line_for_address(replacement as int, address as int);
                    assert(sf.line_ok(replacement as int));
                    assert(sf.line_word(replacement as int, offset as int)
                        == sf.ram@[sf.line_base(replacement as int) + offset]);
                    assert(sf.line_word(replacement as int, offset as int)
                        == s0.spec_mem()[address as int]);
                }
                (replacement, false)
            },
        };
        let ghost s2 = *self;
        let mut meta = self.lines[line];
        meta.last_used = self.instruction_number;
        self.lines.set(line, meta);
        proof {
            s2.lemma_wf_same_arrays(*self);
            s2.lemma_cached_same_tags(*self, address as int);
            assert(s2.spec_cached(address as int));
            assert(s2.set_of(line as int) == s2.addr_index(address as int));
            assert(s2.lines@[line as int].tag == s2.addr_tag(address as int));
            assert(self.lines@[line as int].tag == s2.lines@[line as int].tag);
            assert(self.set_of(line as int) == s2.set_of(line as int));
            assert(self.addr_index(address as int) == s2.addr_index(address as int));
            assert(self.addr_tag(address as int) == s2.addr_tag(address as int));
            assert(self.addr_tag(address as int) < EMPTY_TAG);
            assert((line as int) * self.spec_words() + offset
                < self.spec_cache_lines() * self.spec_words()) by (nonlinear_arith)
                requires
                    0 <= (line as int) < self.spec_cache_lines(),
                    0 <= (offset as int) < self.spec_words(),
            ;
            assert(self.line_word(line as int, offset as int)
                == s2.line_word(line as int, offset as int));
            assert((s0.addr_tag(address as int)) as usize == tag);
            if is_hit {
                assert(self.lines@ =~= s0.lines@.update(
                    line as int,
                    (CacheLine {
                        tag: s0.lines@[line as int].tag,
                        write_time: s0.lines@[line as int].write_time,
                        last_used: s0.spec_instruction_number(),
                    }),
                ));
            } else {
                assert(self.lines@ =~= s0.lines@.update(
                    line as int,
                    (CacheLine {
                        tag: (s0.addr_tag(address as int)) as usize,
                        write_time: s0.spec_instruction_number(),
                        last_used: s0.spec_instruction_number(),
                    }),
                ));
            }
        }
        (line, offset, is_hit)
    }

    /// Loads the word at `address`: counts the instruction, classifies the
    /// access as a read hit or read miss by whether the address's block was
    /// already cached, caches the block, and returns Memory's word at the
    /// address, leaving Memory unchanged.
    pub fn load(&mut self, address: usize) -> (value: u64)
        requires
            old(self).wf(),
            address < old(self).spec_mem().len(),
            old(self).spec_instruction_number() < u64::MAX,
            old(self).spec_read_hits() < u64::MAX,
            old(self).spec_read_misses() < u64::MAX,
        ensures
            final(self).wf(),
            load_transition(old(self).spec_mem(), final(self).spec_mem(), address as int, value),
            final(self).spec_instruction_number() == old(self).spec_instruction_number() + 1,
            old(self).spec_cached(address as int) ==> {
                &&& final(self).spec_read_hits() == old(self).spec_read_hits() + 1
                &&& final(self).spec_read_misses() == old(self).spec_read_misses()
            },
            !old(self).spec_cached(address as int) ==> {
                &&& final(self).spec_read_misses() == old(self).spec_read_misses() + 1
                &&& final(self).spec_read_hits() == old(self).spec_read_hits()
            },
            final(self).spec_write_hits() == old(self).spec_write_hits(),
            final(self).spec_write_misses() == old(self).spec_write_misses(),
            final(self).spec_cached(address as int),
            same_config(*old(self), *final(self)),
            old(self).spec_cached(address as int) ==> forall|a2: int|
                0 <= a2 < old(self).spec_mem().len()
                    ==> (final(self).spec_cached(a2) <==> old(self).spec_cached(a2)),
            forall|a2: int|
                0 <= a2 < old(self).spec_mem().len() && old(self).spec_cached(a2)
                    && old(self).addr_index(a2) != old(self).addr_index(address as int)
                    ==> final(self).spec_cached(a2),
            forall|a2: int|
                0 <= a2 < old(self).spec_mem().len() && final(self).spec_cached(a2)
                    ==> old(self).spec_cached(a2)
                        || (old(self).addr_tag(a2) == old(self).addr_tag(address as int)
                            && old(self).addr_index(a2) == old(self).addr_index(address as int)),
            forall|a2: int, a3: int|
                #![trigger old(self).spec_cached(a2), old(self).spec_cached(a3)]
                0 <= a2 < old(self).spec_mem().len() && 0 <= a3 < old(self).spec_mem().len()
                    && old(self).spec_cached(a2) && old(self).spec_cached(a3)
                    && !final(self).spec_cached(a2) && !final(self).spec_cached(a3)
                    ==> old(self).addr_tag(a2) == old(self).addr_tag(a3)
                        && old(self).addr_index(a2) == old(self).addr_index(a3),
            access_post(*old(self), *final(self), address as int, false),
    {
        self.instruction_number = self.instruction_number + 1;
        proof {
            old(self).lemma_wf_same_arrays(*self);
            old(self).lemma_cached_same_tags(*self, address as int);
        }
        let ghost sb = *self;
        let (line, offset, is_hit) = self.get_cache(address);
        let ghost s1 = *self;
        if is_hit {
            self.read_hits = self.read_hits + 1;
        } else {
            self.read_misses = self.read_misses + 1;
        }
        proof {
            s1.lemma_wf_same_arrays(*self);
            s1.lemma_cached_same_tags(*self, address as int);
            assert(self.line_word(line as int, offset as int)
                == s1.line_word(line as int, offset as int));
            let o = *old(self);
            let f = *self;
            assert(f.lines@ == s1.lines@);
            assert(f.set_of(line as int) == s1.set_of(line as int));
            assert(o.set_of(line as int) == s1.set_of(line as int));
            assert(o.addr_index(address as int) == s1.addr_index(address as int));
            assert(f.addr_tag(address as int) == s1.addr_tag(address as int));
            assert(f.lines@[line as int].tag == f.addr_tag(address as int));
            Cpu::lemma_access_cached_frame(o, f, address as int, line as int, is_hit);
            assert(sb.lines@ == o.lines@);
            assert(sb.spec_instruction_number() == f.spec_instruction_number());
            assert(sb.addr_tag(address as int) == o.addr_tag(address as int));
            assert(sb.addr_index(address as int) == o.addr_index(address as int));
            assert(sb.set_start(sb.addr_index(address as int))
                == o.set_start(o.addr_index(address as int)));
            o.lemma_addr_decomp(address as int);
            o.lemma_set_membership(o.addr_index(address as int), line as int);
            assert(o.set_start(o.addr_index(address as int)) <= (line as int)
                < o.set_start(o.addr_index(address as int)) + o.spec_associativity());
            if is_hit {
                assert(o.spec_lines()[line as int].tag == o.addr_tag(address as int));
                assert(f.spec_lines() == o.spec_lines().update(line as int, (CacheLine {
                    tag: o.spec_lines()[line as int].tag,
                    write_time: o.spec_lines()[line as int].write_time,
                    last_used: f.spec_instruction_number(),
                })));
            } else {
                assert(f.spec_lines() == o.spec_lines().update(line as int, (CacheLine {
                    tag: (o.addr_tag(address as int)) as usize,
                    write_time: f.spec_instruction_number(),
                    last_used: f.spec_instruction_number(),
                })));
                if o.spec_replacement() == ReplacementPolicy::LRU {
                    let st = o.set_start(o.addr_index(address as int));
                    let en = st + o.spec_associativity();
                    assert(is_min_last_used(o.spec_lines(), st, en, line as int));
                    assert forall|l: int|
                        is_min_last_used(o.spec_lines(), st, en, l)
                            implies f.spec_lines() == o.spec_lines().update(l, (CacheLine {
                                tag: (o.addr_tag(address as int)) as usize,
                                write_time: f.spec_instruction_number(),
                                last_used: f.spec_instruction_number(),
                            })) by {
                        lemma_min_last_used_unique(o.spec_lines(), st, en, l, line as int);
                    }
                }
                if o.spec_replacement() == ReplacementPolicy::FIFO {
                    let st = o.set_start(o.addr_index(address as int));
                    let en = st + o.spec_associativity();
                    assert(is_min_write_time(o.spec_lines(), st, en, line as int));
                    assert forall|l: int|
                        is_min_write_time(o.spec_lines(), st, en, l)
                            implies f.spec_lines() == o.spec_lines().update(l, (CacheLine {
                                tag: (o.addr_tag(address as int)) as usize,
                                write_time: f.spec_instruction_number(),
                                last_used: f.spec_instruction_number(),
                            })) by {
                        lemma_min_write_time_unique(o.spec_lines(), st, en, l, line as int);
                    }
                }
            }
        }
        let data_len = self.data.len();
        let idx = line * self.words + offset;
        self.data[idx]
    }

    /// Stores `value` at `address`: counts the instruction, classifies the
    /// access as a write hit or write miss by whether the address's block was
    /// already cached, writes the value through to Memory, and caches the
    /// block with the value in it (write-allocate).
    pub fn store(&mut self, address: usize, value: u64)
        requires
            old(self).wf(),
            address < old(self).spec_mem().len(),
            old(self).spec_instruction_number() < u64::MAX,
            old(self).spec_write_hits() < u64::MAX,
            old(self).spec_write_misses() < u64::MAX,
        ensures
            final(self).wf(),
            store_transition(old(self).spec_mem(), final(self).spec_mem(), address as int, value),
            final(self).spec_instruction_number() == old(self).spec_instruction_number() + 1,
            old(self).spec_cached(address as int) ==> {
                &&& final(self).spec_write_hits() == old(self).spec_write_hits() + 1
                &&& final(self).spec_write_misses() == old(self).spec_write_misses()
            },
            !old(self).spec_cached(address as int) ==> {
                &&& final(self).spec_write_misses() == old(self).spec_write_misses() + 1
                &&& final(self).spec_write_hits() == old(self).spec_write_hits()
            },
            final(self).spec_read_hits() == old(self).spec_read_hits(),
            final(self).spec_read_misses() == old(self).spec_read_misses(),
            final(self).spec_cached(address as int),
            same_config(*old(self), *final(self)),
            old(self).spec_cached(address as int) ==> forall|a2: int|
                0 <= a2 < old(self).spec_mem().len()
                    ==> (final(self).spec_cached(a2) <==> old(self).spec_cached(a2)),
            forall|a2: int|
                0 <= a2 < old(self).spec_mem().len() && old(self).spec_cached(a2)
                    && old(self).addr_index(a2) != old(self).addr_index(address as int)
                    ==> final(self).spec_cached(a2),
            forall|a2: int|
                0 <= a2 < old(self).spec_mem().len() && final(self).spec_cached(a2)
                    ==> old(self).spec_cached(a2)
                        || (old(self).addr_tag(a2) == old(self).addr_tag(address as int)
                            && old(self).addr_index(a2) == old(self).addr_index(address as int)),
            forall|a2: int, a3: int|
                #![trigger old(self).spec_cached(a2), old(self).spec_cached(a3)]
                0 <= a2 < old(self).spec_mem().len() && 0 <= a3 < old(self).spec_mem().len()
                    && old(self).spec_cached(a2) && old(self).spec_cached(a3)
                    && !final(self).spec_cached(a2) && !final(self).spec_cached(a3)
                    ==> old(self).addr_tag(a2) == old(self).addr_tag(a3)
                        && old(self).addr_index(a2) == old(self).addr_index(a3),
            access_post(*old(self), *final(self), address as int, true),
    {
        self.instruction_number = self.instruction_number + 1;
        proof {
            old(self).lemma_wf_same_arrays(*self);
            old(self).lemma_cached_same_tags(*self, address as int);
        }
        let ghost sb = *self;
        let (line, offset, is_hit) = self.get_cache(address);
        let ghost g = *self;
        if is_hit {
            self.write_hits = self.write_hits + 1;
        } else {
            self.write_misses = self.write_misses + 1;
        }
        let ghost s1 = *self;
        proof {
            g.lemma_wf_same_arrays(s1);
            g.lemma_cached_same_tags(s1, address as int);
            assert(s1.lines@ == g.lines@);
            assert(s1.set_of(line as int) == g.set_of(line as int));
            assert(s1.addr_index(address as int) == g.addr_index(address as int));
            assert(s1.addr_tag(address as int) == g.addr_tag(address as int));
            s1.lemma_line_for_address(line as int, address as int);
            assert(s1.line_word(line as int, offset as int)
                == g.line_word(line as int, offset as int));
        }
        let data_len = self.data.len();
        let idx = line * self.words + offset;
        self.ram.set(address, value);
        self.data.set(idx, value);
        let mut meta = self.lines[line];
        meta.write_time = self.instruction_number;
        meta.last_used = self.instruction_number;
        self.lines.set(line, meta);
        proof {
            let f = *self;
            let w = s1.spec_words();
            let base = s1.line_base(line as int);
            assert(base + (offset as int) == address as int);
            assert(f.geometry_wf());
            assert forall|l: int| 0 <= l < f.spec_cache_lines() implies #[trigger] f.line_ok(l) by {
                assert(s1.line_ok(l));
                if l == line as int {
                    assert(f.lines@[l].tag == s1.lines@[l].tag);
                    assert(f.line_base(l) == base);
                    assert forall|i: int|
                        0 <= i < f.spec_words()
                            implies #[trigger] f.line_word(l, i)
                                == f.ram@[f.line_base(l) + i] by {
                        assert(0 <= l * w + i < f.data@.len()) by (nonlinear_arith)
                            requires
                                0 <= l < f.spec_cache_lines(),
                                0 <= i < w,
                                w == f.spec_words(),
                                f.data@.len() == f.spec_cache_lines() * f.spec_words(),
                        ;
                        if i == offset as int {
                            assert(f.data@[idx as int] == value);
                            assert(f.ram@[address as int] == value);
                        } else {
                            assert(l * w + i != idx as int);
                            assert(f.data@[l * w + i] == s1.data@[l * w + i]);
                            assert(s1.line_word(l, i) == s1.ram@[s1.line_base(l) + i]);
                            assert(base + i != address as int);
                        }
                    }
                } else {
                    assert(f.lines@[l] == s1.lines@[l]);
                    if f.lines@[l].tag != EMPTY_TAG {
                        if s1.line_base(l) <= (address as int) < s1.line_base(l) + w {
                            s1.lemma_covering_line(l, address as int);
                            assert(s1.lines@[l].tag == s1.lines@[line as int].tag);
                            assert(false);
                        }
                        assert(f.line_base(l) == s1.line_base(l));
                        assert forall|i: int|
                            0 <= i < f.spec_words()
                                implies #[trigger] f.line_word(l, i)
                                    == f.ram@[f.line_base(l) + i] by {
                            lemma_cell_owner(w, l, line as int, i);
                            assert(0 <= l * w + i < f.data@.len()) by (nonlinear_arith)
                                requires
                                    0 <= l < f.spec_cache_lines(),
                                    0 <= i < w,
                                    w == f.spec_words(),
                                    f.data@.len() == f.spec_cache_lines() * f.spec_words(),
                            ;
                            assert(l * w + i != idx as int);
                            assert(f.data@[l * w + i] == s1.data@[l * w + i]);
                            assert(s1.line_word(l, i) == s1.ram@[s1.line_base(l) + i]);
                            assert(s1.line_base(l) + i != address as int);
                        }
                    }
                }
            }
            s1.lemma_tags_distinct_same_tags(f);
            assert(f.wf());
            s1.lemma_cached_same_tags(f, address as int);
            assert(f.spec_cached(address as int));
            let o = *old(self);
            assert(f.set_of(line as int) == g.set_of(line as int));
            assert(o.set_of(line as int) == g.set_of(line as int));
            assert(o.addr_index(address as int) == g.addr_index(address as int));
            assert(f.addr_tag(address as int) == g.addr_tag(address as int));
            assert(f.lines@[line as int].tag == s1.lines@[line as int].tag);
            assert(f.lines@[line as int].tag == f.addr_tag(address as int));
            assert forall|l: int|
                0 <= l < o.lines@.len() && l != line as int
                    implies (#[trigger] f.lines@[l]).tag == o.lines@[l].tag by {
                assert(f.lines@[l] == s1.lines@[l]);
            }
            Cpu::lemma_access_cached_frame(o, f, address as int, line as int, is_hit);
            assert(sb.lines@ == o.lines@);
            assert(sb.spec_instruction_number() == f.spec_instruction_number());
            assert(sb.addr_tag(address as int) == o.addr_tag(address as int));
            assert(sb.addr_index(address as int) == o.addr_index(address as int));
            assert(sb.set_start(sb.addr_index(address as int))
                == o.set_start(o.addr_index(address as int)));
            o.lemma_addr_decomp(address as int);
            o.lemma_set_membership(o.addr_index(address as int), line as int);
            assert(o.set_start(o.addr_index(address as int)) <= (line as int)
                < o.set_start(o.addr_index(address as int)) + o.spec_associativity());
            if is_hit {
                assert(o.spec_lines()[line as int].tag == o.addr_tag(address as int));
                assert(f.spec_lines() =~= o.spec_lines().update(line as int, (CacheLine {
                    tag: o.spec_lines()[line as int].tag,
                    write_time: f.spec_instruction_number(),
                    last_used: f.spec_instruction_number(),
                })));
            } else {
                assert(f.spec_lines() =~= o.spec_lines().update(line as int, (CacheLine {
                    tag: (o.addr_tag(address as int)) as usize,
                    write_time: f.spec_instruction_number(),
                    last_used: f.spec_instruction_number(),
                })));
                if o.spec_replacement() == ReplacementPolicy::LRU {
                    let st = o.set_start(o.addr_index(address as int));
                    let en = st + o.spec_associativity();
                    assert(is_min_last_used(o.spec_lines(), st, en, line as int));
                    assert forall|l: int|
                        is_min_last_used(o.spec_lines(), st, en, l)
                            implies f.spec_lines() == o.spec_lines().update(l, (CacheLine {
                                tag: (o.addr_tag(address as int)) as usize,
                                write_time: f.spec_instruction_number(),
                                last_used: f.spec_instruction_number(),
                            })) by {
                        lemma_min_last_used_unique(o.spec_lines(), st, en, l, line as int);
                    }
                }
                if o.spec_replacement() == ReplacementPolicy::FIFO {
                    let st = o.set_start(o.addr_index(address as int));
                    let en = st + o.spec_associativity();
                    assert(is_min_write_time(o.spec_lines(), st, en, line as int));
                    assert forall|l: int|
                        is_min_write_time(o.spec_lines(), st, en, l)
                            implies f.spec_lines() == o.spec_lines().update(l, (CacheLine {
                                tag: (o.addr_tag(address as int)) as usize,
                                write_time: f.spec_instruction_number(),
                                last_used: f.spec_instruction_number(),
                            })) by {
                        lemma_min_write_time_unique(o.spec_lines(), st, en, l, line as int);
                    }
                }
            }
        }
    }

    /// Resets the four hit/miss counters to zero; the instruction counter,
    /// Memory and the cached blocks are left as they are.
    pub fn reset_counters(&mut self)
        requires
            old(self).wf(),
        ensures
            final(self).wf(),
            final(self).spec_read_hits() == 0,
            final(self).spec_read_misses() == 0,
            final(self).spec_write_hits() == 0,
            final(self).spec_write_misses() == 0,
            final(self).spec_instruction_number() == old(self).spec_instruction_number(),
            final(self).spec_mem() == old(self).spec_mem(),
            final(self).spec_lines() == old(self).spec_lines(),
            same_config(*old(self), *final(self)),
            forall|a: int|
                0 <= a ==> (final(self).spec_cached(a) <==> old(self).spec_cached(a)),
    {
        self.read_hits = 0;
        self.read_misses = 0;
        self.write_hits = 0;
        self.write_misses = 0;
        proof {
            old(self).lemma_wf_same_arrays(*self);
            assert forall|a: int|
                0 <= a implies (self.spec_cached(a) <==> old(self).spec_cached(a)) by {
                old(self).lemma_cached_same_tags(*self, a);
            }
        }
    }

    /// Invalidates every cache line and restarts the instruction counter;
    /// Memory and the hit/miss counters are left as they are.
    pub fn reset_cache(&mut self)
        requires
            old(self).wf(),
        ensures
            final(self).wf(),
            final(self).spec_mem() == old(self).spec_mem(),
            final(self).spec_read_hits() == old(self).spec_read_hits(),
            final(self).spec_read_misses() == old(self).spec_read_misses(),
            final(self).spec_write_hits() == old(self).spec_write_hits(),
            final(self).spec_write_misses() == old(self).spec_write_misses(),
            final(self).spec_instruction_number() == 0,
            same_config(*old(self), *final(self)),
            final(self).spec_lines().len() == old(self).spec_lines().len(),
            forall|l: int| 0 <= l < final(self).spec_lines().len()
                ==> (#[trigger] final(self).spec_lines()[l])
                    == (CacheLine { tag: EMPTY_TAG, write_time: 0, last_used: 0 }),
            forall|a: int|
                0 <= a < final(self).spec_mem().len() ==> !final(self).spec_cached(a),
    {
        self.instruction_number = 0;
        let ram_len = self.ram.len();
        let n = self.lines.len();
        let mut l: usize = 0;
        while l < n
            invariant
                l <= n,
                n == self.lines@.len(),
                self.cache_size == old(self).cache_size,
                self.block_size == old(self).block_size,
                self.associativity == old(self).associativity,
                self.replacement == old(self).replacement,
                self.cache_lines == old(self).cache_lines,
                self.words == old(self).words,
                self.read_hits == old(self).read_hits,
                self.read_misses == old(self).read_misses,
                self.write_hits == old(self).write_hits,
                self.write_misses == old(self).write_misses,
                self.instruction_number == 0,
                self.ram@ == old(self).ram@,
                self.data@ == old(self).data@,
                old(self).wf(),
                forall|j: int|
                    0 <= j < l
                        ==> (#[trigger] self.lines@[j])
                            == (CacheLine { tag: EMPTY_TAG, write_time: 0, last_used: 0 }),
            decreases n - l,
        {
            self.lines.set(l, CacheLine { tag: EMPTY_TAG, write_time: 0, last_used: 0 });
            l = l + 1;
        }
        proof {
            assert(self.geometry_wf());
            assert forall|li: int| 0 <= li < self.spec_cache_lines() implies #[trigger] self.line_ok(li) by {
                assert(self.lines@[li].tag == EMPTY_TAG);
            }
            assert forall|a: int|
                0 <= a < self.spec_mem().len() implies !self.spec_cached(a) by {
                if self.spec_cached(a) {
                    let lw = choose|lw: int|
                        self.set_start(self.addr_index(a)) <= lw
                            < self.set_start(self.addr_index(a)) + self.spec_associativity()
                            && (#[trigger] self.spec_lines()[lw].tag) == self.addr_tag(a);
                    self.lemma_addr_decomp(a);
                    self.lemma_set_range(self.addr_index(a));
                    assert(0 <= lw < self.spec_cache_lines());
                    assert(self.lines@[lw].tag == EMPTY_TAG);
                    assert(self.addr_tag(a) <= a < ram_len <= usize::MAX);
                }
            }
        }
    }

    /// Total cache capacity in bytes.
    pub fn cache_size(&self) -> (r: usize)
        ensures
            r == self.spec_cache_size(),
    {
        self.cache_size
    }

    /// Size of one block in bytes.
    pub fn block_size(&self) -> (r: usize)
        ensures
            r == self.spec_block_size(),
    {
        self.block_size
    }

    /// Lines per associative set.
    pub fn associativity(&self) -> (r: usize)
        ensures
            r == self.spec_associativity(),
    {
        self.associativity
    }

    /// The replacement policy fixed at construction.
    pub fn replacement(&self) -> (r: ReplacementPolicy)
        ensures
            r == self.spec_replacement(),
    {
        self.replacement
    }

    /// Total number of cache lines.
    pub fn cache_lines(&self) -> (r: usize)
        ensures
            r == self.spec_cache_lines(),
    {
        self.cache_lines
    }

    /// Words per block.
    pub fn words(&self) -> (r: usize)
        ensures
            r == self.spec_words(),
    {
        self.words
    }

    /// Number of addressable Memory words.
    pub fn ram_size(&self) -> (r: usize)
        ensures
            r == self.spec_mem().len(),
    {
        self.ram.len()
    }

    /// Reads that found their block in the cache.
    pub fn read_hits(&self) -> (r: u64)
        ensures
            r == self.spec_read_hits(),
    {
        self.read_hits
    }

    /// Reads that had to fill a line from Memory.
    pub fn read_misses(&self) -> (r: u64)
        ensures
            r == self.spec_read_misses(),
    {
        self.read_misses
    }

    /// Writes that found their block in the cache.
    pub fn write_hits(&self) -> (r: u64)
        ensures
            r == self.spec_write_hits(),
    {
        self.write_hits
    }

    /// Writes that had to fill a line from Memory.
    pub fn write_misses(&self) -> (r: u64)
        ensures
            r == self.spec_write_misses(),
    {
        self.write_misses
    }

    /// How many loads and stores have been issued.
    pub fn instruction_number(&self) -> (r: u64)
        ensures
            r == self.spec_instruction_number(),
    {
        self.instruction_number
    }
}

/// In the flat data arena, the cells of one line never fall into another
/// line's slice.
proof fn lemma_cell_owner(w: int, l1: int, l2: int, i: int)
    by (nonlinear_arith)
    requires
        w >= 1,
        l1 != l2,
        0 <= i < w,
    ensures
        !(l2 * w <= l1 * w + i < l2 * w + w),
{
}

/// A vector of `n` zeroed words.
fn zero_vec(n: usize) -> (v: Vec<u64>)
    ensures
        v@.len() == n,
        forall|i: int| 0 <= i < n ==> v@[i] == 0,
{
    let mut v: Vec<u64> = Vec::new();
    let mut i: usize = 0;
    while i < n
        invariant
            i <= n,
            v@.len() == i,
            forall|j: int| 0 <= j < i ==> v@[j] == 0,
        decreases n - i,
    {
        v.push(0);
        i = i + 1;
    }
    v
}

/// A vector of `n` empty cache lines.
fn empty_lines(n: usize) -> (v: Vec<CacheLine>)
    ensures
        v@.len() == n,
        forall|i: int| 0 <= i < n
            ==> (#[trigger] v@[i]) == (CacheLine { tag: EMPTY_TAG, write_time: 0, last_used: 0 }),
{
    let mut v: Vec<CacheLine> = Vec::new();
    let mut i: usize = 0;
    while i < n
        invariant
            i <= n,
            v@.len() == i,
            forall|j: int| 0 <= j < i
                ==> (#[trigger] v@[j]) == (CacheLine { tag: EMPTY_TAG, write_time: 0, last_used: 0 }),
        decreases n - i,
    {
        v.push(CacheLine { tag: EMPTY_TAG, write_time: 0, last_used: 0 });
        i = i + 1;
    }
    v
}

} // verus!
