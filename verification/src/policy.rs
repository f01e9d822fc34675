//! Replacement policies: pure selection of a victim line within one
//! associative set, from the lines' metadata alone.

use vstd::prelude::*;

verus! {

/// Which line of a set a miss reuses when no line in the set holds the
/// requested tag.
#[derive(Clone, Copy, Debug, PartialEq, Eq, Structural)]
pub enum ReplacementPolicy {
    /// Reuse a uniformly random line of the set.
    Random,
    /// Reuse the least recently used line: the smallest `last_used`,
    /// ties broken by the lowest line index.
    LRU,
    /// Reuse the line resident longest: the smallest `write_time`,
    /// ties broken by the lowest line index.
    FIFO,
}

/// Metadata of one physical cache slot.  The cached words themselves live in
/// the cache's flat data arena, indexed by line number.
#[derive(Clone, Copy, Debug, PartialEq, Eq, Structural)]
pub struct CacheLine {
    /// Which memory block occupies the slot; `usize::MAX` means empty.
    pub tag: usize,
    /// Instruction index at which the slot was last filled or written.
    pub write_time: u64,
    /// Instruction index at which the slot was last accessed.
    pub last_used: u64,
}

/// `victim` is the line of `lines[start..end]` with the smallest `last_used`,
/// and the first such line in scan order.
pub open spec fn is_min_last_used(lines: Seq<CacheLine>, start: int, end: int, victim: int) -> bool {
    &&& start <= victim < end
    &&& forall|l: int| start <= l < end ==> lines[victim].last_used <= #[trigger] lines[l].last_used
    &&& forall|l: int| start <= l < victim ==> lines[victim].last_used < #[trigger] lines[l].last_used
}

/// `victim` is the line of `lines[start..end]` with the smallest `write_time`,
/// and the first such line in scan order.
pub open spec fn is_min_write_time(lines: Seq<CacheLine>, start: int, end: int, victim: int) -> bool {
    &&& start <= victim < end
    &&& forall|l: int| start <= l < end ==> lines[victim].write_time <= #[trigger] lines[l].write_time
    &&& forall|l: int| start <= l < victim ==> lines[victim].write_time < #[trigger] lines[l].write_time
}

/// The least-recently-used line of the set `lines[start..start + count]`:
/// smallest `last_used`, ties broken by the lowest line index.
pub fn lru_victim(lines: &Vec<CacheLine>, start: usize, count: usize) -> (victim: usize)
    requires
        count >= 1,
        start + count <= lines.len(),
    ensures
        is_min_last_used(lines@, start as int, (start + count) as int, victim as int),
{
    let end = start + count;
    let mut victim = start;
    let mut l = start + 1;
    while l < end
        invariant
            end == start + count,
            end <= lines.len(),
            start <= victim < l <= end,
            forall|k: int| start <= k < l ==> lines@[victim as int].last_used <= #[trigger] lines@[k].last_used,
            forall|k: int| start <= k < victim ==> lines@[victim as int].last_used < #[trigger] lines@[k].last_used,
        decreases end - l,
    {
        if lines[l].last_used < lines[victim].last_used {
            victim = l;
        }
        l = l + 1;
    }
    victim
}

/// The longest-resident line of the set `lines[start..start + count]`:
/// smallest `write_time`, ties broken by the lowest line index.
pub fn fifo_victim(lines: &Vec<CacheLine>, start: usize, count: usize) -> (victim: usize)
    requires
        count >= 1,
        start + count <= lines.len(),
    ensures
        is_min_write_time(lines@, start as int, (start + count) as int, victim as int),
{
    let end = start + count;
    let mut victim = start;
    let mut l = start + 1;
    while l < end
        invariant
            end == start + count,
            end <= lines.len(),
            start <= victim < l <= end,
            forall|k: int| start <= k < l ==> lines@[victim as int].write_time <= #[trigger] lines@[k].write_time,
            forall|k: int| start <= k < victim ==> lines@[victim as int].write_time < #[trigger] lines@[k].write_time,
        decreases end - l,
    {
        if lines[l].write_time < lines[victim].write_time {
            victim = l;
        }
        l = l + 1;
    }
    victim
}

/// Within one slice of lines, at most one line is the tie-broken minimum of
/// `last_used`: the strict-below-all-earlier clause leaves no room for two.
pub proof fn lemma_min_last_used_unique(lines: Seq<CacheLine>, start: int, end: int, l1: int, l2: int)
    requires
        is_min_last_used(lines, start, end, l1),
        is_min_last_used(lines, start, end, l2),
    ensures
        l1 == l2,
{
    if l1 < l2 {
        assert(lines[l2].last_used < lines[l1].last_used);
        assert(lines[l1].last_used <= lines[l2].last_used);
    }
    if l2 < l1 {
        assert(lines[l1].last_used < lines[l2].last_used);
        assert(lines[l2].last_used <= lines[l1].last_used);
    }
}

/// Within one slice of lines, at most one line is the tie-broken minimum of
/// `write_time`.
pub proof fn lemma_min_write_time_unique(lines: Seq<CacheLine>, start: int, end: int, l1: int, l2: int)
    requires
        is_min_write_time(lines, start, end, l1),
        is_min_write_time(lines, start, end, l2),
    ensures
        l1 == l2,
{
    if l1 < l2 {
        assert(lines[l2].write_time < lines[l1].write_time);
        assert(lines[l1].write_time <= lines[l2].write_time);
    }
    if l2 < l1 {
        assert(lines[l1].write_time < lines[l2].write_time);
        assert(lines[l2].write_time <= lines[l1].write_time);
    }
}

/// Relies on `rand::random_range` over `0..bound`: the sample lies in the
/// given range; the call panics only on an empty range, which `bound >= 1`
/// rules out.
#[verifier::external_body]
fn random_below(bound: usize) -> (r: usize)
    requires
        bound >= 1,
    ensures
        r < bound,
{
    rand::random_range(0..bound)
}

/// Chooses which line of the set `lines[start..start + count]` a miss reuses,
/// according to `policy`.  For LRU and FIFO the choice is exactly the set's
/// minimum of `last_used` and of `write_time` respectively, ties broken by
/// the lowest line index; for Random it is some line of the set.
pub fn select_victim(policy: ReplacementPolicy, lines: &Vec<CacheLine>, start: usize, count: usize) -> (victim: usize)
    requires
        count >= 1,
        start + count <= lines.len(),
    ensures
        start <= victim < start + count,
        policy == ReplacementPolicy::LRU
            ==> is_min_last_used(lines@, start as int, (start + count) as int, victim as int),
        policy == ReplacementPolicy::FIFO
            ==> is_min_write_time(lines@, start as int, (start + count) as int, victim as int),
{
    match policy {
        ReplacementPolicy::Random => start + random_below(count),
        ReplacementPolicy::LRU => lru_victim(lines, start, count),
        ReplacementPolicy::FIFO => fifo_victim(lines, start, count),
    }
}

} // verus!
