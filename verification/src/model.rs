//! The mathematical model of the cache: address decomposition, the per-set
//! least-recently-used order, the transition taken by a single access, and the
//! laws that every reachable cache state obeys.
//!
//! A set is modelled as a sequence of resident tags ordered from
//! least-recently used (front) to most-recently used (back).

use vstd::prelude::*;
use vstd::arithmetic::power2::pow2;
use crate::types::{CacheInstruction, CacheResult, Cmd};

verus! {

/// The tag of an address: all bits above the block-offset and set-index fields.
pub open spec fn spec_tag(addr: u64, set_bits: nat, block_bits: nat) -> u64 {
    ((addr as nat) / pow2(block_bits + set_bits)) as u64
}

/// The set index of an address: the `set_bits` bits directly above the
/// `block_bits` low bits.
pub open spec fn spec_set_index(addr: u64, set_bits: nat, block_bits: nat) -> int {
    ((addr as nat / pow2(block_bits)) % pow2(set_bits)) as int
}

/// One set after one access of `tag`: a resident tag moves to the
/// most-recently-used end; an absent tag is appended while there is room, and
/// otherwise replaces the least-recently-used tag at the front.
pub open spec fn lru_after_access(s: Seq<u64>, tag: u64, lines: nat) -> Seq<u64> {
    if s.contains(tag) {
        s.remove_value(tag).push(tag)
    } else if s.len() < lines {
        s.push(tag)
    } else {
        s.drop_first().push(tag)
    }
}

/// The results reported for one access of `tag` against set `s`.
pub open spec fn lru_results(s: Seq<u64>, tag: u64, lines: nat) -> Seq<CacheResult> {
    if s.contains(tag) {
        seq![CacheResult::Hit]
    } else if s.len() < lines {
        seq![CacheResult::Miss]
    } else {
        seq![CacheResult::Miss, CacheResult::Eviction]
    }
}

/// How many single cache accesses one instruction performs.
pub open spec fn accesses_of(inst: CacheInstruction) -> nat {
    match inst {
        CacheInstruction::Load => 1,
        CacheInstruction::Store => 1,
        CacheInstruction::Modify => 2,
        CacheInstruction::Instruction => 0,
    }
}

/// The abstract state of a cache: the geometry it was built with, the resident
/// tags of every set in recency order, and the three run counters.
#[verifier::ext_equal]
pub struct CacheModel {
    pub sets: Seq<Seq<u64>>,
    pub set_bits: nat,
    pub block_bits: nat,
    pub lines: nat,
    pub hits: nat,
    pub misses: nat,
    pub evictions: nat,
}

impl CacheModel {
    /// A freshly constructed cache: `2^set_bits` empty sets, all counters zero.
    pub open spec fn init(set_bits: nat, block_bits: nat, lines: nat) -> CacheModel {
        CacheModel {
            sets: Seq::new(pow2(set_bits), |i: int| Seq::empty()),
            set_bits,
            block_bits,
            lines,
            hits: 0,
            misses: 0,
            evictions: 0,
        }
    }

    /// Well-formedness: the geometry fits a 64-bit address, there are exactly
    /// `2^set_bits` sets, no set exceeds its capacity or holds a tag twice,
    /// and evictions never outnumber misses.
    pub open spec fn wf(self) -> bool {
        &&& self.set_bits + self.block_bits < 64
        &&& self.lines >= 1
        &&& self.sets.len() == pow2(self.set_bits)
        &&& forall|i: int| 0 <= i < self.sets.len() ==> (#[trigger] self.sets[i]).len() <= self.lines
        &&& forall|i: int| 0 <= i < self.sets.len() ==> (#[trigger] self.sets[i]).no_duplicates()
        &&& self.evictions <= self.misses
    }

    /// The tag an address decomposes to under this cache's geometry.
    pub open spec fn tag_of(self, addr: u64) -> u64 {
        spec_tag(addr, self.set_bits, self.block_bits)
    }

    /// The set index an address decomposes to under this cache's geometry.
    pub open spec fn set_index_of(self, addr: u64) -> int {
        spec_set_index(addr, self.set_bits, self.block_bits)
    }

    /// The cache after a single access: exactly one set changes, and exactly
    /// one of the hit or miss counters grows by one.
    pub open spec fn after_access(self, addr: u64) -> CacheModel {
        let t = self.tag_of(addr);
        let i = self.set_index_of(addr);
        let s = self.sets[i];
        if s.contains(t) {
            CacheModel { sets: self.sets.update(i, lru_after_access(s, t, self.lines)), hits: self.hits + 1, ..self }
        } else if s.len() < self.lines {
            CacheModel { sets: self.sets.update(i, lru_after_access(s, t, self.lines)), misses: self.misses + 1, ..self }
        } else {
            CacheModel {
                sets: self.sets.update(i, lru_after_access(s, t, self.lines)),
                misses: self.misses + 1,
                evictions: self.evictions + 1,
                ..self
            }
        }
    }

    /// The results reported for a single access.
    pub open spec fn access_results(self, addr: u64) -> Seq<CacheResult> {
        lru_results(self.sets[self.set_index_of(addr)], self.tag_of(addr), self.lines)
    }

    /// The cache after one instruction: a load or store accesses once, a
    /// read-modify-write accesses twice at the same address, an instruction
    /// fetch leaves the cache untouched.
    pub open spec fn after_command(self, command: Cmd) -> CacheModel {
        match command.inst {
            CacheInstruction::Load => self.after_access(command.address),
            CacheInstruction::Store => self.after_access(command.address),
            CacheInstruction::Modify => self.after_access(command.address).after_access(command.address),
            CacheInstruction::Instruction => self,
        }
    }

    /// The results reported for one instruction, in call order.
    pub open spec fn command_results(self, command: Cmd) -> Seq<CacheResult> {
        match command.inst {
            CacheInstruction::Load => self.access_results(command.address),
            CacheInstruction::Store => self.access_results(command.address),
            CacheInstruction::Modify => self.access_results(command.address) + self.after_access(
                command.address,
            ).access_results(command.address),
            CacheInstruction::Instruction => Seq::empty(),
        }
    }

    /// The cache after a whole sequence of single accesses, in order.
    pub open spec fn after_trace(self, addrs: Seq<u64>) -> CacheModel
        decreases addrs.len(),
    {
        if addrs.len() == 0 {
            self
        } else {
            self.after_trace(addrs.drop_last()).after_access(addrs.last())
        }
    }
}

proof fn lemma_push_keeps_no_duplicates(s: Seq<u64>, t: u64)
    requires
        s.no_duplicates(),
        !s.contains(t),
    ensures
        s.push(t).no_duplicates(),
{
    assert forall|i: int, j: int|
        0 <= i < s.push(t).len() && 0 <= j < s.push(t).len() && i != j implies s.push(t)[i] != s.push(
        t,
    )[j] by {
        if i < s.len() && j < s.len() {
            assert(s[i] == s.push(t)[i] && s[j] == s.push(t)[j]);
        } else if i < s.len() {
            assert(s.contains(s[i])) by {
                assert(s[i] == s[i]);
            }
        } else {
            assert(s.contains(s[j]));
        }
    }
}

proof fn lemma_remove_value_properties(s: Seq<u64>, t: u64)
    requires
        s.no_duplicates(),
        s.contains(t),
    ensures
        s.remove_value(t).len() == s.len() - 1,
        s.remove_value(t).no_duplicates(),
        !s.remove_value(t).contains(t),
{
    s.index_of_first_ensures(t);
    let i = s.index_of_first(t)->Some_0;
    let r = s.remove(i);
    s.remove_ensures(i);
    assert forall|a: int, b: int| 0 <= a < r.len() && 0 <= b < r.len() && a != b implies r[a]
        != r[b] by {
        let oa: int = if a < i { a } else { a + 1 };
        let ob: int = if b < i { b } else { b + 1 };
        assert(r[a] == s[oa] && r[b] == s[ob]);
    }
    assert forall|a: int| 0 <= a < r.len() implies r[a] != t by {
        let oa: int = if a < i { a } else { a + 1 };
        assert(r[a] == s[oa] && oa != i && s[i] == t);
    }
}

proof fn lemma_drop_first_properties(s: Seq<u64>, t: u64)
    requires
        s.no_duplicates(),
        !s.contains(t),
        s.len() > 0,
    ensures
        s.drop_first().no_duplicates(),
        !s.drop_first().contains(t),
{
    let d = s.drop_first();
    assert forall|a: int, b: int| 0 <= a < d.len() && 0 <= b < d.len() && a != b implies d[a]
        != d[b] by {
        assert(d[a] == s[a + 1] && d[b] == s[b + 1]);
    }
    assert forall|a: int| 0 <= a < d.len() implies d[a] != t by {
        assert(d[a] == s[a + 1]);
        assert(s.contains(s[a + 1]));
    }
}

/// A single access keeps a well-formed set well formed, installs the accessed
/// tag, and changes the set's size in the expected way.
proof fn lemma_lru_access_preserves(s: Seq<u64>, t: u64, lines: nat)
    requires
        s.no_duplicates(),
        s.len() <= lines,
        lines >= 1,
    ensures
        lru_after_access(s, t, lines).no_duplicates(),
        lru_after_access(s, t, lines).len() <= lines,
        lru_after_access(s, t, lines).contains(t),
        s.contains(t) ==> lru_after_access(s, t, lines).len() == s.len(),
        !s.contains(t) && s.len() < lines ==> lru_after_access(s, t, lines).len() == s.len() + 1,
        !s.contains(t) && s.len() >= lines ==> lru_after_access(s, t, lines).len() == s.len(),
{
    let r = lru_after_access(s, t, lines);
    if s.contains(t) {
        lemma_remove_value_properties(s, t);
        lemma_push_keeps_no_duplicates(s.remove_value(t), t);
        assert(r.last() == t && r.contains(t));
    } else if s.len() < lines {
        lemma_push_keeps_no_duplicates(s, t);
        assert(r.last() == t && r.contains(t));
    } else {
        lemma_drop_first_properties(s, t);
        lemma_push_keeps_no_duplicates(s.drop_first(), t);
        assert(r == s.drop_first().push(t));
        assert(r[r.len() - 1] == t);
        assert(r.contains(t));
    }
}

/// Law: a single access keeps the cache well formed. In particular every set
/// holds at most `lines` tags, each at most once, and evictions never
/// outnumber misses.
pub proof fn lemma_access_preserves_wf(m: CacheModel, addr: u64)
    requires
        m.wf(),
    ensures
        m.after_access(addr).wf(),
{
    let i = m.set_index_of(addr);
    let t = m.tag_of(addr);
    vstd::arithmetic::power2::lemma_pow2_pos(m.set_bits);
    assert(0 <= i < m.sets.len());
    lemma_lru_access_preserves(m.sets[i], t, m.lines);
}

/// Law: every single access increments exactly one of the hit and miss
/// counters, and increments the eviction counter only beside a miss.
pub proof fn lemma_access_counts(m: CacheModel, addr: u64)
    ensures
        m.after_access(addr).hits + m.after_access(addr).misses == m.hits + m.misses + 1,
        m.after_access(addr).hits >= m.hits,
        m.after_access(addr).misses >= m.misses,
        m.after_access(addr).evictions - m.evictions <= m.after_access(addr).misses - m.misses,
        m.after_access(addr).evictions >= m.evictions,
{
}

/// Law: any sequence of accesses against a well-formed cache keeps it well
/// formed, adds exactly one hit or miss per access, and adds no more
/// evictions than misses.
pub proof fn lemma_trace_preserves(m: CacheModel, addrs: Seq<u64>)
    requires
        m.wf(),
    ensures
        m.after_trace(addrs).wf(),
        m.after_trace(addrs).hits + m.after_trace(addrs).misses == m.hits + m.misses
            + addrs.len(),
        m.after_trace(addrs).evictions - m.evictions <= m.after_trace(addrs).misses - m.misses,
    decreases addrs.len(),
{
    if addrs.len() > 0 {
        lemma_trace_preserves(m, addrs.drop_last());
        lemma_access_preserves_wf(m.after_trace(addrs.drop_last()), addrs.last());
        lemma_access_counts(m.after_trace(addrs.drop_last()), addrs.last());
    }
}

/// Law: starting from a fresh cache, after any sequence of accesses the hit
/// and miss counters sum to the number of accesses made, every set holds
/// between zero and `lines` tags, and evictions never exceed misses.
pub proof fn lemma_trace_counters(set_bits: nat, block_bits: nat, lines: nat, addrs: Seq<u64>)
    requires
        set_bits + block_bits < 64,
        lines >= 1,
    ensures
        ({
            let m = CacheModel::init(set_bits, block_bits, lines).after_trace(addrs);
            &&& m.wf()
            &&& m.hits + m.misses == addrs.len()
            &&& m.evictions <= m.misses
        }),
{
    let m0 = CacheModel::init(set_bits, block_bits, lines);
    assert(m0.wf());
    lemma_trace_preserves(m0, addrs);
}

/// One set after a whole sequence of accesses, in order.
pub open spec fn lru_after_accesses(s: Seq<u64>, tags: Seq<u64>, lines: nat) -> Seq<u64>
    decreases tags.len(),
{
    if tags.len() == 0 {
        s
    } else {
        lru_after_access(lru_after_accesses(s, tags.drop_last(), lines), tags.last(), lines)
    }
}

/// Law: accessing distinct tags `t1 .. tn` (`n <= lines`) into an empty set
/// leaves the set holding exactly `t1 .. tn`, ordered from least- to
/// most-recently used.
pub proof fn lemma_lru_fill_order(tags: Seq<u64>, lines: nat)
    requires
        tags.no_duplicates(),
        tags.len() <= lines,
    ensures
        lru_after_accesses(Seq::empty(), tags, lines) == tags,
    decreases tags.len(),
{
    if tags.len() > 0 {
        let prefix = tags.drop_last();
        assert(prefix.no_duplicates()) by {
            assert(forall|a: int| 0 <= a < prefix.len() ==> prefix[a] == tags[a]);
        }
        lemma_lru_fill_order(prefix, lines);
        assert(!prefix.contains(tags.last())) by {
            assert(forall|a: int| 0 <= a < prefix.len() ==> prefix[a] == tags[a]);
        }
        assert(prefix.push(tags.last()) =~= tags);
    }
}

/// Law: re-accessing the resident tag at position `k` moves it to the
/// most-recently-used end and keeps the relative order of all other tags.
pub proof fn lemma_lru_touch_moves_to_mru(s: Seq<u64>, k: int, lines: nat)
    requires
        s.no_duplicates(),
        0 <= k < s.len(),
    ensures
        lru_after_access(s, s[k], lines) == s.remove(k).push(s[k]),
{
    let t = s[k];
    assert(s.contains(t));
    s.index_of_first_ensures(t);
    let i = s.index_of_first(t)->Some_0;
    assert(i == k);
}

/// Law: the second access of a read-modify-write instruction always hits,
/// because the first access installed (or refreshed) the very tag it needs.
/// The instruction's result list is therefore the first access's results
/// followed by exactly one `Hit`.
pub proof fn lemma_modify_second_access_hits(m: CacheModel, addr: u64)
    requires
        m.wf(),
    ensures
        ({
            let results = m.command_results(Cmd { inst: CacheInstruction::Modify, address: addr });
            &&& m.after_access(addr).access_results(addr) == seq![CacheResult::Hit]
            &&& results == m.access_results(addr).push(CacheResult::Hit)
            &&& results.last() == CacheResult::Hit
            &&& (results.len() == 2 ==> results[1] == CacheResult::Hit)
        }),
{
    let i = m.set_index_of(addr);
    let t = m.tag_of(addr);
    vstd::arithmetic::power2::lemma_pow2_pos(m.set_bits);
    assert(0 <= i < m.sets.len());
    lemma_lru_access_preserves(m.sets[i], t, m.lines);
    let m1 = m.after_access(addr);
    assert(m1.sets[i] == lru_after_access(m.sets[i], t, m.lines));
    assert(m1.sets[i].contains(t));
    assert(m1.access_results(addr) =~= seq![CacheResult::Hit]);
    let results = m.command_results(Cmd { inst: CacheInstruction::Modify, address: addr });
    assert(results =~= m.access_results(addr).push(CacheResult::Hit));
}

} // verus!
