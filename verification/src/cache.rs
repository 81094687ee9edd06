//! The executable cache: a vector of recency-ordered tag vectors plus the
//! three run counters. Every mutating operation is specified against the
//! abstract [`CacheModel`] reached through the cache's view.

use vstd::prelude::*;
use vstd::arithmetic::power2::lemma_pow2_pos;
use vstd::bits::{
    low_bits_mask, lemma_u64_low_bits_mask_is_mod, lemma_u64_pow2_no_overflow,
    lemma_u64_shl_is_mul, lemma_u64_shr_is_div,
};
use crate::model::{
    accesses_of, lemma_access_counts, lemma_access_preserves_wf, lru_after_access, CacheModel,
    spec_set_index, spec_tag,
};
use crate::render::{spec_summary, u64_to_decimal};
use crate::types::{CacheInstruction, CacheResult, Cmd};
use vstd::string::StringExecFns;

verus! {

/// An address decomposed under a fixed geometry. The block offset is computed
/// away: it never takes part in a cache decision.
struct Address {
    tag: u64,
    set_index: u64,
}

/// A set-associative cache with least-recently-used replacement. Each entry
/// of `sets` is one set, ordered from least-recently used (front) to
/// most-recently used (back).
pub struct Cache {
    pub sets: Vec<Vec<u64>>,
    set_bits: u64,
    block_bits: u64,
    num_lines: u32,
    hit: u64,
    miss: u64,
    evict: u64,
}

impl View for Cache {
    type V = CacheModel;

    closed spec fn view(&self) -> CacheModel {
        CacheModel {
            sets: Seq::new(self.sets@.len(), |i: int| self.sets@[i]@),
            set_bits: self.set_bits as nat,
            block_bits: self.block_bits as nat,
            lines: self.num_lines as nat,
            hits: self.hit as nat,
            misses: self.miss as nat,
            evictions: self.evict as nat,
        }
    }
}

/// Position of the first occurrence of `tag` in `line`, if any.
fn find_tag(line: &Vec<u64>, tag: u64) -> (r: Option<usize>)
    ensures
        match r {
            Some(pos) => (pos as int) < line@.len() && line@[pos as int] == tag && (forall|j: int|
                0 <= j < pos as int ==> line@[j] != tag),
            None => !line@.contains(tag),
        },
{
    let mut pos: usize = 0;
    while pos < line.len()
        invariant
            pos <= line@.len(),
            forall|j: int| 0 <= j < pos as int ==> line@[j] != tag,
        decreases line@.len() - pos,
    {
        if line[pos] == tag {
            return Some(pos);
        }
        pos = pos + 1;
    }
    None
}

impl Cache {
    /// Create a cache with `2^set_bits` empty sets of `num_lines` lines each.
    pub fn new(set_bits: u64, block_bits: u64, num_lines: u32) -> (cache: Cache)
        requires
            set_bits + block_bits < 64,
            num_lines >= 1,
        ensures
            cache@ == CacheModel::init(set_bits as nat, block_bits as nat, num_lines as nat),
            cache@.wf(),
    {
        proof {
            lemma_u64_pow2_no_overflow(set_bits as nat);
            lemma_u64_shl_is_mul(1u64, set_bits);
        }
        let set_num: u64 = 1u64 << set_bits;
        let mut new_sets: Vec<Vec<u64>> = Vec::new();
        let mut i: u64 = 0;
        while i < set_num
            invariant
                i <= set_num,
                new_sets@.len() == i as nat,
                forall|j: int| 0 <= j < i as int ==> (#[trigger] new_sets@[j])@.len() == 0,
            decreases set_num - i,
        {
            new_sets.push(Vec::new());
            i = i + 1;
        }
        let cache = Cache { sets: new_sets, set_bits, block_bits, num_lines, hit: 0, miss: 0, evict: 0 };
        proof {
            let m = CacheModel::init(set_bits as nat, block_bits as nat, num_lines as nat);
            assert(cache@.sets =~~= m.sets);
            assert(cache@ =~~= m);
        }
        cache
    }

    /// Decompose a raw address into its tag and set index.
    fn process_address(&self, addr: u64) -> (address: Address)
        requires
            self.set_bits + self.block_bits < 64,
        ensures
            address.tag == spec_tag(addr, self.set_bits as nat, self.block_bits as nat),
            address.set_index as int == spec_set_index(
                addr,
                self.set_bits as nat,
                self.block_bits as nat,
            ),
    {
        let shift = self.block_bits + self.set_bits;
        let tag = addr >> shift;
        let above_offset = addr >> self.block_bits;
        proof {
            lemma_u64_shr_is_div(addr, shift);
            lemma_u64_shr_is_div(addr, self.block_bits);
            lemma_u64_pow2_no_overflow(self.set_bits as nat);
            lemma_u64_shl_is_mul(1u64, self.set_bits);
            lemma_pow2_pos(self.set_bits as nat);
        }
        let mask = (1u64 << self.set_bits) - 1;
        let set_index = above_offset & mask;
        proof {
            assert(mask == low_bits_mask(self.set_bits as nat) as u64);
            lemma_u64_low_bits_mask_is_mod(above_offset, self.set_bits as nat);
        }
        Address { tag, set_index }
    }

    /// Record a hit or a miss: report whether `address.tag` is resident, and
    /// bump the matching counter.
    fn check_hit(&mut self, address: &Address) -> (r: bool)
        requires
            (address.set_index as int) < old(self).sets@.len(),
            old(self).hit < u64::MAX,
            old(self).miss < u64::MAX,
        ensures
            r == old(self).sets@[address.set_index as int]@.contains(address.tag),
            final(self).sets == old(self).sets,
            final(self).set_bits == old(self).set_bits,
            final(self).block_bits == old(self).block_bits,
            final(self).num_lines == old(self).num_lines,
            final(self).evict == old(self).evict,
            r ==> final(self).hit == old(self).hit + 1 && final(self).miss == old(self).miss,
            !r ==> final(self).miss == old(self).miss + 1 && final(self).hit == old(self).hit,
    {
        let n = self.sets.len();
        let idx = address.set_index as usize;
        proof {
            assert(idx as int == address.set_index as int && idx < n);
        }
        let found = find_tag(&self.sets[idx], address.tag);
        match found {
            Some(pos) => {
                proof {
                    assert(self.sets@[idx as int]@[pos as int] == address.tag);
                }
                self.hit = self.hit + 1;
                true
            },
            None => {
                self.miss = self.miss + 1;
                false
            },
        }
    }

    /// Move the resident `address.tag` to the most-recently-used end.
    fn update(&mut self, address: &Address)
        requires
            (address.set_index as int) < old(self).sets@.len(),
            old(self).sets@[address.set_index as int]@.contains(address.tag),
        ensures
            final(self).sets@.len() == old(self).sets@.len(),
            forall|j: int|
                0 <= j < old(self).sets@.len() && j != address.set_index as int
                    ==> final(self).sets@[j] == old(self).sets@[j],
            final(self).sets@[address.set_index as int]@ == old(self).sets@[address.set_index as int]@.remove_value(
                address.tag,
            ).push(address.tag),
            final(self).set_bits == old(self).set_bits,
            final(self).block_bits == old(self).block_bits,
            final(self).num_lines == old(self).num_lines,
            final(self).hit == old(self).hit,
            final(self).miss == old(self).miss,
            final(self).evict == old(self).evict,
    {
        let n = self.sets.len();
        let idx = address.set_index as usize;
        proof {
            assert(idx as int == address.set_index as int && idx < n);
        }
        let ghost line0 = self.sets@[idx as int]@;
        let pos = match find_tag(&self.sets[idx], address.tag) {
            Some(p) => p,
            None => {
                proof {
                    assert(false);
                }
                0
            },
        };
        proof {
            line0.index_of_first_ensures(address.tag);
        }
        let mut line = self.sets.remove(idx);
        line.remove(pos);
        line.push(address.tag);
        self.sets.insert(idx, line);
        proof {
            assert(self.sets@ =~= old(self).sets@.update(
                address.set_index as int,
                self.sets@[address.set_index as int],
            ));
        }
    }

    /// Report whether the addressed set still has a free line.
    fn check_free(&self, address: &Address) -> (r: bool)
        requires
            (address.set_index as int) < self.sets@.len(),
        ensures
            r == (self.sets@[address.set_index as int]@.len() < self.num_lines as nat),
    {
        let n = self.sets.len();
        let idx = address.set_index as usize;
        proof {
            assert(idx as int == address.set_index as int && idx < n);
        }
        let line = &self.sets[idx];
        line.len() < (self.num_lines as usize)
    }

    /// Append `address.tag` to the most-recently-used end of a set with room.
    fn insert(&mut self, address: &Address)
        requires
            (address.set_index as int) < old(self).sets@.len(),
        ensures
            final(self).sets@.len() == old(self).sets@.len(),
            forall|j: int|
                0 <= j < old(self).sets@.len() && j != address.set_index as int
                    ==> final(self).sets@[j] == old(self).sets@[j],
            final(self).sets@[address.set_index as int]@ == old(self).sets@[address.set_index as int]@.push(
                address.tag,
            ),
            final(self).set_bits == old(self).set_bits,
            final(self).block_bits == old(self).block_bits,
            final(self).num_lines == old(self).num_lines,
            final(self).hit == old(self).hit,
            final(self).miss == old(self).miss,
            final(self).evict == old(self).evict,
    {
        let n = self.sets.len();
        let idx = address.set_index as usize;
        proof {
            assert(idx as int == address.set_index as int && idx < n);
        }
        let mut line = self.sets.remove(idx);
        line.push(address.tag);
        self.sets.insert(idx, line);
        proof {
            assert(self.sets@ =~= old(self).sets@.update(
                address.set_index as int,
                self.sets@[address.set_index as int],
            ));
        }
    }

    /// Drop the least-recently-used tag from a full set, install
    /// `address.tag` at the most-recently-used end, and count the eviction.
    fn evict(&mut self, address: &Address)
        requires
            (address.set_index as int) < old(self).sets@.len(),
            old(self).sets@[address.set_index as int]@.len() == old(self).num_lines as nat,
            old(self).num_lines >= 1,
            old(self).evict < u64::MAX,
        ensures
            final(self).sets@.len() == old(self).sets@.len(),
            forall|j: int|
                0 <= j < old(self).sets@.len() && j != address.set_index as int
                    ==> final(self).sets@[j] == old(self).sets@[j],
            final(self).sets@[address.set_index as int]@ == old(self).sets@[address.set_index as int]@.drop_first().push(
                address.tag,
            ),
            final(self).set_bits == old(self).set_bits,
            final(self).block_bits == old(self).block_bits,
            final(self).num_lines == old(self).num_lines,
            final(self).hit == old(self).hit,
            final(self).miss == old(self).miss,
            final(self).evict == old(self).evict + 1,
    {
        let n = self.sets.len();
        let idx = address.set_index as usize;
        proof {
            assert(idx as int == address.set_index as int && idx < n);
        }
        let mut line = self.sets.remove(idx);
        line.remove(0);
        line.push(address.tag);
        self.sets.insert(idx, line);
        self.evict = self.evict + 1;
        proof {
            assert(old(self).sets@[address.set_index as int]@.remove(0)
                =~= old(self).sets@[address.set_index as int]@.drop_first());
            assert(self.sets@ =~= old(self).sets@.update(
                address.set_index as int,
                self.sets@[address.set_index as int],
            ));
        }
    }

    /// Perform one cache access: a hit refreshes the tag's recency; a miss
    /// installs the tag, evicting the least-recently-used tag if the set is
    /// full. Returns the results in the order they occurred.
    pub fn operate(&mut self, addr: u64) -> (results: Vec<CacheResult>)
        requires
            old(self)@.wf(),
            old(self)@.hits + old(self)@.misses < u64::MAX,
        ensures
            final(self)@ == old(self)@.after_access(addr),
            final(self)@.wf(),
            results@ == old(self)@.access_results(addr),
    {
        proof {
            lemma_pow2_pos(old(self)@.set_bits);
            lemma_access_preserves_wf(old(self)@, addr);
        }
        let ghost m0 = old(self)@;
        let address = self.process_address(addr);
        let ghost i = address.set_index as int;
        let ghost t = address.tag;
        let mut results: Vec<CacheResult> = Vec::new();
        if self.check_hit(&address) {
            results.push(CacheResult::Hit);
            self.update(&address);
            proof {
                assert(self@.sets =~~= m0.sets.update(i, lru_after_access(m0.sets[i], t, m0.lines)));
                assert(self@ =~~= m0.after_access(addr));
                assert(results@ =~= m0.access_results(addr));
            }
        } else {
            results.push(CacheResult::Miss);
            if self.check_free(&address) {
                self.insert(&address);
                proof {
                    assert(self@.sets =~~= m0.sets.update(
                        i,
                        lru_after_access(m0.sets[i], t, m0.lines),
                    ));
                    assert(self@ =~~= m0.after_access(addr));
                    assert(results@ =~= m0.access_results(addr));
                }
            } else {
                results.push(CacheResult::Eviction);
                self.evict(&address);
                proof {
                    assert(self@.sets =~~= m0.sets.update(
                        i,
                        lru_after_access(m0.sets[i], t, m0.lines),
                    ));
                    assert(self@ =~~= m0.after_access(addr));
                    assert(results@ =~= m0.access_results(addr));
                }
            }
        }
        results
    }

    /// Execute one instruction: loads and stores access once, a
    /// read-modify-write accesses twice at the same address, and an
    /// instruction fetch does nothing.
    pub fn run_command(&mut self, command: Cmd) -> (results: Vec<CacheResult>)
        requires
            old(self)@.wf(),
            old(self)@.hits + old(self)@.misses + accesses_of(command.inst) <= u64::MAX,
        ensures
            final(self)@ == old(self)@.after_command(command),
            final(self)@.wf(),
            results@ == old(self)@.command_results(command),
    {
        if command.inst == CacheInstruction::Load || command.inst == CacheInstruction::Store {
            self.operate(command.address)
        } else if command.inst == CacheInstruction::Modify {
            let mut results = self.operate(command.address);
            proof {
                lemma_access_counts(old(self)@, command.address);
            }
            let mut second = self.operate(command.address);
            results.append(&mut second);
            results
        } else {
            Vec::new()
        }
    }

    /// The counter summary, rendered as one line. Reading it never changes
    /// the cache, and the result depends on the counters alone, so repeated
    /// calls without an intervening access return identical strings.
    pub fn cache_results(&self) -> (summary: String)
        ensures
            summary@ == spec_summary(self@.hits, self@.misses, self@.evictions),
    {
        let mut summary = String::from_str("hits:");
        let hits = u64_to_decimal(self.hit);
        summary.append(hits.as_str());
        summary.append(" misses:");
        let misses = u64_to_decimal(self.miss);
        summary.append(misses.as_str());
        summary.append(" evictions:");
        let evictions = u64_to_decimal(self.evict);
        summary.append(evictions.as_str());
        proof {
            assert(summary@ =~= spec_summary(self@.hits, self@.misses, self@.evictions));
        }
        summary
    }
}

} // verus!
