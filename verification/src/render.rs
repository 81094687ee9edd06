//! Rendering results as text: the fixed vocabulary for single access results,
//! space-joining a result list in call order, and the decimal counter summary.

use vstd::prelude::*;
use vstd::string::StringExecFns;
use crate::types::CacheResult;

verus! {

/// The digit character for one decimal digit value.
pub open spec fn decimal_digit(d: nat) -> char {
    if d == 0 {
        '0'
    } else if d == 1 {
        '1'
    } else if d == 2 {
        '2'
    } else if d == 3 {
        '3'
    } else if d == 4 {
        '4'
    } else if d == 5 {
        '5'
    } else if d == 6 {
        '6'
    } else if d == 7 {
        '7'
    } else if d == 8 {
        '8'
    } else {
        '9'
    }
}

/// The decimal rendering of a number, most significant digit first, with no
/// leading zeros (a lone zero for zero itself).
pub open spec fn spec_decimal(n: nat) -> Seq<char>
    decreases n,
{
    if n < 10 {
        seq![decimal_digit(n)]
    } else {
        spec_decimal(n / 10).push(decimal_digit(n % 10))
    }
}

/// The word reported for one access result.
pub open spec fn spec_result_name(r: CacheResult) -> Seq<char> {
    match r {
        CacheResult::Hit => "hit"@,
        CacheResult::Miss => "miss"@,
        CacheResult::Eviction => "eviction"@,
    }
}

/// A result list joined with single spaces, in call order.
pub open spec fn spec_joined_results(results: Seq<CacheResult>) -> Seq<char>
    decreases results.len(),
{
    if results.len() == 0 {
        Seq::empty()
    } else if results.len() == 1 {
        spec_result_name(results[0])
    } else {
        spec_joined_results(results.drop_last()) + " "@ + spec_result_name(results.last())
    }
}

/// The one-line counter summary.
pub open spec fn spec_summary(hits: nat, misses: nat, evictions: nat) -> Seq<char> {
    "hits:"@ + spec_decimal(hits) + " misses:"@ + spec_decimal(misses) + " evictions:"@
        + spec_decimal(evictions)
}

impl CacheResult {
    /// The word this result is reported as.
    pub fn as_str(&self) -> (s: &'static str)
        ensures
            s@ == spec_result_name(*self),
    {
        match self {
            CacheResult::Hit => "hit",
            CacheResult::Miss => "miss",
            CacheResult::Eviction => "eviction",
        }
    }
}

/// One decimal digit as a string slice.
fn digit_str(d: u64) -> (s: &'static str)
    requires
        d < 10,
    ensures
        s@ == seq![decimal_digit(d as nat)],
{
    let s = if d == 0 {
        "0"
    } else if d == 1 {
        "1"
    } else if d == 2 {
        "2"
    } else if d == 3 {
        "3"
    } else if d == 4 {
        "4"
    } else if d == 5 {
        "5"
    } else if d == 6 {
        "6"
    } else if d == 7 {
        "7"
    } else if d == 8 {
        "8"
    } else {
        "9"
    };
    proof {
        reveal_strlit("0");
        reveal_strlit("1");
        reveal_strlit("2");
        reveal_strlit("3");
        reveal_strlit("4");
        reveal_strlit("5");
        reveal_strlit("6");
        reveal_strlit("7");
        reveal_strlit("8");
        reveal_strlit("9");
        assert(s@ =~= seq![decimal_digit(d as nat)]);
    }
    s
}

/// Render a counter in decimal.
pub fn u64_to_decimal(n: u64) -> (s: String)
    ensures
        s@ == spec_decimal(n as nat),
    decreases n,
{
    if n < 10 {
        String::from_str(digit_str(n))
    } else {
        let mut s = u64_to_decimal(n / 10);
        s.append(digit_str(n % 10));
        proof {
            assert(s@ =~= spec_decimal(n as nat));
        }
        s
    }
}

/// Join a result list with single spaces, in call order.
pub fn results_to_string(results: &Vec<CacheResult>) -> (s: String)
    ensures
        s@ == spec_joined_results(results@),
{
    let mut s = String::new();
    let mut i: usize = 0;
    while i < results.len()
        invariant
            i <= results@.len(),
            s@ == spec_joined_results(results@.take(i as int)),
        decreases results@.len() - i,
    {
        if i > 0 {
            s.append(" ");
        }
        s.append(results[i].as_str());
        proof {
            assert(results@.take(i + 1).drop_last() =~= results@.take(i as int));
            assert(results@.take(i + 1).last() == results@[i as int]);
            assert(s@ =~= spec_joined_results(results@.take(i + 1)));
        }
        i = i + 1;
    }
    proof {
        assert(results@.take(results@.len() as int) =~= results@);
    }
    s
}

} // verus!
