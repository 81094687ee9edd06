//! Parsing trace lines. A line has the shape
//! `<op-letter><whitespace><hex-address>[,<size>]`: fields are separated by
//! spaces and commas, the first field names the operation, the second is the
//! address in hexadecimal, and a trailing size field is accepted but ignored.
//! A malformed line — one whose first field is not an operation letter, or
//! one missing its address field — parses to no command.

use vstd::prelude::*;
use vstd::string::StrSliceExecFns;
use crate::types::{CacheInstruction, Cmd};

verus! {

/// The characters that separate fields of a trace line.
pub open spec fn is_separator(c: char) -> bool {
    c == ' ' || c == ','
}

/// A sequence without its leading separators.
pub open spec fn skip_separators(s: Seq<char>) -> Seq<char>
    decreases s.len(),
{
    if s.len() > 0 && is_separator(s[0]) {
        skip_separators(s.drop_first())
    } else {
        s
    }
}

/// The longest separator-free prefix of a sequence.
pub open spec fn leading_token(s: Seq<char>) -> Seq<char>
    decreases s.len(),
{
    if s.len() > 0 && !is_separator(s[0]) {
        seq![s[0]] + leading_token(s.drop_first())
    } else {
        Seq::empty()
    }
}

/// A sequence without its longest separator-free prefix.
pub open spec fn after_leading_token(s: Seq<char>) -> Seq<char>
    decreases s.len(),
{
    if s.len() > 0 && !is_separator(s[0]) {
        after_leading_token(s.drop_first())
    } else {
        s
    }
}

/// The first field of a trace line.
pub open spec fn first_field(s: Seq<char>) -> Seq<char> {
    leading_token(skip_separators(s))
}

/// The second field of a trace line.
pub open spec fn second_field(s: Seq<char>) -> Seq<char> {
    leading_token(skip_separators(after_leading_token(skip_separators(s))))
}

/// The instruction named by a first field, if any.
pub open spec fn spec_instruction_of(tok: Seq<char>) -> Option<CacheInstruction> {
    if tok == seq!['I'] {
        Some(CacheInstruction::Instruction)
    } else if tok == seq!['L'] {
        Some(CacheInstruction::Load)
    } else if tok == seq!['S'] {
        Some(CacheInstruction::Store)
    } else if tok == seq!['M'] {
        Some(CacheInstruction::Modify)
    } else {
        None
    }
}

/// Whether a character is a hexadecimal digit, either case.
pub open spec fn is_hex_digit(c: char) -> bool {
    (('0' as u32) <= (c as u32) && (c as u32) <= ('9' as u32)) || (('a' as u32) <= (c as u32) && (
    c as u32) <= ('f' as u32)) || (('A' as u32) <= (c as u32) && (c as u32) <= ('F' as u32))
}

/// The value of one hexadecimal digit.
pub open spec fn hex_digit_value(c: char) -> nat {
    if ('0' as u32) <= (c as u32) && (c as u32) <= ('9' as u32) {
        ((c as u32) - ('0' as u32)) as nat
    } else if ('a' as u32) <= (c as u32) && (c as u32) <= ('f' as u32) {
        ((c as u32) - ('a' as u32) + 10) as nat
    } else {
        ((c as u32) - ('A' as u32) + 10) as nat
    }
}

/// Whether every character of a sequence is a hexadecimal digit.
pub open spec fn all_hex_digits(s: Seq<char>) -> bool {
    forall|i: int| 0 <= i < s.len() ==> is_hex_digit(#[trigger] s[i])
}

/// The number written by a sequence of hexadecimal digits, most significant
/// digit first.
pub open spec fn hex_value(s: Seq<char>) -> nat
    decreases s.len(),
{
    if s.len() == 0 {
        0
    } else {
        16 * hex_value(s.drop_last()) + hex_digit_value(s.last())
    }
}

/// Whether a field is a well-formed hexadecimal address that fits a `u64`.
pub open spec fn valid_hex_u64(s: Seq<char>) -> bool {
    &&& s.len() > 0
    &&& all_hex_digits(s)
    &&& hex_value(s) <= u64::MAX
}

/// Whether a line can be parsed without a fault: if its first field names an
/// operation and an address field is present, that field must be hexadecimal
/// and fit a `u64`. Only a non-hexadecimal (or overflowing) address is a
/// caller-side fatal error; a missing address field is merely a malformed
/// line, which parses to no command.
pub open spec fn line_parses(s: Seq<char>) -> bool {
    spec_instruction_of(first_field(s)) is Some && second_field(s).len() > 0
        ==> valid_hex_u64(second_field(s))
}

proof fn lemma_skip_separators_span(s: Seq<char>, k: int)
    requires
        0 <= k <= s.len(),
        forall|j: int| 0 <= j < k ==> is_separator(#[trigger] s[j]),
        k == s.len() || !is_separator(s[k]),
    ensures
        skip_separators(s) == s.skip(k),
    decreases k,
{
    if k == 0 {
        assert(s.skip(0) =~= s);
    } else {
        let d = s.drop_first();
        assert(forall|j: int| 0 <= j < k - 1 ==> is_separator(#[trigger] d[j]));
        lemma_skip_separators_span(d, k - 1);
        assert(d.skip(k - 1) =~= s.skip(k));
    }
}

proof fn lemma_token_span(s: Seq<char>, k: int)
    requires
        0 <= k <= s.len(),
        forall|j: int| 0 <= j < k ==> !is_separator(#[trigger] s[j]),
        k == s.len() || is_separator(s[k]),
    ensures
        leading_token(s) == s.take(k),
        after_leading_token(s) == s.skip(k),
    decreases k,
{
    if k == 0 {
        assert(s.take(0) =~= Seq::<char>::empty());
        assert(s.skip(0) =~= s);
    } else {
        let d = s.drop_first();
        assert(forall|j: int| 0 <= j < k - 1 ==> !is_separator(#[trigger] d[j]));
        lemma_token_span(d, k - 1);
        assert(seq![s[0]] + d.take(k - 1) =~= s.take(k));
        assert(d.skip(k - 1) =~= s.skip(k));
    }
}

proof fn lemma_hex_prefix_le(s: Seq<char>, q: int)
    requires
        0 <= q <= s.len(),
    ensures
        hex_value(s.take(q)) <= hex_value(s),
    decreases s.len() - q,
{
    if q == s.len() {
        assert(s.take(q) =~= s);
    } else {
        assert(s.take(q + 1).drop_last() =~= s.take(q));
        assert(hex_value(s.take(q + 1)) == 16 * hex_value(s.take(q)) + hex_digit_value(
            s.take(q + 1).last(),
        ));
        lemma_hex_prefix_le(s, q + 1);
    }
}

/// First index at or after `start` holding a non-separator, scanning over
/// separators.
fn scan_separators(line: &str, start: usize) -> (end: usize)
    requires
        start as int <= line@.len(),
    ensures
        start <= end,
        end as int <= line@.len(),
        forall|j: int| start as int <= j < end as int ==> is_separator(#[trigger] line@[j]),
        (end as int) < line@.len() ==> !is_separator(line@[end as int]),
{
    let n = line.unicode_len();
    let mut i = start;
    loop
        invariant
            n == line@.len(),
            start <= i <= n,
            forall|j: int| start as int <= j < i as int ==> is_separator(#[trigger] line@[j]),
        ensures
            start <= i <= n,
            forall|j: int| start as int <= j < i as int ==> is_separator(#[trigger] line@[j]),
            (i as int) < line@.len() ==> !is_separator(line@[i as int]),
        decreases n - i,
    {
        if i >= n {
            break ;
        }
        let c = line.get_char(i);
        if !(c == ' ' || c == ',') {
            break ;
        }
        i = i + 1;
    }
    i
}

/// First index at or after `start` holding a separator, scanning over a
/// field.
fn scan_token(line: &str, start: usize) -> (end: usize)
    requires
        start as int <= line@.len(),
    ensures
        start <= end,
        end as int <= line@.len(),
        forall|j: int| start as int <= j < end as int ==> !is_separator(#[trigger] line@[j]),
        (end as int) < line@.len() ==> is_separator(line@[end as int]),
{
    let n = line.unicode_len();
    let mut i = start;
    loop
        invariant
            n == line@.len(),
            start <= i <= n,
            forall|j: int| start as int <= j < i as int ==> !is_separator(#[trigger] line@[j]),
        ensures
            start <= i <= n,
            forall|j: int| start as int <= j < i as int ==> !is_separator(#[trigger] line@[j]),
            (i as int) < line@.len() ==> is_separator(line@[i as int]),
        decreases n - i,
    {
        if i >= n {
            break ;
        }
        let c = line.get_char(i);
        if c == ' ' || c == ',' {
            break ;
        }
        i = i + 1;
    }
    i
}

/// The instruction named by an operation field.
fn str_to_inst(token: &str) -> (inst: Option<CacheInstruction>)
    ensures
        inst == spec_instruction_of(token@),
{
    let n = token.unicode_len();
    if n != 1 {
        return None;
    }
    let c = token.get_char(0);
    if c == 'I' {
        proof {
            assert(token@ =~= seq!['I']);
        }
        Some(CacheInstruction::Instruction)
    } else if c == 'L' {
        proof {
            assert(token@ =~= seq!['L']);
        }
        Some(CacheInstruction::Load)
    } else if c == 'S' {
        proof {
            assert(token@ =~= seq!['S']);
        }
        Some(CacheInstruction::Store)
    } else if c == 'M' {
        proof {
            assert(token@ =~= seq!['M']);
        }
        Some(CacheInstruction::Modify)
    } else {
        None
    }
}

/// The value of one hexadecimal digit character.
fn hex_digit(c: char) -> (d: u64)
    requires
        is_hex_digit(c),
    ensures
        d as nat == hex_digit_value(c),
        d < 16,
{
    let u = c as u32;
    if u >= 48 && u <= 57 {
        (u - 48) as u64
    } else if u >= 97 && u <= 102 {
        (u - 87) as u64
    } else {
        (u - 55) as u64
    }
}

/// Parse one trace line into a command. A malformed line yields no command:
/// one whose first field is not an operation letter (including an empty
/// line), or one naming an operation but missing its address field. For a
/// line naming an operation with an address present, the second field is
/// read as a hexadecimal address.
pub fn line_to_command(line: &str) -> (cmd: Option<Cmd>)
    requires
        line_parses(line@),
    ensures
        ({
            let inst = spec_instruction_of(first_field(line@));
            match cmd {
                Some(c) => inst == Some(c.inst) && second_field(line@).len() > 0
                    && c.address as nat == hex_value(second_field(line@)),
                None => inst is None || second_field(line@).len() == 0,
            }
        }),
{
    let i = scan_separators(line, 0);
    let j = scan_token(line, i);
    proof {
        lemma_skip_separators_span(line@, i as int);
        let t = line@.skip(i as int);
        assert(forall|j2: int| 0 <= j2 < j - i ==> !is_separator(#[trigger] t[j2]));
        lemma_token_span(t, j - i);
        assert(t.take(j - i) =~= line@.subrange(i as int, j as int));
        assert(first_field(line@) == line@.subrange(i as int, j as int));
        assert(t.skip(j - i) =~= line@.skip(j as int));
    }
    if i == j {
        proof {
            assert(first_field(line@) =~= Seq::<char>::empty());
        }
        return None;
    }
    let token = line.substring_char(i, j);
    let inst = match str_to_inst(token) {
        Some(x) => x,
        None => {
            return None;
        },
    };
    let k = scan_separators(line, j);
    let m = scan_token(line, k);
    proof {
        let u = line@.skip(j as int);
        assert(forall|j2: int| 0 <= j2 < k - j ==> is_separator(#[trigger] u[j2]));
        lemma_skip_separators_span(u, k - j);
        assert(u.skip(k - j) =~= line@.skip(k as int));
        let v = line@.skip(k as int);
        assert(forall|j2: int| 0 <= j2 < m - k ==> !is_separator(#[trigger] v[j2]));
        lemma_token_span(v, m - k);
        assert(v.take(m - k) =~= line@.subrange(k as int, m as int));
        assert(second_field(line@) == line@.subrange(k as int, m as int));
    }
    if k == m {
        proof {
            assert(second_field(line@) =~= Seq::<char>::empty());
        }
        return None;
    }
    let ghost field = line@.subrange(k as int, m as int);
    proof {
        assert(field.len() > 0);
        assert(valid_hex_u64(field));
    }
    let mut value: u64 = 0;
    let mut p = k;
    while p < m
        invariant
            k <= p <= m,
            m as int <= line@.len(),
            field == line@.subrange(k as int, m as int),
            all_hex_digits(field),
            hex_value(field) <= u64::MAX,
            value as nat == hex_value(line@.subrange(k as int, p as int)),
        decreases m - p,
    {
        let c = line.get_char(p);
        proof {
            assert(c == field[p - k]);
        }
        let d = hex_digit(c);
        proof {
            assert(line@.subrange(k as int, p as int + 1).drop_last() =~= line@.subrange(
                k as int,
                p as int,
            ));
            assert(field.take(p - k + 1) =~= line@.subrange(k as int, p as int + 1));
            lemma_hex_prefix_le(field, p - k + 1);
            assert(16 * (value as nat) + (d as nat) == hex_value(
                line@.subrange(k as int, p as int + 1),
            ));
        }
        value = value * 16 + d;
        p = p + 1;
    }
    Some(Cmd { inst, address: value })
}

} // verus!
