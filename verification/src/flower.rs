//! Hex flowers: which hex a roll on a hex flower's tables names.

use vstd::prelude::*;
use crate::parser::{digits_end, digits_value, scan_digits};
use crate::text::chars_of;

verus! {

/// The first (at most) two characters of a roll.
pub open spec fn hex_prefix(roll: Seq<char>) -> Seq<char> {
    roll.take(if roll.len() < 2 { roll.len() as int } else { 2 })
}

/// The hex that a roll names: its first two characters read as `str::parse::<usize>` reads
/// them (an optional `+`, then one or more decimal digits), or `None`.
pub open spec fn flower_hex_of(roll: Seq<char>) -> Option<usize> {
    let s = hex_prefix(roll);
    let start: int = if s.len() > 0 && s[0] == '+' { 1 } else { 0 };
    if start >= s.len() || digits_end(s, start) != s.len() {
        None
    } else {
        Some(digits_value(s, start, s.len() as int) as usize)
    }
}

/// The hex that a roll on a hex flower names (see `flower_hex_of`).
pub fn flower_hex(roll: &str) -> (r: Option<usize>)
    ensures
        r == flower_hex_of(roll@),
{
    let all = chars_of(roll);
    let n: usize = if all.len() < 2 { all.len() } else { 2 };
    let mut s: Vec<char> = Vec::new();
    let mut k: usize = 0;
    while k < n
        invariant
            k <= n <= all.len(),
            n == (if all@.len() < 2 { all@.len() } else { 2 }),
            s@ == all@.take(k as int),
        decreases n - k,
    {
        s.push(all[k]);
        k = k + 1;
        assert(s@ =~= all@.take(k as int));
    }
    assert(s@ == hex_prefix(roll@));
    let start: usize = if s.len() > 0 && s[0] == '+' { 1 } else { 0 };
    if start >= s.len() {
        return None;
    }
    let (value, end) = scan_digits(&s, start);
    if end != s.len() {
        return None;
    }
    proof {
        lemma_two_digits(s@, start as int);
    }
    Some(value as usize)
}

/// At most two digits have a value below 100.
proof fn lemma_two_digits(s: Seq<char>, start: int)
    requires
        0 <= start <= s.len() <= 2,
        digits_end(s, start) == s.len(),
    ensures
        0 <= digits_value(s, start, s.len() as int) < 100,
{
    crate::parser::lemma_digits_bounds(s, start, s.len() as int);
}

} // verus!
