//! Character sequences: decimal rendering of integers and joining of lists.

use vstd::prelude::*;

verus! {

/// The ASCII character of a decimal digit.
pub open spec fn digit_char(d: int) -> char {
    if d == 0 { '0' }
    else if d == 1 { '1' }
    else if d == 2 { '2' }
    else if d == 3 { '3' }
    else if d == 4 { '4' }
    else if d == 5 { '5' }
    else if d == 6 { '6' }
    else if d == 7 { '7' }
    else if d == 8 { '8' }
    else { '9' }
}

/// The decimal digits of a natural number, most significant first, without leading zeros.
pub open spec fn digits(n: nat) -> Seq<char>
    decreases n,
{
    if n < 10 {
        seq![digit_char(n as int)]
    } else {
        digits(n / 10).push(digit_char((n % 10) as int))
    }
}

/// An integer written in decimal, with a leading `-` when it is negative.
pub open spec fn decimal(i: int) -> Seq<char> {
    if i < 0 {
        seq!['-'] + digits((-i) as nat)
    } else {
        digits(i as nat)
    }
}

/// The values written in decimal and separated by `sep`.
pub open spec fn join_decimal(values: Seq<i32>, sep: Seq<char>) -> Seq<char>
    decreases values.len(),
{
    if values.len() == 0 {
        Seq::empty()
    } else if values.len() == 1 {
        decimal(values[0] as int)
    } else {
        join_decimal(values.drop_last(), sep) + sep + decimal(values.last() as int)
    }
}

/// The pieces concatenated in order.
pub open spec fn concat_all(pieces: Seq<Seq<char>>) -> Seq<char>
    decreases pieces.len(),
{
    if pieces.len() == 0 {
        Seq::empty()
    } else {
        concat_all(pieces.drop_last()) + pieces.last()
    }
}

fn digit_of(d: u64) -> (c: char)
    requires
        d < 10,
    ensures
        c == digit_char(d as int),
{
    if d == 0 { '0' }
    else if d == 1 { '1' }
    else if d == 2 { '2' }
    else if d == 3 { '3' }
    else if d == 4 { '4' }
    else if d == 5 { '5' }
    else if d == 6 { '6' }
    else if d == 7 { '7' }
    else if d == 8 { '8' }
    else { '9' }
}

fn push_digits(out: &mut Vec<char>, n: u64)
    ensures
        final(out)@ == old(out)@ + digits(n as nat),
    decreases n,
{
    if n >= 10 {
        push_digits(out, n / 10);
    }
    out.push(digit_of(n % 10));
}

/// Appends `i` written in decimal.
pub fn push_decimal(out: &mut Vec<char>, i: i32)
    ensures
        final(out)@ == old(out)@ + decimal(i as int),
{
    if i < 0 {
        out.push('-');
        let magnitude: u64 = (-(i as i64)) as u64;
        push_digits(out, magnitude);
    } else {
        push_digits(out, i as u64);
    }
}

/// Appends the characters of `s`.
pub fn push_str(out: &mut Vec<char>, s: &str)
    ensures
        final(out)@ == old(out)@ + s@,
{
    let n = s.unicode_len();
    let mut k: usize = 0;
    while k < n
        invariant
            n == s@.len(),
            k <= n,
            out@ == old(out)@ + s@.take(k as int),
        decreases n - k,
    {
        let c = s.get_char(k);
        out.push(c);
        assert(s@.take(k + 1) =~= s@.take(k as int).push(c));
        k = k + 1;
    }
    assert(s@.take(n as int) =~= s@);
}

/// Appends the values written in decimal and separated by `sep`.
pub fn push_joined(out: &mut Vec<char>, values: &Vec<i32>, sep: &str)
    ensures
        final(out)@ == old(out)@ + join_decimal(values@, sep@),
{
    let mut k: usize = 0;
    while k < values.len()
        invariant
            k <= values.len(),
            out@ == old(out)@ + join_decimal(values@.take(k as int), sep@),
        decreases values.len() - k,
    {
        let ghost before = out@;
        if k > 0 {
            push_str(out, sep);
        }
        push_decimal(out, values[k]);
        let ghost taken = values@.take(k + 1);
        assert(taken.drop_last() =~= values@.take(k as int));
        k = k + 1;
    }
    assert(values@.take(values.len() as int) =~= values@);
}

/// The characters of `s`.
pub fn chars_of(s: &str) -> (v: Vec<char>)
    ensures
        v@ == s@,
{
    let mut v: Vec<char> = Vec::new();
    push_str(&mut v, s);
    assert(v@ =~= s@);
    v
}

/// Collects characters into a `String` (std's `FromIterator<char>`); its view is the same sequence.
#[verifier::external_body]
pub fn string_from_chars(chars: &Vec<char>) -> (s: String)
    ensures
        s@ == chars@,
{
    chars.iter().collect()
}

} // verus!
