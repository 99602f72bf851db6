//! The grammar of dice expressions (see `crate::dice`) and its parser.

use vstd::prelude::*;
use crate::dice::{Op, Expr, Term, lemma_clamped_fits};
use crate::text::chars_of;

verus! {

/// A blank that may stand between tokens.
pub open spec fn is_blank(c: char) -> bool {
    c == ' ' || c == '\t'
}

/// A decimal digit.
pub open spec fn is_digit(c: char) -> bool {
    '0' <= c && c <= '9'
}

/// The value of a decimal digit.
pub open spec fn digit_value(c: char) -> int {
    (c as int) - ('0' as int)
}

/// The first position at or after `pos` that does not hold a blank.
pub open spec fn skip_blanks(s: Seq<char>, pos: int) -> int
    decreases s.len() - pos,
{
    if 0 <= pos < s.len() && is_blank(s[pos]) {
        skip_blanks(s, pos + 1)
    } else {
        pos
    }
}

/// The first position at or after `pos` that does not hold a digit.
pub open spec fn digits_end(s: Seq<char>, pos: int) -> int
    decreases s.len() - pos,
{
    if 0 <= pos < s.len() && is_digit(s[pos]) {
        digits_end(s, pos + 1)
    } else {
        pos
    }
}

/// The number that the digits in `s[from..to]` write in decimal.
pub open spec fn digits_value(s: Seq<char>, from: int, to: int) -> int
    decreases to - from,
{
    if to <= from {
        0
    } else {
        digits_value(s, from, to - 1) * 10 + digit_value(s[to - 1])
    }
}

/// The infix operator written at `pos`, and its length; two-character operators win.
pub open spec fn infix_at(s: Seq<char>, pos: int) -> Option<(Op, int)> {
    if pos < 0 || pos >= s.len() {
        None
    } else {
        let c = s[pos];
        let d = if pos + 1 < s.len() { s[pos + 1] } else { ' ' };
        if c == '+' && d == '+' { Some((Op::MultiAdd, 2)) }
        else if c == '-' && d == '-' { Some((Op::MultiSubtract, 2)) }
        else if c == '*' && d == '*' { Some((Op::MultiMultiply, 2)) }
        else if c == '/' && d == '/' { Some((Op::MultiDivide, 2)) }
        else if c == 'k' && d == 'h' { Some((Op::KeepHighest, 2)) }
        else if c == 'k' && d == 'l' { Some((Op::KeepLowest, 2)) }
        else if c == 'd' && d == 'h' { Some((Op::DropHighest, 2)) }
        else if c == 'd' && d == 'l' { Some((Op::DropLowest, 2)) }
        else if c == '+' { Some((Op::Add, 1)) }
        else if c == '-' { Some((Op::Subtract, 1)) }
        else if c == '*' { Some((Op::Multiply, 1)) }
        else if c == '/' { Some((Op::Divide, 1)) }
        else if c == 'd' { Some((Op::Dice, 1)) }
        else if c == ',' { Some((Op::Comma, 1)) }
        else if c == '@' { Some((Op::Repeat, 1)) }
        else { None }
    }
}

/// How tightly an infix operator binds: higher binds tighter.
pub open spec fn binding_power(op: Op) -> int {
    match op {
        Op::Comma => 10,
        Op::Repeat => 20,
        Op::MultiAdd | Op::MultiSubtract | Op::MultiMultiply | Op::MultiDivide => 40,
        Op::Add | Op::Subtract => 50,
        _ => 60,
    }
}

/// The binding power below which a `=` operand stops.
pub open spec fn collect_power() -> int {
    29
}

/// The binding power below which a unary `-` operand stops.
pub open spec fn minus_power() -> int {
    69
}

pub proof fn lemma_skip_blanks(s: Seq<char>, pos: int)
    requires
        0 <= pos <= s.len(),
    ensures
        pos <= skip_blanks(s, pos) <= s.len(),
        skip_blanks(s, pos) < s.len() ==> !is_blank(s[skip_blanks(s, pos)]),
    decreases s.len() - pos,
{
    if pos < s.len() && is_blank(s[pos]) {
        lemma_skip_blanks(s, pos + 1);
    }
}

pub proof fn lemma_digits_end(s: Seq<char>, pos: int)
    requires
        0 <= pos <= s.len(),
    ensures
        pos <= digits_end(s, pos) <= s.len(),
    decreases s.len() - pos,
{
    if pos < s.len() && is_digit(s[pos]) {
        lemma_digits_end(s, pos + 1);
    }
}

/// An operand or a parenthesised, prefixed or literal expression starting at `pos`.
pub open spec fn parse_operand(s: Seq<char>, pos: int) -> Option<(Term, int)>
    decreases s.len() - pos, 1int,
{
    if pos < 0 || pos > s.len() {
        None
    } else {
        let q = skip_blanks(s, pos);
        proof { lemma_skip_blanks(s, pos); }
        if q >= s.len() {
            None
        } else if s[q] == '-' {
            match parse_expr(s, q + 1, minus_power()) {
                Some((t, p)) => Some((Term::UnaryMinus(Box::new(t)), p)),
                None => None,
            }
        } else if s[q] == '=' {
            match parse_expr(s, q + 1, collect_power()) {
                Some((t, p)) => Some((Term::Collect(Box::new(t)), p)),
                None => None,
            }
        } else if s[q] == '(' {
            match parse_expr(s, q + 1, 0) {
                Some((t, p)) => {
                    let r = skip_blanks(s, p);
                    if 0 <= r < s.len() && s[r] == ')' { Some((t, r + 1)) } else { None }
                },
                None => None,
            }
        } else if is_digit(s[q]) {
            let e = digits_end(s, q);
            Some((Term::Integer(digits_value(s, q, e)), e))
        } else {
            None
        }
    }
}

/// The expression starting at `pos` that takes in every infix operator binding tighter
/// than `power`, and the position after it.
pub open spec fn parse_expr(s: Seq<char>, pos: int, power: int) -> Option<(Term, int)>
    decreases s.len() - pos, 2int,
{
    if pos < 0 || pos > s.len() {
        None
    } else {
        match parse_operand(s, pos) {
            Some((t, p)) => if pos < p <= s.len() { parse_infix(s, t, p, power) } else { None },
            None => None,
        }
    }
}

/// Extends `lhs`, which ends at `pos`, with the infix operators that bind tighter than `power`.
pub open spec fn parse_infix(s: Seq<char>, lhs: Term, pos: int, power: int) -> Option<(Term, int)>
    decreases s.len() - pos, 3int,
{
    if pos < 0 || pos > s.len() {
        None
    } else {
        let q = skip_blanks(s, pos);
        proof { lemma_skip_blanks(s, pos); }
        match infix_at(s, q) {
            Some((op, n)) => if binding_power(op) <= power {
                Some((lhs, pos))
            } else {
                match parse_expr(s, q + n, binding_power(op)) {
                    Some((rhs, p)) => if pos < p <= s.len() {
                        parse_infix(s, Term::BinOp { lhs: Box::new(lhs), op, rhs: Box::new(rhs) }, p, power)
                    } else {
                        None
                    },
                    None => None,
                }
            },
            None => Some((lhs, pos)),
        }
    }
}

/// The tree that the grammar gives `s`, or `None` where `s` is not a dice expression.
pub open spec fn dice_grammar(s: Seq<char>) -> Option<Term> {
    match parse_expr(s, 0, 0) {
        Some((t, p)) => if skip_blanks(s, p) == s.len() { Some(t) } else { None },
        None => None,
    }
}


// ---------------------------------------------------------------------------
// The parser

fn is_blank_exec(c: char) -> (b: bool)
    ensures
        b == is_blank(c),
{
    c == ' ' || c == '\t'
}

fn is_digit_exec(c: char) -> (b: bool)
    ensures
        b == is_digit(c),
{
    '0' <= c && c <= '9'
}

fn skip_blanks_exec(s: &Vec<char>, pos: usize) -> (r: usize)
    requires
        pos <= s.len(),
    ensures
        r == skip_blanks(s@, pos as int),
        pos <= r <= s.len(),
{
    proof { lemma_skip_blanks(s@, pos as int); }
    let mut k = pos;
    while k < s.len() && is_blank_exec(s[k])
        invariant
            pos <= k <= s.len(),
            skip_blanks(s@, pos as int) == skip_blanks(s@, k as int),
        decreases s.len() - k,
    {
        k = k + 1;
    }
    k
}

/// The digits of `s[from..to]`, all decimal digits, write a number below `10^(to - from)`.
pub proof fn lemma_digits_bounds(s: Seq<char>, from: int, to: int)
    requires
        0 <= from <= to <= s.len(),
        digits_end(s, from) >= to,
        to - from <= 2,
    ensures
        0 <= digits_value(s, from, to) < (if to - from == 0 { 1int } else if to - from == 1 { 10int } else { 100int }),
    decreases to - from,
{
    if to > from {
        lemma_digits_end(s, from);
        lemma_digits_run(s, from, to - 1);
        lemma_digits_bounds(s, from, to - 1);
    }
}

/// Every position before the end of a run of digits holds a digit.
pub proof fn lemma_digits_run(s: Seq<char>, from: int, i: int)
    requires
        0 <= from <= i < digits_end(s, from),
        digits_end(s, from) <= s.len(),
    ensures
        is_digit(s[i]),
    decreases i - from,
{
    if i > from {
        assert(digits_end(s, from) == digits_end(s, from + 1));
        lemma_digits_run(s, from + 1, i);
    }
}

/// Reads the digits at `q`: where they end, and their value, lowered to `2^32` where it is larger.
pub fn scan_digits(s: &Vec<char>, q: usize) -> (r: (u64, usize))
    requires
        q <= s.len(),
    ensures
        r.1 == digits_end(s@, q as int),
        q <= r.1 <= s.len(),
        0 <= digits_value(s@, q as int, r.1 as int),
        r.0 == (if digits_value(s@, q as int, r.1 as int) < 0x1_0000_0000 { digits_value(s@, q as int, r.1 as int) } else { 0x1_0000_0000 }),
{
    let cap: u64 = 0x1_0000_0000;
    let mut acc: u64 = 0;
    let mut k = q;
    while k < s.len() && is_digit_exec(s[k])
        invariant
            q <= k <= s.len(),
            digits_end(s@, q as int) == digits_end(s@, k as int),
            0 <= digits_value(s@, q as int, k as int),
            acc == (if digits_value(s@, q as int, k as int) < cap { digits_value(s@, q as int, k as int) } else { cap as int }),
            cap == 0x1_0000_0000,
        decreases s.len() - k,
    {
        let c = s[k];
        let d: u64 = ((c as u32) - ('0' as u32)) as u64;
        assert(d == digit_value(c));
        assert(digits_value(s@, q as int, k + 1) == digits_value(s@, q as int, k as int) * 10 + d);
        let next = acc * 10 + d;
        acc = if next < cap { next } else { cap };
        k = k + 1;
    }
    (acc, k)
}

/// Reads the digits at `q`: where they end, whether their value fits in `i32`, and the
/// value, lowered to `i32::MAX` where it does not fit.
fn scan_integer(s: &Vec<char>, q: usize) -> (r: (i32, usize, bool))
    requires
        q < s.len(),
        is_digit(s@[q as int]),
    ensures
        r.1 == digits_end(s@, q as int),
        q < r.1 <= s.len(),
        0 <= digits_value(s@, q as int, r.1 as int),
        r.2 == (digits_value(s@, q as int, r.1 as int) <= i32::MAX),
        r.0 == (if r.2 { digits_value(s@, q as int, r.1 as int) } else { i32::MAX as int }),
{
    let (acc, end) = scan_digits(s, q);
    assert(digits_end(s@, q as int) == digits_end(s@, q + 1));
    proof { lemma_digits_end(s@, q + 1); }
    if acc <= 0x7fff_ffff {
        (acc as i32, end, true)
    } else {
        (i32::MAX, end, false)
    }
}

fn infix_at_exec(s: &Vec<char>, pos: usize) -> (r: Option<(Op, usize)>)
    ensures
        match infix_at(s@, pos as int) {
            Some((op, n)) => r == Some((op, n as usize)) && 1 <= n <= 2 && pos + n <= s.len(),
            None => r is None,
        },
{
    if pos >= s.len() {
        return None;
    }
    let c = s[pos];
    let d = if pos + 1 < s.len() { s[pos + 1] } else { ' ' };
    if c == '+' && d == '+' { Some((Op::MultiAdd, 2)) }
    else if c == '-' && d == '-' { Some((Op::MultiSubtract, 2)) }
    else if c == '*' && d == '*' { Some((Op::MultiMultiply, 2)) }
    else if c == '/' && d == '/' { Some((Op::MultiDivide, 2)) }
    else if c == 'k' && d == 'h' { Some((Op::KeepHighest, 2)) }
    else if c == 'k' && d == 'l' { Some((Op::KeepLowest, 2)) }
    else if c == 'd' && d == 'h' { Some((Op::DropHighest, 2)) }
    else if c == 'd' && d == 'l' { Some((Op::DropLowest, 2)) }
    else if c == '+' { Some((Op::Add, 1)) }
    else if c == '-' { Some((Op::Subtract, 1)) }
    else if c == '*' { Some((Op::Multiply, 1)) }
    else if c == '/' { Some((Op::Divide, 1)) }
    else if c == 'd' { Some((Op::Dice, 1)) }
    else if c == ',' { Some((Op::Comma, 1)) }
    else if c == '@' { Some((Op::Repeat, 1)) }
    else { None }
}

fn binding_power_exec(op: Op) -> (p: u32)
    ensures
        p == binding_power(op),
{
    match op {
        Op::Comma => 10,
        Op::Repeat => 20,
        Op::MultiAdd | Op::MultiSubtract | Op::MultiMultiply | Op::MultiDivide => 40,
        Op::Add | Op::Subtract => 50,
        _ => 60,
    }
}

/// What the parser returns for a subexpression: the tree with clamped literals, where it ends,
/// and in `too_large` whether a literal did not fit.
pub open spec fn parsed_as(
    spec_result: Option<(Term, int)>,
    r: Option<(Expr, usize)>,
    too_large_before: bool,
    too_large_after: bool,
) -> bool {
    match spec_result {
        Some((t, p)) => r matches Some((e, q)) && q == p && e@ == t.clamped()
            && too_large_after == (too_large_before || !t.fits()),
        None => r is None,
    }
}

fn parse_operand_exec(s: &Vec<char>, pos: usize, too_large: &mut bool) -> (r: Option<(Expr, usize)>)
    requires
        pos <= s.len(),
    ensures
        parsed_as(parse_operand(s@, pos as int), r, *old(too_large), *final(too_large)),
        r matches Some((e, q)) ==> pos < q <= s.len(),
    decreases s.len() - pos, 1int,
{
    let q = skip_blanks_exec(s, pos);
    if q >= s.len() {
        return None;
    }
    let c = s[q];
    if c == '-' {
        match parse_expr_exec(s, q + 1, 69, too_large) {
            Some((e, p)) => Some((Expr::UnaryMinus(Box::new(e)), p)),
            None => None,
        }
    } else if c == '=' {
        match parse_expr_exec(s, q + 1, 29, too_large) {
            Some((e, p)) => Some((Expr::Collect(Box::new(e)), p)),
            None => None,
        }
    } else if c == '(' {
        match parse_expr_exec(s, q + 1, 0, too_large) {
            Some((e, p)) => {
                let r = skip_blanks_exec(s, p);
                if r < s.len() && s[r] == ')' {
                    Some((e, r + 1))
                } else {
                    None
                }
            },
            None => None,
        }
    } else if is_digit_exec(c) {
        let (value, end, fits) = scan_integer(s, q);
        if !fits {
            *too_large = true;
        }
        Some((Expr::Integer(value), end))
    } else {
        None
    }
}

fn parse_expr_exec(s: &Vec<char>, pos: usize, power: u32, too_large: &mut bool) -> (r: Option<(Expr, usize)>)
    requires
        pos <= s.len(),
    ensures
        parsed_as(parse_expr(s@, pos as int, power as int), r, *old(too_large), *final(too_large)),
        r matches Some((e, q)) ==> pos < q <= s.len(),
    decreases s.len() - pos, 2int,
{
    let ghost before = *too_large;
    match parse_operand_exec(s, pos, too_large) {
        Some((e, p)) => {
            if pos < p && p <= s.len() {
                let ghost t = parse_operand(s@, pos as int).unwrap().0;
                parse_infix_exec(s, e, Ghost(t), Ghost(before), p, power, too_large)
            } else {
                None
            }
        },
        None => None,
    }
}

fn parse_infix_exec(
    s: &Vec<char>,
    lhs: Expr,
    Ghost(lhs_t): Ghost<Term>,
    Ghost(before): Ghost<bool>,
    pos: usize,
    power: u32,
    too_large: &mut bool,
) -> (r: Option<(Expr, usize)>)
    requires
        pos <= s.len(),
        lhs@ == lhs_t.clamped(),
        *old(too_large) == (before || !lhs_t.fits()),
    ensures
        parsed_as(parse_infix(s@, lhs_t, pos as int, power as int), r, before, *final(too_large)),
        r matches Some((e, q)) ==> pos <= q <= s.len(),
    decreases s.len() - pos, 3int,
{
    let q = skip_blanks_exec(s, pos);
    match infix_at_exec(s, q) {
        Some((op, n)) => {
            let bp = binding_power_exec(op);
            if bp <= power {
                Some((lhs, pos))
            } else {
                match parse_expr_exec(s, q + n, bp, too_large) {
                    Some((rhs, p)) => {
                        if pos < p && p <= s.len() {
                            let ghost rhs_t = parse_expr(s@, (q + n) as int, bp as int).unwrap().0;
                            let ghost t = Term::BinOp { lhs: Box::new(lhs_t), op, rhs: Box::new(rhs_t) };
                            let e = Expr::BinOp { lhs: Box::new(lhs), op, rhs: Box::new(rhs) };
                            assert(e@ == t.clamped());
                            parse_infix_exec(s, e, Ghost(t), Ghost(before), p, power, too_large)
                        } else {
                            None
                        }
                    },
                    None => None,
                }
            }
        },
        None => Some((lhs, pos)),
    }
}


/// The parser of dice expressions.
pub struct DiceParser;

/// What parsing a dice expression gives.
#[derive(Debug)]
pub enum ParseOutcome {
    /// The text is a dice expression and every literal fits in `i32`.
    Parsed(Expr),
    /// The text is not a dice expression.
    Invalid,
    /// The text is a dice expression with a literal above `i32::MAX`.
    LiteralTooLarge,
}

impl DiceParser {
    /// Parses `input` by the grammar of dice expressions.
    pub fn parse_expression(input: &str) -> (r: ParseOutcome)
        ensures
            match dice_grammar(input@) {
                Some(t) => if t.fits() {
                    r matches ParseOutcome::Parsed(e) && e@ == t
                } else {
                    r is LiteralTooLarge
                },
                None => r is Invalid,
            },
    {
        let chars = chars_of(input);
        let mut too_large = false;
        match parse_expr_exec(&chars, 0, 0, &mut too_large) {
            Some((e, p)) => {
                if skip_blanks_exec(&chars, p) == chars.len() {
                    let ghost t = parse_expr(chars@, 0, 0).unwrap().0;
                    if too_large {
                        ParseOutcome::LiteralTooLarge
                    } else {
                        proof { lemma_clamped_fits(t); }
                        ParseOutcome::Parsed(e)
                    }
                } else {
                    ParseOutcome::Invalid
                }
            },
            None => ParseOutcome::Invalid,
        }
    }
}


// ---------------------------------------------------------------------------
// Integers as `str::parse::<i32>` reads them

/// The length of an optional leading sign.
pub open spec fn sign_len(s: Seq<char>) -> int {
    if s.len() > 0 && (s[0] == '+' || s[0] == '-') { 1 } else { 0 }
}

/// The `i32` that `s` writes: an optional `+` or `-`, then one or more decimal digits, with
/// the value in range; `None` otherwise.
pub open spec fn parse_i32(s: Seq<char>) -> Option<i32> {
    let start = sign_len(s);
    if start >= s.len() || digits_end(s, start) != s.len() {
        None
    } else {
        let v = digits_value(s, start, s.len() as int);
        let value = if s[0] == '-' { -v } else { v };
        if i32::MIN <= value <= i32::MAX { Some(value as i32) } else { None }
    }
}

/// Reads an `i32` written in decimal (see `parse_i32`).
pub fn parse_i32_text(text: &str) -> (r: Option<i32>)
    ensures
        r == parse_i32(text@),
{
    let s = chars_of(text);
    let start: usize = if s.len() > 0 && (s[0] == '+' || s[0] == '-') { 1 } else { 0 };
    if start >= s.len() {
        return None;
    }
    let (acc, end) = scan_digits(&s, start);
    if end != s.len() {
        return None;
    }
    let negative = s[0] == '-';
    if negative {
        if acc <= 0x8000_0000 {
            let magnitude = acc as i64;
            Some((-magnitude) as i32)
        } else {
            None
        }
    } else {
        if acc <= 0x7fff_ffff {
            Some(acc as i32)
        } else {
            None
        }
    }
}

} // verus!
