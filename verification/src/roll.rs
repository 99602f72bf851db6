//! Evaluating dice expressions: the rolls, the values they give, and the sub-rolls they record.
//!
//! Evaluation is deterministic once the die draws are known. `eval` says what an
//! expression gives when its dice take their faces, in order, from a sequence of draws;
//! `Roll::replay` evaluates against a given sequence, and `Roll::new` against draws made
//! by a random number generator.

use vstd::prelude::*;
use vstd::relations::total_ordering;
use crate::dice::{Expr, Op};
use crate::random::{ascending, roll_die, sorted_ascending};
use crate::text::{decimal, join_decimal, push_decimal, push_joined, push_str, string_from_chars};

verus! {

/// Why an evaluation stopped.
#[derive(Debug, Clone, Copy, PartialEq, Eq, Structural)]
pub enum RollError {
    /// A sum, a product, a quotient, a negation or an absolute value left the range of `i32`.
    Overflow,
    /// A division by zero.
    DivisionByZero,
    /// Dice were to be rolled that have no faces.
    NoFaces,
    /// The given draws ran out.
    DrawsExhausted,
    /// A given draw lies outside the faces of the die it was drawn for.
    DrawOutOfRange,
    /// Draws were given that the evaluation did not use.
    DrawsLeftOver,
}

/// What a sub-roll records.
#[verifier::ext_equal]
pub struct SubRollView {
    pub literal: Seq<char>,
    pub values: Seq<i32>,
}

/// What a roll holds.
#[verifier::ext_equal]
pub struct RollView {
    pub sub_rolls: Seq<SubRollView>,
    pub values: Seq<i32>,
}

pub open spec fn in_i32(x: int) -> bool {
    i32::MIN <= x <= i32::MAX
}

/// The sum of the values, added from the first on; `None` where a partial sum leaves `i32`.
pub open spec fn checked_sum(s: Seq<i32>) -> Option<i32>
    decreases s.len(),
{
    if s.len() == 0 {
        Some(0i32)
    } else {
        match checked_sum(s.drop_last()) {
            Some(p) => if in_i32(p + s.last()) { Some((p + s.last()) as i32) } else { None },
            None => None,
        }
    }
}

/// The sum of the values, or `Overflow`.
pub open spec fn sum_of(s: Seq<i32>) -> Result<i32, RollError> {
    match checked_sum(s) {
        Some(v) => Ok(v),
        None => Err(RollError::Overflow),
    }
}

/// Integer division rounding toward zero.
pub open spec fn trunc_div(x: int, y: int) -> int {
    let ax = if x < 0 { -x } else { x };
    let ay = if y < 0 { -y } else { y };
    if (x < 0) != (y < 0) { -(ax / ay) } else { ax / ay }
}

pub open spec fn checked(v: int) -> Result<i32, RollError> {
    if in_i32(v) { Ok(v as i32) } else { Err(RollError::Overflow) }
}

/// The arithmetic of `+ - * /` and of their multi forms `++ -- ** //`.
pub open spec fn apply_arith(op: Op, x: i32, y: i32) -> Result<i32, RollError> {
    match op {
        Op::Add | Op::MultiAdd => checked(x + y),
        Op::Subtract | Op::MultiSubtract => checked(x - y),
        Op::Multiply | Op::MultiMultiply => checked(x * y),
        _ => if y == 0 { Err(RollError::DivisionByZero) } else { checked(trunc_div(x as int, y as int)) },
    }
}

pub open spec fn is_multi(op: Op) -> bool {
    op is MultiAdd || op is MultiSubtract || op is MultiMultiply || op is MultiDivide
}

pub open spec fn is_keep_or_drop(op: Op) -> bool {
    op is KeepHighest || op is KeepLowest || op is DropHighest || op is DropLowest
}

/// The text recorded for a roll of `dice` dice of `faces` faces, as in `3d6`.
pub open spec fn die_literal(dice: i32, faces: i32) -> Seq<char> {
    decimal(dice as int) + seq!['d'] + decimal(faces as int)
}

/// Draws `count` more dice of `faces` faces, appending each (negated when `negate`) to `acc`.
pub open spec fn draw_dice(count: nat, faces: int, negate: bool, acc: Seq<i32>, ds: Seq<i32>)
    -> Result<(Seq<i32>, Seq<i32>), RollError>
    decreases count,
{
    if count == 0 {
        Ok((acc, ds))
    } else if ds.len() == 0 {
        Err(RollError::DrawsExhausted)
    } else if !(1 <= ds[0] <= faces) {
        Err(RollError::DrawOutOfRange)
    } else {
        let v: i32 = if negate { (-ds[0]) as i32 } else { ds[0] };
        draw_dice((count - 1) as nat, faces, negate, acc.push(v), ds.drop_first())
    }
}

/// `dice` rolls of a die with `faces` faces: `|dice|` draws from 1 to `|faces|`, negated when
/// exactly one of the two is negative, recorded as a sub-roll after `subs`.
pub open spec fn roll_dice(dice: i32, faces: i32, subs: Seq<SubRollView>, ds: Seq<i32>)
    -> Result<(RollView, Seq<i32>), RollError>
{
    let n: int = if dice < 0 { -dice } else { dice as int };
    let f: int = if faces < 0 { -faces } else { faces as int };
    if dice == i32::MIN {
        Err(RollError::Overflow)
    } else if n > 0 && faces == i32::MIN {
        Err(RollError::Overflow)
    } else if n > 0 && faces == 0 {
        Err(RollError::NoFaces)
    } else {
        match draw_dice(n as nat, f, (dice < 0) != (faces < 0), Seq::empty(), ds) {
            Ok((vals, rest)) => Ok((
                RollView {
                    sub_rolls: subs.push(SubRollView { literal: die_literal(dice, faces), values: vals }),
                    values: vals,
                },
                rest,
            )),
            Err(err) => Err(err),
        }
    }
}

/// The values sorted for `kh` and `dh` (descending) or `kl` and `dl` (ascending).
pub open spec fn sorted_for(op: Op, values: Seq<i32>) -> Seq<i32> {
    let up = values.sort_by(ascending());
    if op is KeepHighest || op is DropHighest { up.reverse() } else { up }
}

/// What `kh kl dh dl` keep of `values` for `k`: the first `|k|` values in their order (from
/// the other end where `k` is negative) are kept by `kh kl` and dropped by `dh dl`.
pub open spec fn select(op: Op, values: Seq<i32>, k: i32) -> Seq<i32> {
    let s = sorted_for(op, values);
    let ordered = if k < 0 { s.reverse() } else { s };
    let m: int = if k < 0 { -k } else { k as int };
    let n: int = if m < ordered.len() { m } else { ordered.len() as int };
    if op is KeepHighest || op is KeepLowest { ordered.take(n) } else { ordered.skip(n) }
}

/// Combines the rolls of both sides of an operator that is neither a multi operator nor `@`.
pub open spec fn combine(op: Op, l: RollView, r: RollView, ds: Seq<i32>) -> Result<(RollView, Seq<i32>), RollError> {
    let subs = l.sub_rolls + r.sub_rolls;
    if op is Comma {
        Ok((RollView { sub_rolls: subs, values: l.values + r.values }, ds))
    } else if is_keep_or_drop(op) {
        match sum_of(r.values) {
            Ok(k) => if k == i32::MIN {
                Err(RollError::Overflow)
            } else {
                Ok((RollView { sub_rolls: subs, values: select(op, l.values, k) }, ds))
            },
            Err(err) => Err(err),
        }
    } else {
        match sum_of(l.values) {
            Ok(a) => match sum_of(r.values) {
                Ok(b) => if op is Dice {
                    roll_dice(a, b, subs, ds)
                } else {
                    match apply_arith(op, a, b) {
                        Ok(v) => Ok((RollView { sub_rolls: subs, values: seq![v] }, ds)),
                        Err(err) => Err(err),
                    }
                },
                Err(err) => Err(err),
            },
            Err(err) => Err(err),
        }
    }
}

/// What `e` gives when its dice take their faces from the front of `ds`, with the draws left.
pub open spec fn eval(e: Expr, ds: Seq<i32>) -> Result<(RollView, Seq<i32>), RollError>
    decreases e, 0int, 0int,
{
    match e {
        Expr::Integer(i) => Ok((RollView { sub_rolls: Seq::empty(), values: seq![i] }, ds)),
        Expr::UnaryMinus(x) => match eval(*x, ds) {
            Ok((r, rest)) => match sum_of(r.values) {
                Ok(s) => if s == i32::MIN {
                    Err(RollError::Overflow)
                } else {
                    Ok((RollView { sub_rolls: r.sub_rolls, values: seq![(-s) as i32] }, rest))
                },
                Err(err) => Err(err),
            },
            Err(err) => Err(err),
        },
        Expr::Collect(x) => match eval(*x, ds) {
            Ok((r, rest)) => match sum_of(r.values) {
                Ok(s) => Ok((RollView { sub_rolls: r.sub_rolls, values: seq![s] }, rest)),
                Err(err) => Err(err),
            },
            Err(err) => Err(err),
        },
        Expr::BinOp { lhs, op, rhs } => match eval(*lhs, ds) {
            Ok((l, rest)) => eval_after(op, *rhs, l, rest),
            Err(err) => Err(err),
        },
    }
}

/// What `l op rhs` gives once the left side has given `l`.
pub open spec fn eval_after(op: Op, rhs: Expr, l: RollView, ds: Seq<i32>) -> Result<(RollView, Seq<i32>), RollError>
    decreases rhs, 2int, 0int,
{
    if is_multi(op) {
        multi_loop(op, rhs, l.values, 0, l.sub_rolls, Seq::empty(), ds)
    } else if op is Repeat {
        match sum_of(l.values) {
            Ok(n) => repeat_loop(rhs, if n > 0 { n as nat } else { 0 }, l.sub_rolls, Seq::empty(), ds),
            Err(err) => Err(err),
        }
    } else {
        match eval(rhs, ds) {
            Ok((r, rest)) => combine(op, l, r, rest),
            Err(err) => Err(err),
        }
    }
}

/// A multi operator from the `i`-th left value on: each left value is combined with the sum
/// of a fresh evaluation of `rhs`.
pub open spec fn multi_loop(
    op: Op,
    rhs: Expr,
    values: Seq<i32>,
    i: int,
    subs: Seq<SubRollView>,
    out: Seq<i32>,
    ds: Seq<i32>,
) -> Result<(RollView, Seq<i32>), RollError>
    decreases rhs, 1int, values.len() - i,
{
    if i < 0 || i >= values.len() {
        Ok((RollView { sub_rolls: subs, values: out }, ds))
    } else {
        match eval(rhs, ds) {
            Ok((r, rest)) => match sum_of(r.values) {
                Ok(b) => match apply_arith(op, values[i], b) {
                    Ok(v) => multi_loop(op, rhs, values, i + 1, subs + r.sub_rolls, out.push(v), rest),
                    Err(err) => Err(err),
                },
                Err(err) => Err(err),
            },
            Err(err) => Err(err),
        }
    }
}

/// `n` more evaluations of `rhs`, their values and sub-rolls appended in order.
pub open spec fn repeat_loop(rhs: Expr, n: nat, subs: Seq<SubRollView>, out: Seq<i32>, ds: Seq<i32>)
    -> Result<(RollView, Seq<i32>), RollError>
    decreases rhs, 1int, n,
{
    if n == 0 {
        Ok((RollView { sub_rolls: subs, values: out }, ds))
    } else {
        match eval(rhs, ds) {
            Ok((r, rest)) => repeat_loop(rhs, (n - 1) as nat, subs + r.sub_rolls, out + r.values, rest),
            Err(err) => Err(err),
        }
    }
}

/// The roll that `e` gives when the draws are exactly `ds`.
pub open spec fn replay_result(e: Expr, ds: Seq<i32>) -> Result<RollView, RollError> {
    match eval(e, ds) {
        Ok((r, rest)) => if rest.len() == 0 { Ok(r) } else { Err(RollError::DrawsLeftOver) },
        Err(err) => Err(err),
    }
}

// ---------------------------------------------------------------------------
// Evaluation reads only the draws it uses

/// A result on `ds` carried over to `ds + t`: the same roll with `t` left over, or the same
/// error unless the draws ran out.
pub open spec fn extends(a: Result<(RollView, Seq<i32>), RollError>, b: Result<(RollView, Seq<i32>), RollError>, t: Seq<i32>) -> bool {
    match a {
        Ok((r, rest)) => b == Ok::<(RollView, Seq<i32>), RollError>((r, rest + t)),
        Err(err) => err != RollError::DrawsExhausted ==> b == Err::<(RollView, Seq<i32>), RollError>(err),
    }
}

/// Drawing dice reads only the draws it uses: more draws after them change nothing but what is left.
pub proof fn lemma_draw_dice_extends(count: nat, faces: int, negate: bool, acc: Seq<i32>, ds: Seq<i32>, t: Seq<i32>)
    ensures
        match draw_dice(count, faces, negate, acc, ds) {
            Ok((v, rest)) => draw_dice(count, faces, negate, acc, ds + t) == Ok::<(Seq<i32>, Seq<i32>), RollError>((v, rest + t)),
            Err(err) => err != RollError::DrawsExhausted ==> draw_dice(count, faces, negate, acc, ds + t) == Err::<(Seq<i32>, Seq<i32>), RollError>(err),
        },
    decreases count,
{
    if count > 0 && ds.len() > 0 {
        assert((ds + t)[0] == ds[0]);
        assert((ds + t).drop_first() =~= ds.drop_first() + t);
        if 1 <= ds[0] <= faces {
            let v: i32 = if negate { (-ds[0]) as i32 } else { ds[0] };
            lemma_draw_dice_extends((count - 1) as nat, faces, negate, acc.push(v), ds.drop_first(), t);
        }
    }
}

/// Combining two sides reads only the draws it uses.
pub proof fn lemma_combine_extends(op: Op, l: RollView, r: RollView, ds: Seq<i32>, t: Seq<i32>)
    ensures
        extends(combine(op, l, r, ds), combine(op, l, r, ds + t), t),
{
    let subs = l.sub_rolls + r.sub_rolls;
    if !(op is Comma) && !is_keep_or_drop(op) && op is Dice {
        if let (Ok(a), Ok(b)) = (sum_of(l.values), sum_of(r.values)) {
            let n: int = if a < 0 { -a } else { a as int };
            let f: int = if b < 0 { -b } else { b as int };
            lemma_draw_dice_extends(n as nat, f, (a < 0) != (b < 0), Seq::empty(), ds, t);
        }
    }
}

/// Evaluation reads only the draws it uses: given more draws after them, an expression gives
/// the same roll with the extra draws left over, and fails the same way unless the draws ran out.
pub proof fn lemma_eval_extends(e: Expr, ds: Seq<i32>, t: Seq<i32>)
    ensures
        extends(eval(e, ds), eval(e, ds + t), t),
    decreases e, 0int, 0int,
{
    match e {
        Expr::Integer(i) => {},
        Expr::UnaryMinus(x) => { lemma_eval_extends(*x, ds, t); },
        Expr::Collect(x) => { lemma_eval_extends(*x, ds, t); },
        Expr::BinOp { lhs, op, rhs } => {
            lemma_eval_extends(*lhs, ds, t);
            if let Ok((l, rest)) = eval(*lhs, ds) {
                lemma_eval_after_extends(op, *rhs, l, rest, t);
            }
        },
    }
}

/// Evaluating the right side of an operator reads only the draws it uses.
pub proof fn lemma_eval_after_extends(op: Op, rhs: Expr, l: RollView, ds: Seq<i32>, t: Seq<i32>)
    ensures
        extends(eval_after(op, rhs, l, ds), eval_after(op, rhs, l, ds + t), t),
    decreases rhs, 2int, 0int,
{
    if is_multi(op) {
        lemma_multi_loop_extends(op, rhs, l.values, 0, l.sub_rolls, Seq::empty(), ds, t);
    } else if op is Repeat {
        if let Ok(n) = sum_of(l.values) {
            lemma_repeat_loop_extends(rhs, if n > 0 { n as nat } else { 0 }, l.sub_rolls, Seq::empty(), ds, t);
        }
    } else {
        lemma_eval_extends(rhs, ds, t);
        if let Ok((r, rest)) = eval(rhs, ds) {
            lemma_combine_extends(op, l, r, rest, t);
        }
    }
}

/// A multi operator reads only the draws it uses.
pub proof fn lemma_multi_loop_extends(
    op: Op,
    rhs: Expr,
    values: Seq<i32>,
    i: int,
    subs: Seq<SubRollView>,
    out: Seq<i32>,
    ds: Seq<i32>,
    t: Seq<i32>,
)
    ensures
        extends(multi_loop(op, rhs, values, i, subs, out, ds), multi_loop(op, rhs, values, i, subs, out, ds + t), t),
    decreases rhs, 1int, values.len() - i,
{
    if 0 <= i < values.len() {
        lemma_eval_extends(rhs, ds, t);
        if let Ok((r, rest)) = eval(rhs, ds) {
            if let Ok(b) = sum_of(r.values) {
                if let Ok(v) = apply_arith(op, values[i], b) {
                    lemma_multi_loop_extends(op, rhs, values, i + 1, subs + r.sub_rolls, out.push(v), rest, t);
                }
            }
        }
    }
}

/// `@` reads only the draws it uses.
pub proof fn lemma_repeat_loop_extends(rhs: Expr, n: nat, subs: Seq<SubRollView>, out: Seq<i32>, ds: Seq<i32>, t: Seq<i32>)
    ensures
        extends(repeat_loop(rhs, n, subs, out, ds), repeat_loop(rhs, n, subs, out, ds + t), t),
    decreases rhs, 1int, n,
{
    if n > 0 {
        lemma_eval_extends(rhs, ds, t);
        if let Ok((r, rest)) = eval(rhs, ds) {
            lemma_repeat_loop_extends(rhs, (n - 1) as nat, subs + r.sub_rolls, out + r.values, rest, t);
        }
    }
}

// ---------------------------------------------------------------------------
// Evaluation reads a front part of the draws

/// The front of `ds` that was read when `rest` is what is left of it.
pub open spec fn read_part(ds: Seq<i32>, rest: Seq<i32>) -> Seq<i32> {
    ds.take(ds.len() - rest.len())
}

/// `rest` is what is left of `ds` once a front part of it has been read.
pub open spec fn is_rest_of(rest: Seq<i32>, ds: Seq<i32>) -> bool {
    rest.len() <= ds.len() && ds == read_part(ds, rest) + rest
}

/// Reading `ds` down to `m` and then `m` down to `rest` reads `ds` down to `rest`.
proof fn lemma_read_parts(ds: Seq<i32>, m: Seq<i32>, rest: Seq<i32>)
    requires
        is_rest_of(m, ds),
        is_rest_of(rest, m),
    ensures
        is_rest_of(rest, ds),
        read_part(ds, rest) == read_part(ds, m) + read_part(m, rest),
        Seq::<i32>::empty() + read_part(m, rest) == read_part(m, rest),
{
    let p1 = read_part(ds, m);
    let p2 = read_part(m, rest);
    assert(ds =~= (p1 + p2) + rest);
    assert(read_part(ds, rest) =~= p1 + p2);
    assert(Seq::<i32>::empty() + p2 =~= p2);
}

/// Nothing read: all of `ds` is left.
proof fn lemma_read_nothing(ds: Seq<i32>)
    ensures
        is_rest_of(ds, ds),
        read_part(ds, ds) == Seq::<i32>::empty(),
{
    assert(read_part(ds, ds) =~= Seq::<i32>::empty());
    assert(ds =~= Seq::<i32>::empty() + ds);
}

/// Drawing dice reads a front part of the draws, and on that part alone draws the same.
pub proof fn lemma_draw_dice_reads_front(count: nat, faces: int, negate: bool, acc: Seq<i32>, ds: Seq<i32>)
    ensures
        draw_dice(count, faces, negate, acc, ds) matches Ok((v, rest)) ==> is_rest_of(rest, ds)
            && draw_dice(count, faces, negate, acc, read_part(ds, rest))
                == Ok::<(Seq<i32>, Seq<i32>), RollError>((v, Seq::empty())),
    decreases count,
{
    if count == 0 {
        lemma_read_nothing(ds);
    } else if ds.len() > 0 && 1 <= ds[0] <= faces {
        let v: i32 = if negate { (-ds[0]) as i32 } else { ds[0] };
        let d = ds.drop_first();
        lemma_draw_dice_reads_front((count - 1) as nat, faces, negate, acc.push(v), d);
        if let Ok((vals, rest)) = draw_dice((count - 1) as nat, faces, negate, acc.push(v), d) {
            let q = read_part(d, rest);
            assert(is_rest_of(rest, d));
            assert(d == q + rest);
            assert(ds =~= seq![ds[0]] + d);
            assert(ds =~= (seq![ds[0]] + q) + rest);
            assert(read_part(ds, rest) =~= seq![ds[0]] + q);
            assert((seq![ds[0]] + q).drop_first() =~= q);
        }
    }
}

/// Combining two sides reads a front part of the draws, and on that part alone gives the same.
pub proof fn lemma_combine_reads_front(op: Op, l: RollView, r: RollView, ds: Seq<i32>)
    ensures
        combine(op, l, r, ds) matches Ok((v, rest)) ==> is_rest_of(rest, ds)
            && combine(op, l, r, read_part(ds, rest)) == Ok::<(RollView, Seq<i32>), RollError>((v, Seq::empty())),
{
    lemma_read_nothing(ds);
    if !(op is Comma) && !is_keep_or_drop(op) && op is Dice {
        if let (Ok(a), Ok(b)) = (sum_of(l.values), sum_of(r.values)) {
            let n: int = if a < 0 { -a } else { a as int };
            let f: int = if b < 0 { -b } else { b as int };
            lemma_draw_dice_reads_front(n as nat, f, (a < 0) != (b < 0), Seq::empty(), ds);
        }
    }
}

/// Evaluation reads a front part of the draws, and on that part alone gives the same roll
/// with nothing left.
pub proof fn lemma_eval_reads_front(e: Expr, ds: Seq<i32>)
    ensures
        eval(e, ds) matches Ok((r, rest)) ==> is_rest_of(rest, ds)
            && eval(e, read_part(ds, rest)) == Ok::<(RollView, Seq<i32>), RollError>((r, Seq::empty())),
    decreases e, 0int, 0int,
{
    match e {
        Expr::Integer(i) => { lemma_read_nothing(ds); },
        Expr::UnaryMinus(x) => { lemma_eval_reads_front(*x, ds); },
        Expr::Collect(x) => { lemma_eval_reads_front(*x, ds); },
        Expr::BinOp { lhs, op, rhs } => {
            lemma_eval_reads_front(*lhs, ds);
            if let Ok((l, m)) = eval(*lhs, ds) {
                lemma_eval_after_reads_front(op, *rhs, l, m);
                if let Ok((r, rest)) = eval_after(op, *rhs, l, m) {
                    lemma_read_parts(ds, m, rest);
                    lemma_eval_extends(*lhs, read_part(ds, m), read_part(m, rest));
                }
            }
        },
    }
}

/// The right side of an operator reads a front part of the draws, and on that part alone
/// gives the same.
pub proof fn lemma_eval_after_reads_front(op: Op, rhs: Expr, l: RollView, ds: Seq<i32>)
    ensures
        eval_after(op, rhs, l, ds) matches Ok((r, rest)) ==> is_rest_of(rest, ds)
            && eval_after(op, rhs, l, read_part(ds, rest)) == Ok::<(RollView, Seq<i32>), RollError>((r, Seq::empty())),
    decreases rhs, 2int, 0int,
{
    if is_multi(op) {
        lemma_multi_loop_reads_front(op, rhs, l.values, 0, l.sub_rolls, Seq::empty(), ds);
    } else if op is Repeat {
        if let Ok(n) = sum_of(l.values) {
            lemma_repeat_loop_reads_front(rhs, if n > 0 { n as nat } else { 0 }, l.sub_rolls, Seq::empty(), ds);
        }
    } else {
        lemma_eval_reads_front(rhs, ds);
        if let Ok((r, m)) = eval(rhs, ds) {
            lemma_combine_reads_front(op, l, r, m);
            if let Ok((v, rest)) = combine(op, l, r, m) {
                lemma_read_parts(ds, m, rest);
                lemma_eval_extends(rhs, read_part(ds, m), read_part(m, rest));
            }
        }
    }
}

/// A multi operator reads a front part of the draws, and on that part alone gives the same.
pub proof fn lemma_multi_loop_reads_front(
    op: Op,
    rhs: Expr,
    values: Seq<i32>,
    i: int,
    subs: Seq<SubRollView>,
    out: Seq<i32>,
    ds: Seq<i32>,
)
    ensures
        multi_loop(op, rhs, values, i, subs, out, ds) matches Ok((r, rest)) ==> is_rest_of(rest, ds)
            && multi_loop(op, rhs, values, i, subs, out, read_part(ds, rest))
                == Ok::<(RollView, Seq<i32>), RollError>((r, Seq::empty())),
    decreases rhs, 1int, values.len() - i,
{
    if 0 <= i < values.len() {
        lemma_eval_reads_front(rhs, ds);
        if let Ok((r, m)) = eval(rhs, ds) {
            if let Ok(b) = sum_of(r.values) {
                if let Ok(v) = apply_arith(op, values[i], b) {
                    lemma_multi_loop_reads_front(op, rhs, values, i + 1, subs + r.sub_rolls, out.push(v), m);
                    if let Ok((res, rest)) = multi_loop(op, rhs, values, i + 1, subs + r.sub_rolls, out.push(v), m) {
                        lemma_read_parts(ds, m, rest);
                        lemma_eval_extends(rhs, read_part(ds, m), read_part(m, rest));
                    }
                }
            }
        }
    } else {
        lemma_read_nothing(ds);
    }
}

/// `@` reads a front part of the draws, and on that part alone gives the same.
pub proof fn lemma_repeat_loop_reads_front(rhs: Expr, n: nat, subs: Seq<SubRollView>, out: Seq<i32>, ds: Seq<i32>)
    ensures
        repeat_loop(rhs, n, subs, out, ds) matches Ok((r, rest)) ==> is_rest_of(rest, ds)
            && repeat_loop(rhs, n, subs, out, read_part(ds, rest))
                == Ok::<(RollView, Seq<i32>), RollError>((r, Seq::empty())),
    decreases rhs, 1int, n,
{
    if n > 0 {
        lemma_eval_reads_front(rhs, ds);
        if let Ok((r, m)) = eval(rhs, ds) {
            lemma_repeat_loop_reads_front(rhs, (n - 1) as nat, subs + r.sub_rolls, out + r.values, m);
            if let Ok((res, rest)) = repeat_loop(rhs, (n - 1) as nat, subs + r.sub_rolls, out + r.values, m) {
                lemma_read_parts(ds, m, rest);
                lemma_eval_extends(rhs, read_part(ds, m), read_part(m, rest));
            }
        }
    } else {
        lemma_read_nothing(ds);
    }
}

// ---------------------------------------------------------------------------
// Expressions without dice

/// `e` rolls no dice: `d` occurs nowhere in it.
pub open spec fn no_dice(e: Expr) -> bool
    decreases e,
{
    match e {
        Expr::Integer(_) => true,
        Expr::UnaryMinus(x) => no_dice(*x),
        Expr::Collect(x) => no_dice(*x),
        Expr::BinOp { lhs, op, rhs } => !(op is Dice) && no_dice(*lhs) && no_dice(*rhs),
    }
}

/// The outcome `a` with the draws left set to `ds`.
pub open spec fn with_rest(a: Result<(RollView, Seq<i32>), RollError>, ds: Seq<i32>) -> Result<(RollView, Seq<i32>), RollError> {
    match a {
        Ok((r, _)) => Ok((r, ds)),
        Err(err) => Err(err),
    }
}

/// An expression without dice reads no draws: whatever the draws, it gives the same outcome,
/// leaves every draw, and records no sub-roll.
pub proof fn lemma_eval_without_dice(e: Expr, ds: Seq<i32>, t: Seq<i32>)
    requires
        no_dice(e),
    ensures
        eval(e, t) == with_rest(eval(e, ds), t),
        eval(e, ds) matches Ok((r, rest)) ==> rest == ds && r.sub_rolls.len() == 0,
    decreases e, 0int, 0int,
{
    match e {
        Expr::Integer(i) => {},
        Expr::UnaryMinus(x) => { lemma_eval_without_dice(*x, ds, t); },
        Expr::Collect(x) => { lemma_eval_without_dice(*x, ds, t); },
        Expr::BinOp { lhs, op, rhs } => {
            lemma_eval_without_dice(*lhs, ds, t);
            if let Ok((l, m)) = eval(*lhs, ds) {
                lemma_eval_after_without_dice(op, *rhs, l, ds, t);
            }
        },
    }
}

/// The right side of an operator other than `d`, without dice, reads no draws.
pub proof fn lemma_eval_after_without_dice(op: Op, rhs: Expr, l: RollView, ds: Seq<i32>, t: Seq<i32>)
    requires
        !(op is Dice),
        no_dice(rhs),
    ensures
        eval_after(op, rhs, l, t) == with_rest(eval_after(op, rhs, l, ds), t),
        eval_after(op, rhs, l, ds) matches Ok((r, rest)) ==> rest == ds && r.sub_rolls == l.sub_rolls,
    decreases rhs, 2int, 0int,
{
    if is_multi(op) {
        lemma_multi_loop_without_dice(op, rhs, l.values, 0, l.sub_rolls, Seq::empty(), ds, t);
    } else if op is Repeat {
        if let Ok(n) = sum_of(l.values) {
            lemma_repeat_loop_without_dice(rhs, if n > 0 { n as nat } else { 0 }, l.sub_rolls, Seq::empty(), ds, t);
        }
    } else {
        lemma_eval_without_dice(rhs, ds, t);
        if let Ok((r, m)) = eval(rhs, ds) {
            assert(l.sub_rolls + r.sub_rolls =~= l.sub_rolls);
        }
    }
}

/// A multi operator whose right side has no dice reads no draws.
pub proof fn lemma_multi_loop_without_dice(
    op: Op,
    rhs: Expr,
    values: Seq<i32>,
    i: int,
    subs: Seq<SubRollView>,
    out: Seq<i32>,
    ds: Seq<i32>,
    t: Seq<i32>,
)
    requires
        no_dice(rhs),
    ensures
        multi_loop(op, rhs, values, i, subs, out, t) == with_rest(multi_loop(op, rhs, values, i, subs, out, ds), t),
        multi_loop(op, rhs, values, i, subs, out, ds) matches Ok((r, rest)) ==> rest == ds && r.sub_rolls == subs,
    decreases rhs, 1int, values.len() - i,
{
    if 0 <= i < values.len() {
        lemma_eval_without_dice(rhs, ds, t);
        if let Ok((r, m)) = eval(rhs, ds) {
            assert(subs + r.sub_rolls =~= subs);
            if let Ok(b) = sum_of(r.values) {
                if let Ok(v) = apply_arith(op, values[i], b) {
                    lemma_multi_loop_without_dice(op, rhs, values, i + 1, subs, out.push(v), ds, t);
                }
            }
        }
    }
}

/// `@` with a right side without dice reads no draws.
pub proof fn lemma_repeat_loop_without_dice(rhs: Expr, n: nat, subs: Seq<SubRollView>, out: Seq<i32>, ds: Seq<i32>, t: Seq<i32>)
    requires
        no_dice(rhs),
    ensures
        repeat_loop(rhs, n, subs, out, t) == with_rest(repeat_loop(rhs, n, subs, out, ds), t),
        repeat_loop(rhs, n, subs, out, ds) matches Ok((r, rest)) ==> rest == ds && r.sub_rolls == subs,
    decreases rhs, 1int, n,
{
    if n > 0 {
        lemma_eval_without_dice(rhs, ds, t);
        if let Ok((r, m)) = eval(rhs, ds) {
            assert(subs + r.sub_rolls =~= subs);
            lemma_repeat_loop_without_dice(rhs, (n - 1) as nat, subs, out + r.values, ds, t);
        }
    }
}


// ---------------------------------------------------------------------------
// Rolls

/// One roll of dice inside an evaluation: its text, as in `3d6`, and the values it gave.
#[derive(Debug)]
pub struct SubRoll {
    pub literal: String,
    pub values: Vec<i32>,
}

/// The outcome of evaluating an expression: its values, and every roll of dice made on the way.
#[derive(Debug)]
pub struct Roll {
    pub sub_rolls: Vec<SubRoll>,
    pub values: Vec<i32>,
}

impl View for SubRoll {
    type V = SubRollView;

    open spec fn view(&self) -> SubRollView {
        SubRollView { literal: self.literal@, values: self.values@ }
    }
}

/// The views of a sequence of sub-rolls.
pub open spec fn views(s: Seq<SubRoll>) -> Seq<SubRollView> {
    s.map_values(|x: SubRoll| x@)
}

/// The views of concatenated sub-rolls are the concatenated views.
pub proof fn lemma_views_concat(a: Seq<SubRoll>, b: Seq<SubRoll>)
    ensures
        views(a + b) == views(a) + views(b),
{
    assert(views(a + b) =~= views(a) + views(b));
}

impl View for Roll {
    type V = RollView;

    open spec fn view(&self) -> RollView {
        RollView { sub_rolls: views(self.sub_rolls@), values: self.values@ }
    }
}

/// The view of an evaluation's result.
pub open spec fn result_view(r: Result<Roll, RollError>) -> Result<RollView, RollError> {
    match r {
        Ok(v) => Ok(v@),
        Err(err) => Err(err),
    }
}

/// Once a partial sum overflows, the sum does.
pub proof fn lemma_checked_sum_none_prefix(s: Seq<i32>, k: int)
    requires
        0 <= k <= s.len(),
        checked_sum(s.take(k)) is None,
    ensures
        checked_sum(s) is None,
    decreases s.len() - k,
{
    if k < s.len() {
        assert(s.take(k + 1).drop_last() =~= s.take(k));
        lemma_checked_sum_none_prefix(s, k + 1);
    } else {
        assert(s.take(k) =~= s);
    }
}

/// The sum of the values, added from the first on, or `Overflow`.
pub fn sum_values(values: &Vec<i32>) -> (r: Result<i32, RollError>)
    ensures
        r == sum_of(values@),
{
    let mut acc: i32 = 0;
    let mut k: usize = 0;
    while k < values.len()
        invariant
            k <= values.len(),
            checked_sum(values@.take(k as int)) == Some(acc),
        decreases values.len() - k,
    {
        assert(values@.take(k + 1).drop_last() =~= values@.take(k as int));
        match acc.checked_add(values[k]) {
            Some(next) => { acc = next; },
            None => {
                proof { lemma_checked_sum_none_prefix(values@, k + 1); }
                return Err(RollError::Overflow);
            },
        }
        k = k + 1;
    }
    assert(values@.take(values.len() as int) =~= values@);
    Ok(acc)
}

fn arith(op: Op, x: i32, y: i32) -> (r: Result<i32, RollError>)
    ensures
        r == apply_arith(op, x, y),
{
    let v = match op {
        Op::Add | Op::MultiAdd => x.checked_add(y),
        Op::Subtract | Op::MultiSubtract => x.checked_sub(y),
        Op::Multiply | Op::MultiMultiply => x.checked_mul(y),
        _ => {
            if y == 0 {
                return Err(RollError::DivisionByZero);
            }
            x.checked_div(y)
        },
    };
    match v {
        Some(v) => Ok(v),
        None => Err(RollError::Overflow),
    }
}

fn reversed(v: &Vec<i32>) -> (r: Vec<i32>)
    ensures
        r@ == v@.reverse(),
{
    let mut r: Vec<i32> = Vec::new();
    let mut k: usize = v.len();
    while k > 0
        invariant
            k <= v.len(),
            r@ == v@.skip(k as int).reverse(),
        decreases k,
    {
        k = k - 1;
        r.push(v[k]);
        assert(r@ =~= v@.skip(k as int).reverse());
    }
    assert(v@.skip(0) =~= v@);
    r
}

fn prefix(v: &Vec<i32>, n: usize) -> (r: Vec<i32>)
    requires
        n <= v.len(),
    ensures
        r@ == v@.take(n as int),
{
    let mut r: Vec<i32> = Vec::new();
    let mut k: usize = 0;
    while k < n
        invariant
            k <= n <= v.len(),
            r@ == v@.take(k as int),
        decreases n - k,
    {
        r.push(v[k]);
        k = k + 1;
        assert(r@ =~= v@.take(k as int));
    }
    r
}

fn suffix(v: &Vec<i32>, n: usize) -> (r: Vec<i32>)
    requires
        n <= v.len(),
    ensures
        r@ == v@.skip(n as int),
{
    let mut r: Vec<i32> = Vec::new();
    let mut k: usize = n;
    while k < v.len()
        invariant
            n <= k <= v.len(),
            r@ == v@.subrange(n as int, k as int),
        decreases v.len() - k,
    {
        r.push(v[k]);
        k = k + 1;
        assert(r@ =~= v@.subrange(n as int, k as int));
    }
    assert(v@.subrange(n as int, v.len() as int) =~= v@.skip(n as int));
    r
}

proof fn lemma_ascending_total()
    ensures
        total_ordering(ascending()),
{
}

/// The values in ascending order.
fn sort_values(values: Vec<i32>) -> (r: Vec<i32>)
    ensures
        r@ == values@.sort_by(ascending()),
{
    let ghost original = values@;
    let r = sorted_ascending(values);
    proof {
        lemma_ascending_total();
        original.lemma_sort_by_ensures(ascending());
        vstd::seq_lib::lemma_sorted_unique(r@, original.sort_by(ascending()), ascending());
    }
    r
}

/// What `kh kl dh dl` keep of `values` for `k` (see `select`).
fn select_values(op: Op, values: Vec<i32>, k: i32) -> (r: Vec<i32>)
    requires
        is_keep_or_drop(op),
        k != i32::MIN,
    ensures
        r@ == select(op, values@, k),
{
    let ghost original = values@;
    let up = sort_values(values);
    let sorted = match op {
        Op::KeepHighest | Op::DropHighest => reversed(&up),
        _ => up,
    };
    assert(sorted@ == sorted_for(op, original));
    let ordered = if k < 0 { reversed(&sorted) } else { sorted };
    let m: u32 = if k < 0 { (-k) as u32 } else { k as u32 };
    let n: usize = if (m as usize) < ordered.len() { m as usize } else { ordered.len() };
    match op {
        Op::KeepHighest | Op::KeepLowest => prefix(&ordered, n),
        _ => suffix(&ordered, n),
    }
}


// ---------------------------------------------------------------------------
// Where the draws come from

/// The draws of an evaluation: a random number generator, or a given sequence read in order.
struct DieSource {
    given: Option<Vec<i32>>,
    pos: usize,
    drawn: Ghost<Seq<i32>>,
}

impl DieSource {
    spec fn wf(&self) -> bool {
        match self.given {
            Some(v) => self.pos <= v.len() && self.drawn@ == v@.take(self.pos as int),
            None => true,
        }
    }

    spec fn is_random(&self) -> bool {
        self.given is None
    }

    /// The given draws not read yet.
    spec fn remaining(&self) -> Seq<i32> {
        match self.given {
            Some(v) => v@.skip(self.pos as int),
            None => Seq::empty(),
        }
    }

    /// Draws a face of a die with `faces` faces: any face for a random source, the next given
    /// draw (which may lie outside the faces) for a given sequence, or `None` when that has run out.
    fn draw(&mut self, faces: i32) -> (r: Option<i32>)
        requires
            old(self).wf(),
            faces >= 1,
        ensures
            step(*old(self), *final(self)),
            match r {
                Some(v) => final(self).drawn@ == old(self).drawn@.push(v)
                    && (old(self).is_random() ==> 1 <= v <= faces),
                None => !old(self).is_random() && old(self).remaining().len() == 0
                    && final(self).drawn@ == old(self).drawn@,
            },
    {
        let ghost before = *self;
        match &self.given {
            None => {
                let v = roll_die(faces);
                self.drawn = Ghost(self.drawn@.push(v));
                assert(self.drawn@.take(before.drawn@.len() as int) =~= before.drawn@);
                Some(v)
            },
            Some(given) => {
                if self.pos < given.len() {
                    let v = given[self.pos];
                    proof {
                        assert(given@.take(self.pos + 1) =~= given@.take(self.pos as int).push(v));
                        assert(given@.skip(self.pos as int) =~= seq![v] + given@.skip(self.pos + 1));
                    }
                    self.pos = self.pos + 1;
                    self.drawn = Ghost(self.drawn@.push(v));
                    assert(self.drawn@.take(before.drawn@.len() as int) =~= before.drawn@);
                    assert(drawn_since(before, *self) =~= seq![v]);
                    Some(v)
                } else {
                    proof { lemma_step_refl(*self); }
                    None
                }
            },
        }
    }
}

/// The draws made between two states of a source.
spec fn drawn_since(a: DieSource, b: DieSource) -> Seq<i32> {
    b.drawn@.skip(a.drawn@.len() as int)
}

/// `b` follows `a`: the same source, with draws added and, for a given sequence, read from it.
spec fn step(a: DieSource, b: DieSource) -> bool {
    &&& b.wf()
    &&& b.given == a.given
    &&& a.drawn@.len() <= b.drawn@.len()
    &&& b.drawn@.take(a.drawn@.len() as int) == a.drawn@
    &&& !a.is_random() ==> a.remaining() == drawn_since(a, b) + b.remaining()
}

proof fn lemma_step_refl(a: DieSource)
    requires
        a.wf(),
    ensures
        step(a, a),
        drawn_since(a, a) == Seq::<i32>::empty(),
{
    assert(a.drawn@.take(a.drawn@.len() as int) =~= a.drawn@);
    assert(drawn_since(a, a) =~= Seq::<i32>::empty());
    assert(a.remaining() =~= drawn_since(a, a) + a.remaining());
}

proof fn lemma_step_trans(a: DieSource, b: DieSource, c: DieSource)
    requires
        step(a, b),
        step(b, c),
    ensures
        step(a, c),
        drawn_since(a, c) == drawn_since(a, b) + drawn_since(b, c),
{
    assert(c.drawn@.take(b.drawn@.len() as int).take(a.drawn@.len() as int) =~= c.drawn@.take(a.drawn@.len() as int));
    assert(drawn_since(a, c) =~= drawn_since(a, b) + drawn_since(b, c)) by {
        assert(c.drawn@ =~= c.drawn@.take(b.drawn@.len() as int) + drawn_since(b, c));
        assert(b.drawn@ =~= b.drawn@.take(a.drawn@.len() as int) + drawn_since(a, b));
    }
    if !a.is_random() {
        assert(a.remaining() =~= drawn_since(a, c) + c.remaining());
    }
}

/// The evaluation returned `r` where the specification gives `spec_r` on the draws made.
spec fn outcome(spec_r: Result<(RollView, Seq<i32>), RollError>, r: Result<Roll, RollError>, s: DieSource) -> bool {
    match r {
        Ok(v) => spec_r == Ok::<(RollView, Seq<i32>), RollError>((v@, Seq::empty())),
        Err(err) => spec_r == Err::<(RollView, Seq<i32>), RollError>(err)
            && (err == RollError::DrawsExhausted ==> !s.is_random() && s.remaining().len() == 0)
            && (err == RollError::DrawOutOfRange ==> !s.is_random())
            && err != RollError::DrawsLeftOver,
    }
}


// ---------------------------------------------------------------------------
// The evaluator

proof fn lemma_unchanged_since(a: DieSource, b: DieSource)
    requires
        step(a, b),
        b.drawn@ == a.drawn@,
    ensures
        drawn_since(a, b) == Seq::<i32>::empty(),
        !a.is_random() ==> a.remaining() == b.remaining(),
{
    assert(drawn_since(a, b) =~= Seq::<i32>::empty());
    assert(Seq::<i32>::empty() + b.remaining() =~= b.remaining());
}

fn draw_dice_exec(count: u32, faces: i32, negate: bool, src: &mut DieSource) -> (r: Result<Vec<i32>, RollError>)
    requires
        old(src).wf(),
        faces >= 1,
    ensures
        step(*old(src), *final(src)),
        match r {
            Ok(vals) => draw_dice(count as nat, faces as int, negate, Seq::empty(), drawn_since(*old(src), *final(src)))
                == Ok::<(Seq<i32>, Seq<i32>), RollError>((vals@, Seq::empty())),
            Err(err) => draw_dice(count as nat, faces as int, negate, Seq::empty(), drawn_since(*old(src), *final(src)))
                == Err::<(Seq<i32>, Seq<i32>), RollError>(err)
                && (err == RollError::DrawsExhausted ==> !final(src).is_random() && final(src).remaining().len() == 0)
                && (err == RollError::DrawOutOfRange ==> !final(src).is_random())
                && err != RollError::DrawsLeftOver,
        },
{
    let ghost start = *src;
    proof { lemma_step_refl(*src); }
    let mut acc: Vec<i32> = Vec::new();
    let mut k: u32 = 0;
    while k < count
        invariant
            k <= count,
            faces >= 1,
            step(start, *src),
            start == *old(src),
            forall|t: Seq<i32>| #[trigger] draw_dice(count as nat, faces as int, negate, Seq::empty(), drawn_since(start, *src) + t)
                == draw_dice((count - k) as nat, faces as int, negate, acc@, t),
        decreases count - k,
    {
        let ghost mid = *src;
        match src.draw(faces) {
            Some(v) => {
                proof {
                    lemma_step_trans(start, mid, *src);
                    assert(drawn_since(mid, *src) =~= seq![v]);
                }
                let ghost before = drawn_since(start, mid);
                if v < 1 || v > faces {
                    proof {
                        assert(before + seq![v] =~= (before + seq![v]) + Seq::<i32>::empty());
                        assert(draw_dice(count as nat, faces as int, negate, Seq::empty(), before + seq![v])
                            == draw_dice((count - k) as nat, faces as int, negate, acc@, seq![v]));
                    }
                    return Err(RollError::DrawOutOfRange);
                }
                let w = if negate { -v } else { v };
                let ghost old_acc = acc@;
                acc.push(w);
                proof {
                    assert forall|t: Seq<i32>| #[trigger] draw_dice(count as nat, faces as int, negate, Seq::empty(), drawn_since(start, *src) + t)
                        == draw_dice((count - k - 1) as nat, faces as int, negate, acc@, t) by {
                        assert((before + seq![v]) + t =~= before + (seq![v] + t));
                        assert((seq![v] + t).drop_first() =~= t);
                    }
                }
                k = k + 1;
            },
            None => {
                proof {
                    lemma_unchanged_since(mid, *src);
                    lemma_step_trans(start, mid, *src);
                    assert(drawn_since(start, *src) =~= drawn_since(start, *src) + Seq::<i32>::empty());
                }
                return Err(RollError::DrawsExhausted);
            },
        }
    }
    proof {
        assert(drawn_since(start, *src) =~= drawn_since(start, *src) + Seq::<i32>::empty());
    }
    Ok(acc)
}

fn copy_values(v: &Vec<i32>) -> (r: Vec<i32>)
    ensures
        r@ == v@,
{
    let mut r: Vec<i32> = Vec::new();
    let mut k: usize = 0;
    while k < v.len()
        invariant
            k <= v.len(),
            r@ == v@.take(k as int),
        decreases v.len() - k,
    {
        r.push(v[k]);
        k = k + 1;
        assert(r@ =~= v@.take(k as int));
    }
    assert(v@.take(v.len() as int) =~= v@);
    r
}

fn roll_dice_exec(dice: i32, faces: i32, subs: Vec<SubRoll>, src: &mut DieSource) -> (r: Result<Roll, RollError>)
    requires
        old(src).wf(),
    ensures
        step(*old(src), *final(src)),
        outcome(roll_dice(dice, faces, views(subs@), drawn_since(*old(src), *final(src))), r, *final(src)),
{
    let ghost start = *src;
    proof { lemma_step_refl(*src); }
    if dice == i32::MIN {
        return Err(RollError::Overflow);
    }
    let n: u32 = if dice < 0 { (-dice) as u32 } else { dice as u32 };
    if n > 0 && faces == i32::MIN {
        return Err(RollError::Overflow);
    }
    if n > 0 && faces == 0 {
        return Err(RollError::NoFaces);
    }
    let vals = if n == 0 {
        let ghost d = drawn_since(start, *src);
        let v: Vec<i32> = Vec::new();
        assert(v@ =~= Seq::<i32>::empty());
        v
    } else {
        let f: i32 = if faces < 0 { -faces } else { faces };
        match draw_dice_exec(n, f, (dice < 0) != (faces < 0), src) {
            Ok(v) => v,
            Err(err) => { return Err(err); },
        }
    };
    let mut literal: Vec<char> = Vec::new();
    push_decimal(&mut literal, dice);
    literal.push('d');
    push_decimal(&mut literal, faces);
    assert(literal@ =~= die_literal(dice, faces));
    let sub = SubRoll { literal: string_from_chars(&literal), values: copy_values(&vals) };
    let mut subs = subs;
    let ghost old_subs = subs@;
    subs.push(sub);
    assert(views(subs@) =~= views(old_subs).push(sub@));
    Ok(Roll { sub_rolls: subs, values: vals })
}

fn combine_exec(op: Op, l: Roll, r: Roll, src: &mut DieSource) -> (res: Result<Roll, RollError>)
    requires
        old(src).wf(),
        !is_multi(op),
        !(op is Repeat),
    ensures
        step(*old(src), *final(src)),
        outcome(combine(op, l@, r@, drawn_since(*old(src), *final(src))), res, *final(src)),
{
    proof { lemma_step_refl(*src); }
    let Roll { sub_rolls: mut subs, values: mut lvals } = l;
    let Roll { sub_rolls: mut rsubs, values: mut rvals } = r;
    let ghost (ls, rs) = (subs@, rsubs@);
    proof { lemma_views_concat(ls, rs); }
    match op {
        Op::Comma => {
            subs.append(&mut rsubs);
            lvals.append(&mut rvals);
            let res = Roll { sub_rolls: subs, values: lvals };
            assert(res@ =~= RollView { sub_rolls: l@.sub_rolls + r@.sub_rolls, values: l@.values + r@.values });
            Ok(res)
        },
        Op::KeepHighest | Op::KeepLowest | Op::DropHighest | Op::DropLowest => {
            subs.append(&mut rsubs);
            match sum_values(&rvals) {
                Ok(k) => {
                    if k == i32::MIN {
                        return Err(RollError::Overflow);
                    }
                    let kept = select_values(op, lvals, k);
                    let res = Roll { sub_rolls: subs, values: kept };
                    assert(res@ =~= RollView { sub_rolls: l@.sub_rolls + r@.sub_rolls, values: select(op, l@.values, k) });
                    Ok(res)
                },
                Err(err) => Err(err),
            }
        },
        _ => {
            let a = match sum_values(&lvals) {
                Ok(a) => a,
                Err(err) => { return Err(err); },
            };
            let b = match sum_values(&rvals) {
                Ok(b) => b,
                Err(err) => { return Err(err); },
            };
            subs.append(&mut rsubs);
            match op {
                Op::Dice => roll_dice_exec(a, b, subs, src),
                _ => {
                    match arith(op, a, b) {
                        Ok(v) => {
                            let res = Roll { sub_rolls: subs, values: vec![v] };
                            assert(res@ =~= RollView { sub_rolls: l@.sub_rolls + r@.sub_rolls, values: seq![v] });
                            Ok(res)
                        },
                        Err(err) => Err(err),
                    }
                },
            }
        },
    }
}

fn eval_exec(e: &Expr, src: &mut DieSource) -> (r: Result<Roll, RollError>)
    requires
        old(src).wf(),
    ensures
        step(*old(src), *final(src)),
        outcome(eval(*e, drawn_since(*old(src), *final(src))), r, *final(src)),
    decreases e, 0int,
{
    let ghost start = *src;
    proof { lemma_step_refl(*src); }
    match e {
        Expr::Integer(i) => {
            let r = Roll { sub_rolls: Vec::new(), values: vec![*i] };
            assert(r@ =~= RollView { sub_rolls: Seq::empty(), values: seq![*i] });
            Ok(r)
        },
        Expr::UnaryMinus(x) => {
            match eval_exec(x, src) {
                Ok(r) => {
                    match sum_values(&r.values) {
                        Ok(s) => {
                            if s == i32::MIN {
                                return Err(RollError::Overflow);
                            }
                            let negated = -s;
                            let ghost subs = r@.sub_rolls;
                            let res = Roll { sub_rolls: r.sub_rolls, values: vec![negated] };
                            assert(res@ =~= RollView { sub_rolls: subs, values: seq![negated] });
                            Ok(res)
                        },
                        Err(err) => Err(err),
                    }
                },
                Err(err) => Err(err),
            }
        },
        Expr::Collect(x) => {
            match eval_exec(x, src) {
                Ok(r) => {
                    match sum_values(&r.values) {
                        Ok(s) => {
                            let ghost subs = r@.sub_rolls;
                            let res = Roll { sub_rolls: r.sub_rolls, values: vec![s] };
                            assert(res@ =~= RollView { sub_rolls: subs, values: seq![s] });
                            Ok(res)
                        },
                        Err(err) => Err(err),
                    }
                },
                Err(err) => Err(err),
            }
        },
        Expr::BinOp { lhs, op, rhs } => {
            match eval_exec(lhs, src) {
                Ok(l) => {
                    let ghost mid = *src;
                    let ghost lv = l@;
                    let res = eval_after_exec(*op, rhs, l, src);
                    proof {
                        lemma_step_trans(start, mid, *src);
                        let d1 = drawn_since(start, mid);
                        let d2 = drawn_since(mid, *src);
                        lemma_eval_extends(**lhs, d1, d2);
                        assert(Seq::<i32>::empty() + d2 =~= d2);
                    }
                    res
                },
                Err(err) => Err(err),
            }
        },
    }
}

fn eval_after_exec(op: Op, rhs: &Expr, l: Roll, src: &mut DieSource) -> (res: Result<Roll, RollError>)
    requires
        old(src).wf(),
    ensures
        step(*old(src), *final(src)),
        outcome(eval_after(op, *rhs, l@, drawn_since(*old(src), *final(src))), res, *final(src)),
    decreases rhs, 2int,
{
    let ghost start = *src;
    proof { lemma_step_refl(*src); }
    match op {
        Op::MultiAdd | Op::MultiSubtract | Op::MultiMultiply | Op::MultiDivide => multi_exec(op, rhs, l, src),
        Op::Repeat => {
            match sum_values(&l.values) {
                Ok(n) => {
                    let count: u32 = if n > 0 { n as u32 } else { 0 };
                    repeat_exec(rhs, count, l.sub_rolls, src)
                },
                Err(err) => Err(err),
            }
        },
        _ => {
            let ghost lv = l@;
            match eval_exec(rhs, src) {
                Ok(r) => {
                    let ghost mid = *src;
                    let ghost rv = r@;
                    let res = combine_exec(op, l, r, src);
                    proof {
                        lemma_step_trans(start, mid, *src);
                        let d1 = drawn_since(start, mid);
                        let d2 = drawn_since(mid, *src);
                        lemma_eval_extends(*rhs, d1, d2);
                        assert(Seq::<i32>::empty() + d2 =~= d2);
                    }
                    res
                },
                Err(err) => Err(err),
            }
        },
    }
}

fn multi_exec(op: Op, rhs: &Expr, l: Roll, src: &mut DieSource) -> (res: Result<Roll, RollError>)
    requires
        old(src).wf(),
        is_multi(op),
    ensures
        step(*old(src), *final(src)),
        outcome(multi_loop(op, *rhs, l@.values, 0, l@.sub_rolls, Seq::empty(), drawn_since(*old(src), *final(src))), res, *final(src)),
    decreases rhs, 1int,
{
    let ghost start = *src;
    proof { lemma_step_refl(*src); }
    let ghost lv = l@;
    let Roll { sub_rolls: mut subs, values: vals } = l;
    let mut out: Vec<i32> = Vec::new();
    let mut i: usize = 0;
    proof {
        assert forall|t: Seq<i32>| #[trigger] multi_loop(op, *rhs, vals@, 0, lv.sub_rolls, Seq::empty(), drawn_since(start, *src) + t)
            == multi_loop(op, *rhs, vals@, 0, views(subs@), out@, t) by {
            assert(drawn_since(start, *src) + t =~= t);
            assert(out@ =~= Seq::<i32>::empty());
        }
    }
    while i < vals.len()
        invariant
            i <= vals.len(),
            is_multi(op),
            start == *old(src),
            lv == l@,
            vals@ == lv.values,
            step(start, *src),
            forall|t: Seq<i32>| #[trigger] multi_loop(op, *rhs, vals@, 0, lv.sub_rolls, Seq::empty(), drawn_since(start, *src) + t)
                == multi_loop(op, *rhs, vals@, i as int, views(subs@), out@, t),
        decreases vals.len() - i,
    {
        let ghost mid = *src;
        let ghost before = drawn_since(start, mid);
        match eval_exec(rhs, src) {
            Ok(r) => {
                let ghost d = drawn_since(mid, *src);
                proof {
                    lemma_step_trans(start, mid, *src);
                    assert(before + d =~= (before + d) + Seq::<i32>::empty());
                    assert(multi_loop(op, *rhs, vals@, 0, lv.sub_rolls, Seq::empty(), before + d)
                        == multi_loop(op, *rhs, vals@, i as int, views(subs@), out@, d));
                }
                let Roll { sub_rolls: mut rsubs, values: rvals } = r;
                let ghost (ss, rs) = (subs@, rsubs@);
                proof { lemma_views_concat(ss, rs); }
                let b = match sum_values(&rvals) {
                    Ok(b) => b,
                    Err(err) => { return Err(err); },
                };
                let v = match arith(op, vals[i], b) {
                    Ok(v) => v,
                    Err(err) => { return Err(err); },
                };
                subs.append(&mut rsubs);
                out.push(v);
                proof {
                    assert forall|t: Seq<i32>| #[trigger] multi_loop(op, *rhs, vals@, 0, lv.sub_rolls, Seq::empty(), drawn_since(start, *src) + t)
                        == multi_loop(op, *rhs, vals@, i + 1, views(subs@), out@, t) by {
                        assert((before + d) + t =~= before + (d + t));
                        lemma_eval_extends(*rhs, d, t);
                        assert(Seq::<i32>::empty() + t =~= t);
                    }
                }
                i = i + 1;
            },
            Err(err) => {
                proof {
                    lemma_step_trans(start, mid, *src);
                    let d = drawn_since(mid, *src);
                    assert(before + d =~= (before + d) + Seq::<i32>::empty());
                    assert(multi_loop(op, *rhs, vals@, 0, lv.sub_rolls, Seq::empty(), before + d)
                        == multi_loop(op, *rhs, vals@, i as int, views(subs@), out@, d));
                }
                return Err(err);
            },
        }
    }
    proof {
        assert(drawn_since(start, *src) =~= drawn_since(start, *src) + Seq::<i32>::empty());
    }
    let res = Roll { sub_rolls: subs, values: out };
    assert(res@ =~= RollView { sub_rolls: views(subs@), values: out@ });
    Ok(res)
}

fn repeat_exec(rhs: &Expr, count: u32, subs_in: Vec<SubRoll>, src: &mut DieSource) -> (res: Result<Roll, RollError>)
    requires
        old(src).wf(),
    ensures
        step(*old(src), *final(src)),
        outcome(repeat_loop(*rhs, count as nat, views(subs_in@), Seq::empty(), drawn_since(*old(src), *final(src))), res, *final(src)),
    decreases rhs, 1int,
{
    let ghost start = *src;
    proof { lemma_step_refl(*src); }
    let ghost subs0 = views(subs_in@);
    let mut subs = subs_in;
    let mut out: Vec<i32> = Vec::new();
    let mut j: u32 = 0;
    proof {
        assert forall|t: Seq<i32>| #[trigger] repeat_loop(*rhs, count as nat, subs0, Seq::empty(), drawn_since(start, *src) + t)
            == repeat_loop(*rhs, (count - j) as nat, views(subs@), out@, t) by {
            assert(drawn_since(start, *src) + t =~= t);
            assert(out@ =~= Seq::<i32>::empty());
        }
    }
    while j < count
        invariant
            j <= count,
            step(start, *src),
            start == *old(src),
            subs0 == views(subs_in@),
            forall|t: Seq<i32>| #[trigger] repeat_loop(*rhs, count as nat, subs0, Seq::empty(), drawn_since(start, *src) + t)
                == repeat_loop(*rhs, (count - j) as nat, views(subs@), out@, t),
        decreases count - j,
    {
        let ghost mid = *src;
        let ghost before = drawn_since(start, mid);
        match eval_exec(rhs, src) {
            Ok(r) => {
                let ghost d = drawn_since(mid, *src);
                proof { lemma_step_trans(start, mid, *src); }
                let Roll { sub_rolls: mut rsubs, values: mut rvals } = r;
                let ghost (ss, rs, os, rv) = (subs@, rsubs@, out@, rvals@);
                proof { lemma_views_concat(ss, rs); }
                subs.append(&mut rsubs);
                out.append(&mut rvals);
                proof {
                    assert forall|t: Seq<i32>| #[trigger] repeat_loop(*rhs, count as nat, subs0, Seq::empty(), drawn_since(start, *src) + t)
                        == repeat_loop(*rhs, (count - j - 1) as nat, views(subs@), out@, t) by {
                        assert((before + d) + t =~= before + (d + t));
                        lemma_eval_extends(*rhs, d, t);
                        assert(Seq::<i32>::empty() + t =~= t);
                    }
                }
                j = j + 1;
            },
            Err(err) => {
                proof {
                    lemma_step_trans(start, mid, *src);
                    let d = drawn_since(mid, *src);
                    assert(before + d =~= (before + d) + Seq::<i32>::empty());
                    assert(repeat_loop(*rhs, count as nat, subs0, Seq::empty(), before + d)
                        == repeat_loop(*rhs, (count - j) as nat, views(subs@), out@, d));
                }
                return Err(err);
            },
        }
    }
    proof {
        assert(drawn_since(start, *src) =~= drawn_since(start, *src) + Seq::<i32>::empty());
    }
    let res = Roll { sub_rolls: subs, values: out };
    assert(res@ =~= RollView { sub_rolls: views(subs@), values: out@ });
    Ok(res)
}


// ---------------------------------------------------------------------------
// The public face

/// Evaluation ended in `r` as it does for some draws that a random source can make: the
/// draws never run out, none lies outside its die, and none is left over.
pub open spec fn rolled_from_draws(e: Expr, r: Result<RollView, RollError>) -> bool {
    &&& !(r is Err && (r->Err_0 == RollError::DrawsExhausted || r->Err_0 == RollError::DrawOutOfRange
        || r->Err_0 == RollError::DrawsLeftOver))
    &&& exists|ds: Seq<i32>| #[trigger] replay_result(e, ds) == r
}

impl Roll {
    /// Evaluates `expr`, rolling each die with the thread's random number generator.
    ///
    /// The result is what replaying some sequence of die draws gives (see `Roll::replay`); an
    /// error reports an overflow, a division by zero, or dice without faces.
    pub fn new(expr: &Expr) -> (r: Result<Roll, RollError>)
        ensures
            rolled_from_draws(*expr, result_view(r)),
    {
        let mut src = DieSource { given: None, pos: 0, drawn: Ghost(Seq::empty()) };
        let ghost start = src;
        let r = eval_exec(expr, &mut src);
        proof {
            let d = drawn_since(start, src);
            lemma_eval_extends(*expr, d, Seq::empty());
            assert(d + Seq::<i32>::empty() =~= d);
            assert(replay_result(*expr, d) == result_view(r));
        }
        r
    }

    /// Evaluates `expr` with the die draws given, in order: each draw is the face a die shows.
    pub fn replay(expr: &Expr, draws: Vec<i32>) -> (r: Result<Roll, RollError>)
        ensures
            result_view(r) == replay_result(*expr, draws@),
    {
        let ghost all = draws@;
        let mut src = DieSource { given: Some(draws), pos: 0, drawn: Ghost(Seq::empty()) };
        assert(all.take(0) =~= Seq::<i32>::empty());
        assert(all.skip(0) =~= all);
        let ghost start = src;
        let r = eval_exec(expr, &mut src);
        let left_over = match &src.given {
            Some(v) => src.pos < v.len(),
            None => false,
        };
        proof {
            let d = drawn_since(start, src);
            let rest = src.remaining();
            assert(all =~= d + rest);
            lemma_eval_extends(*expr, d, rest);
        }
        match r {
            Ok(roll) => if left_over { Err(RollError::DrawsLeftOver) } else { Ok(roll) },
            Err(err) => Err(err),
        }
    }

    /// What `kh` (where `highest`) or `kl` keeps of `values` for the count `k`: the first `|k|`
    /// values in that order, taken from the other end where `k` is negative (see `select`).
    pub fn keep(values: Vec<i32>, k: i32, highest: bool) -> (r: Vec<i32>)
        requires
            k != i32::MIN,
        ensures
            r@ == select(if highest { Op::KeepHighest } else { Op::KeepLowest }, values@, k),
    {
        select_values(if highest { Op::KeepHighest } else { Op::KeepLowest }, values, k)
    }

    /// What `dh` (where `highest`) or `dl` leaves of `values` for the count `k`: all but the
    /// values that `Roll::keep` keeps with the same arguments (see `select`).
    pub fn drop(values: Vec<i32>, k: i32, highest: bool) -> (r: Vec<i32>)
        requires
            k != i32::MIN,
        ensures
            r@ == select(if highest { Op::DropHighest } else { Op::DropLowest }, values@, k),
    {
        select_values(if highest { Op::DropHighest } else { Op::DropLowest }, values, k)
    }

    /// The sum of the values, where no partial sum overflows.
    pub fn sum(&self) -> (s: i32)
        requires
            checked_sum(self.values@) is Some,
        ensures
            checked_sum(self.values@) == Some(s),
    {
        match sum_values(&self.values) {
            Ok(s) => s,
            Err(_) => 0,
        }
    }

    /// The sum of the values, or `None` where a partial sum overflows.
    pub fn try_sum(&self) -> (s: Option<i32>)
        ensures
            s == checked_sum(self.values@),
    {
        match sum_values(&self.values) {
            Ok(s) => Some(s),
            Err(_) => None,
        }
    }
}

/// A roll as text: its values joined by `, `.
pub open spec fn roll_text(values: Seq<i32>) -> Seq<char> {
    join_decimal(values, seq![',', ' '])
}

/// A sub-roll as text: `literal -> v1, v2 = total`.
pub open spec fn sub_roll_text(literal: Seq<char>, values: Seq<i32>, total: i32) -> Seq<char> {
    literal + seq![' ', '-', '>', ' '] + join_decimal(values, seq![',', ' ']) + seq![' ', '=', ' ']
        + decimal(total as int)
}

impl Roll {
    /// The values joined by `, `.
    pub fn render(&self) -> (s: String)
        ensures
            s@ == roll_text(self.values@),
    {
        let mut out: Vec<char> = Vec::new();
        push_joined(&mut out, &self.values, ", ");
        proof {
            reveal_strlit(", ");
            assert(", "@ =~= seq![',', ' ']);
        }
        assert(out@ =~= roll_text(self.values@));
        string_from_chars(&out)
    }
}

impl SubRoll {
    /// The sum of the values, or `None` where a partial sum overflows.
    pub fn total(&self) -> (s: Option<i32>)
        ensures
            s == checked_sum(self.values@),
    {
        match sum_values(&self.values) {
            Ok(s) => Some(s),
            Err(_) => None,
        }
    }

    /// The sub-roll as `literal -> v1, v2 = total`, where the total does not overflow.
    pub fn render(&self) -> (s: String)
        requires
            checked_sum(self.values@) is Some,
        ensures
            s@ == sub_roll_text(self.literal@, self.values@, checked_sum(self.values@)->0),
    {
        let total = match sum_values(&self.values) {
            Ok(t) => t,
            Err(_) => 0,
        };
        let mut out: Vec<char> = Vec::new();
        push_str(&mut out, self.literal.as_str());
        push_str(&mut out, " -> ");
        push_joined(&mut out, &self.values, ", ");
        push_str(&mut out, " = ");
        push_decimal(&mut out, total);
        proof {
            reveal_strlit(" -> ");
            reveal_strlit(", ");
            reveal_strlit(" = ");
            assert(" -> "@ =~= seq![' ', '-', '>', ' ']);
            assert(", "@ =~= seq![',', ' ']);
            assert(" = "@ =~= seq![' ', '=', ' ']);
        }
        assert(out@ =~= sub_roll_text(self.literal@, self.values@, total));
        string_from_chars(&out)
    }
}

} // verus!
