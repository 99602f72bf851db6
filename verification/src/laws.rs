//! Properties of evaluation that hold on every input.

use vstd::prelude::*;
use vstd::relations::sorted_by;
use crate::dice::{Expr, Op};
use crate::roll::RollError;
use crate::random::ascending;
use crate::roll::{
    RollView, SubRollView, checked_sum, sorted_for, die_literal, draw_dice, eval_after, in_i32, is_multi,
    multi_loop, repeat_loop, roll_dice, select, sum_of, apply_arith, eval, combine, trunc_div,
    rolled_from_draws, replay_result, read_part, no_dice, lemma_eval_reads_front,
    lemma_eval_extends, lemma_eval_without_dice,
};

verus! {

/// The plain sum of the values.
pub open spec fn plain_sum(s: Seq<i32>) -> int
    decreases s.len(),
{
    if s.len() == 0 { 0 } else { plain_sum(s.drop_last()) + s.last() }
}

/// Every partial sum of the values, from the first on, lies in `i32`.
pub open spec fn partial_sums_fit(s: Seq<i32>) -> bool {
    forall|k: int| 0 <= k <= s.len() ==> in_i32(#[trigger] plain_sum(s.take(k)))
}

/// The sum of a roll is the plain sum of its values, and it is defined exactly when no
/// partial sum leaves `i32`.
pub proof fn law_sum_is_plain_sum(s: Seq<i32>)
    ensures
        checked_sum(s) matches Some(x) ==> x == plain_sum(s),
        checked_sum(s) is Some <==> partial_sums_fit(s),
    decreases s.len(),
{
    if s.len() > 0 {
        law_sum_is_plain_sum(s.drop_last());
        let p = s.drop_last();
        assert forall|k: int| 0 <= k <= p.len() implies #[trigger] p.take(k) == s.take(k) by {
            assert(p.take(k) =~= s.take(k));
        }
        assert(s.take(s.len() as int) =~= s);
        if partial_sums_fit(s) {
            assert forall|k: int| 0 <= k <= p.len() implies in_i32(#[trigger] plain_sum(p.take(k))) by {
                assert(p.take(k) == s.take(k));
                assert(in_i32(plain_sum(s.take(k))));
            }
            assert(in_i32(plain_sum(s.take(s.len() as int))));
        }
        if checked_sum(s) is Some {
            assert forall|k: int| 0 <= k <= s.len() implies in_i32(#[trigger] plain_sum(s.take(k))) by {
                if k < s.len() {
                    assert(p.take(k) == s.take(k));
                    assert(in_i32(plain_sum(p.take(k))));
                } else {
                    assert(s.take(k) == s);
                }
            }
        }
    } else {
        assert forall|k: int| 0 <= k <= s.len() implies in_i32(#[trigger] plain_sum(s.take(k))) by {
            assert(s.take(k) =~= Seq::<i32>::empty());
        }
    }
}

/// A negative count makes `kh` and `dh` work from the lowest values, as `kl` and `dl` do, and
/// makes `kl` and `dl` work from the highest ones.
pub proof fn law_negative_count_flips_end(values: Seq<i32>, k: i32)
    requires
        0 < k,
    ensures
        select(Op::KeepHighest, values, (-k) as i32) == select(Op::KeepLowest, values, k),
        select(Op::KeepLowest, values, (-k) as i32) == select(Op::KeepHighest, values, k),
        select(Op::DropHighest, values, (-k) as i32) == select(Op::DropLowest, values, k),
        select(Op::DropLowest, values, (-k) as i32) == select(Op::DropHighest, values, k),
{
    let up = values.sort_by(ascending());
    assert(up.reverse().reverse() =~= up);
}

proof fn lemma_sorted_up(values: Seq<i32>)
    ensures
        sorted_by(values.sort_by(ascending()), ascending()),
        values.sort_by(ascending()).to_multiset() == values.to_multiset(),
        values.sort_by(ascending()).len() == values.len(),
{
    values.lemma_sort_by_ensures(ascending());
    vstd::seq_lib::to_multiset_len(values);
    vstd::seq_lib::to_multiset_len(values.sort_by(ascending()));
}

/// A keep operator and its drop operator split the values between them: with the same count,
/// what `kh` keeps followed by what `dh` drops is the values in the order `kh` sorts them
/// (highest first, reversed for a negative count), and so holds each value as often as before
/// (likewise for `kl` and `dl`, lowest first); the keep operator keeps `|k|` of them, or all
/// where fewer.
pub proof fn law_keep_and_drop_split(values: Seq<i32>, k: i32)
    requires
        k != i32::MIN,
    ensures
        select(Op::KeepHighest, values, k) + select(Op::DropHighest, values, k) == (if k < 0 {
            sorted_for(Op::KeepHighest, values).reverse()
        } else {
            sorted_for(Op::KeepHighest, values)
        }),
        select(Op::KeepLowest, values, k) + select(Op::DropLowest, values, k) == (if k < 0 {
            sorted_for(Op::KeepLowest, values).reverse()
        } else {
            sorted_for(Op::KeepLowest, values)
        }),
        (select(Op::KeepHighest, values, k) + select(Op::DropHighest, values, k)).to_multiset() == values.to_multiset(),
        (select(Op::KeepLowest, values, k) + select(Op::DropLowest, values, k)).to_multiset() == values.to_multiset(),
        select(Op::KeepHighest, values, k).len() == (if (if k < 0 { -k } else { k as int }) < values.len() { if k < 0 { -k } else { k as int } } else { values.len() as int }),
        select(Op::KeepLowest, values, k).len() == (if (if k < 0 { -k } else { k as int }) < values.len() { if k < 0 { -k } else { k as int } } else { values.len() as int }),
{
    lemma_sorted_up(values);
    let up = values.sort_by(ascending());
    up.lemma_reverse_to_multiset();
    up.reverse().lemma_reverse_to_multiset();
    assert(up.reverse().reverse() =~= up);
    let m: int = if k < 0 { -k } else { k as int };
    let n: int = if m < up.len() { m } else { up.len() as int };
    assert(up.reverse().take(n) + up.reverse().skip(n) =~= up.reverse());
    assert(up.take(n) + up.skip(n) =~= up);
    let down = up.reverse();
    assert(down.reverse().take(n) + down.reverse().skip(n) =~= down.reverse());
}

/// For a count of zero or more, every value that `kh` keeps is at least every value that `dh`
/// drops, and every value that `kl` keeps is at most every value that `dl` drops.
pub proof fn law_kept_beyond_dropped(values: Seq<i32>, k: i32)
    requires
        0 <= k,
    ensures
        forall|a: int, b: int| 0 <= a < select(Op::KeepHighest, values, k).len() && 0 <= b < select(Op::DropHighest, values, k).len()
            ==> select(Op::KeepHighest, values, k)[a] >= select(Op::DropHighest, values, k)[b],
        forall|a: int, b: int| 0 <= a < select(Op::KeepLowest, values, k).len() && 0 <= b < select(Op::DropLowest, values, k).len()
            ==> select(Op::KeepLowest, values, k)[a] <= select(Op::DropLowest, values, k)[b],
{
    lemma_sorted_up(values);
    let up = values.sort_by(ascending());
    let len = up.len() as int;
    let n: int = if (k as int) < len { k as int } else { len };
    let kh = select(Op::KeepHighest, values, k);
    let dh = select(Op::DropHighest, values, k);
    let kl = select(Op::KeepLowest, values, k);
    let dl = select(Op::DropLowest, values, k);
    assert(kh =~= up.reverse().take(n));
    assert(dh =~= up.reverse().skip(n));
    assert(kl =~= up.take(n));
    assert(dl =~= up.skip(n));
    assert forall|a: int, b: int| 0 <= a < kh.len() && 0 <= b < dh.len()
        implies #[trigger] kh[a] >= #[trigger] dh[b] by {
        assert(kh[a] == up[len - 1 - a]);
        assert(dh[b] == up[len - 1 - n - b]);
        assert(ascending()(up[len - 1 - n - b], up[len - 1 - a]));
    }
    assert forall|a: int, b: int| 0 <= a < kl.len() && 0 <= b < dl.len()
        implies #[trigger] kl[a] <= #[trigger] dl[b] by {
        assert(dl[b] == up[n + b]);
        assert(ascending()(up[a], up[n + b]));
    }
}

proof fn lemma_draw_dice_values(count: nat, faces: int, negate: bool, acc: Seq<i32>, ds: Seq<i32>)
    requires
        draw_dice(count, faces, negate, acc, ds) is Ok,
    ensures
        ({
            let vals = draw_dice(count, faces, negate, acc, ds)->Ok_0.0;
            &&& vals.len() == acc.len() + count
            &&& vals.take(acc.len() as int) == acc
            &&& forall|i: int| acc.len() <= i < vals.len() ==> {
                &&& 1 <= (if vals[i] < 0 { -vals[i] } else { vals[i] as int }) <= faces
                &&& (vals[i] < 0 <==> negate)
            }
        }),
    decreases count,
{
    if count > 0 {
        let v: i32 = if negate { (-ds[0]) as i32 } else { ds[0] };
        lemma_draw_dice_values((count - 1) as nat, faces, negate, acc.push(v), ds.drop_first());
        let vals = draw_dice(count, faces, negate, acc, ds)->Ok_0.0;
        assert(vals.take((acc.len() + 1) as int).take(acc.len() as int) =~= vals.take(acc.len() as int));
        assert(acc.push(v).take(acc.len() as int) =~= acc);
        assert(vals.take((acc.len() + 1) as int)[acc.len() as int] == vals[acc.len() as int]);
        assert(vals[acc.len() as int] == v);
        assert(1 <= ds[0] <= faces);
    } else {
        assert(acc.take(acc.len() as int) =~= acc);
    }
}

/// Rolling `dice` dice of `faces` faces gives `|dice|` values, each of a size from 1 to
/// `|faces|`, negative exactly when one of the two numbers is, and records them after the
/// earlier sub-rolls as a sub-roll written `{dice}d{faces}`.
pub proof fn law_dice_values(dice: i32, faces: i32, subs: Seq<SubRollView>, ds: Seq<i32>)
    requires
        roll_dice(dice, faces, subs, ds) is Ok,
    ensures
        ({
            let r = roll_dice(dice, faces, subs, ds)->Ok_0.0;
            &&& r.values.len() == (if dice < 0 { -dice } else { dice as int })
            &&& forall|i: int| 0 <= i < r.values.len() ==> {
                &&& 1 <= (if r.values[i] < 0 { -r.values[i] } else { r.values[i] as int })
                &&& (if r.values[i] < 0 { -r.values[i] } else { r.values[i] as int })
                    <= (if faces < 0 { -faces } else { faces as int })
                &&& (r.values[i] < 0 <==> ((dice < 0) != (faces < 0)))
            }
            &&& r.sub_rolls == subs.push(SubRollView { literal: die_literal(dice, faces), values: r.values })
        }),
{
    let n: int = if dice < 0 { -dice } else { dice as int };
    let f: int = if faces < 0 { -faces } else { faces as int };
    lemma_draw_dice_values(n as nat, f, (dice < 0) != (faces < 0), Seq::empty(), ds);
}

/// `r` is a roll that `e` can give, for some draws.
pub open spec fn is_roll_of(e: Expr, r: RollView) -> bool {
    exists|ds: Seq<i32>| #[trigger] eval(e, ds) is Ok && eval(e, ds)->Ok_0.0 == r
}

/// The values of the rolls, one roll after another.
pub open spec fn all_values(rolls: Seq<RollView>) -> Seq<i32>
    decreases rolls.len(),
{
    if rolls.len() == 0 { Seq::empty() } else { rolls[0].values + all_values(rolls.drop_first()) }
}

/// `+ - * /` give one value: the operation applied to the plain sums of the two sides
/// (division rounding toward zero), after the sub-rolls of both sides.
pub proof fn law_basic_operators(op: Op, l: RollView, r: RollView, ds: Seq<i32>)
    requires
        op is Add || op is Subtract || op is Multiply || op is Divide,
        combine(op, l, r, ds) is Ok,
    ensures
        ({
            let v = combine(op, l, r, ds)->Ok_0.0;
            let a = plain_sum(l.values);
            let b = plain_sum(r.values);
            &&& v.sub_rolls == l.sub_rolls + r.sub_rolls
            &&& v.values.len() == 1
            &&& v.values[0] == (if op is Add { a + b } else if op is Subtract { a - b }
                else if op is Multiply { a * b } else { trunc_div(a, b) })
        }),
{
    law_sum_is_plain_sum(l.values);
    law_sum_is_plain_sum(r.values);
}

/// `=e` gives one value: the plain sum of the values of `e`, with its sub-rolls.
pub proof fn law_collect_sums(e: Expr, ds: Seq<i32>)
    requires
        eval(Expr::Collect(Box::new(e)), ds) is Ok,
    ensures
        eval(e, ds) is Ok,
        eval(Expr::Collect(Box::new(e)), ds)->Ok_0.0.values
            == seq![plain_sum(eval(e, ds)->Ok_0.0.values) as i32],
        eval(Expr::Collect(Box::new(e)), ds)->Ok_0.0.sub_rolls == eval(e, ds)->Ok_0.0.sub_rolls,
{
    law_sum_is_plain_sum(eval(e, ds)->Ok_0.0.values);
}

/// `-e` gives one value, minus the plain sum of the values of `e`, with the sub-rolls of `e`.
pub proof fn law_negate_sums(e: Expr, ds: Seq<i32>)
    requires
        eval(Expr::UnaryMinus(Box::new(e)), ds) is Ok,
    ensures
        eval(e, ds) is Ok,
        eval(Expr::UnaryMinus(Box::new(e)), ds)->Ok_0.0.values.len() == 1,
        eval(Expr::UnaryMinus(Box::new(e)), ds)->Ok_0.0.values[0] == -plain_sum(eval(e, ds)->Ok_0.0.values),
        eval(Expr::UnaryMinus(Box::new(e)), ds)->Ok_0.0.sub_rolls == eval(e, ds)->Ok_0.0.sub_rolls,
        eval(Expr::UnaryMinus(Box::new(e)), ds)->Ok_0.1 == eval(e, ds)->Ok_0.1,
{
    law_sum_is_plain_sum(eval(e, ds)->Ok_0.0.values);
}

proof fn lemma_multi_loop_values(op: Op, rhs: Expr, values: Seq<i32>, i: int, subs: Seq<SubRollView>, out: Seq<i32>, ds: Seq<i32>)
    requires
        0 <= i <= values.len(),
        multi_loop(op, rhs, values, i, subs, out, ds) is Ok,
    ensures
        ({
            let res = multi_loop(op, rhs, values, i, subs, out, ds)->Ok_0.0.values;
            &&& res.len() == out.len() + values.len() - i
            &&& res.take(out.len() as int) == out
            &&& forall|k: int| #![trigger res[k]] out.len() <= k < res.len() ==> exists|r: RollView|
                #[trigger] is_roll_of(rhs, r) && apply_arith(op, values[i + k - out.len()], sum_of(r.values)->Ok_0)
                    == Ok::<i32, RollError>(res[k]) && sum_of(r.values) is Ok
        }),
    decreases values.len() - i,
{
    if i < values.len() {
        let (r, rest) = eval(rhs, ds)->Ok_0;
        let b = sum_of(r.values)->Ok_0;
        let v = apply_arith(op, values[i], b)->Ok_0;
        lemma_multi_loop_values(op, rhs, values, i + 1, subs + r.sub_rolls, out.push(v), rest);
        let res = multi_loop(op, rhs, values, i, subs, out, ds)->Ok_0.0.values;
        assert(res.take((out.len() + 1) as int).take(out.len() as int) =~= res.take(out.len() as int));
        assert(out.push(v).take(out.len() as int) =~= out);
        assert(res.take((out.len() + 1) as int)[out.len() as int] == res[out.len() as int]);
        assert(is_roll_of(rhs, r)) by {
            assert(eval(rhs, ds) == Ok::<(RollView, Seq<i32>), RollError>((r, rest)));
        }
    } else {
        assert(out.take(out.len() as int) =~= out);
    }
}

/// The values that `l op rhs` gives on the draws `ds`, where it succeeds.
pub open spec fn values_after(op: Op, rhs: Expr, l: RollView, ds: Seq<i32>) -> Seq<i32> {
    eval_after(op, rhs, l, ds)->Ok_0.0.values
}

/// A multi operator gives one value for each value of its left side, in order: the `k`-th is
/// the `k`-th left value combined with the sum of a roll of its right side (that sum is the
/// plain sum: see `law_sum_is_plain_sum`).
pub proof fn law_multi_each_value(op: Op, rhs: Expr, l: RollView, ds: Seq<i32>, k: int)
    requires
        is_multi(op),
        eval_after(op, rhs, l, ds) is Ok,
        0 <= k < l.values.len(),
    ensures
        values_after(op, rhs, l, ds).len() == l.values.len(),
        exists|r: RollView| #[trigger] is_roll_of(rhs, r) && sum_of(r.values) is Ok
            && apply_arith(op, l.values[k], sum_of(r.values)->Ok_0) == Ok::<i32, RollError>(values_after(op, rhs, l, ds)[k]),
{
    let empty = Seq::<i32>::empty();
    lemma_multi_loop_values(op, rhs, l.values, 0, l.sub_rolls, empty, ds);
    assert(eval_after(op, rhs, l, ds) == multi_loop(op, rhs, l.values, 0, l.sub_rolls, empty, ds));
    let res2 = multi_loop(op, rhs, l.values, 0, l.sub_rolls, empty, ds)->Ok_0.0.values;
    assert(res2[k] == values_after(op, rhs, l, ds)[k]);
    assert(0 + k - empty.len() == k);
}

proof fn lemma_repeat_loop_values(rhs: Expr, n: nat, subs: Seq<SubRollView>, out: Seq<i32>, ds: Seq<i32>)
    requires
        repeat_loop(rhs, n, subs, out, ds) is Ok,
    ensures
        exists|rolls: Seq<RollView>| rolls.len() == n
            && (forall|j: int| 0 <= j < rolls.len() ==> #[trigger] is_roll_of(rhs, rolls[j]))
            && #[trigger] all_values(rolls) == repeat_loop(rhs, n, subs, out, ds)->Ok_0.0.values.skip(out.len() as int)
            && repeat_loop(rhs, n, subs, out, ds)->Ok_0.0.values.len() >= out.len()
            && repeat_loop(rhs, n, subs, out, ds)->Ok_0.0.values.take(out.len() as int) == out,
    decreases n,
{
    let res = repeat_loop(rhs, n, subs, out, ds)->Ok_0.0.values;
    if n == 0 {
        let rolls: Seq<RollView> = Seq::empty();
        assert(all_values(rolls) =~= res.skip(out.len() as int));
        assert(res.take(out.len() as int) =~= out);
    } else {
        let (r, rest) = eval(rhs, ds)->Ok_0;
        lemma_repeat_loop_values(rhs, (n - 1) as nat, subs + r.sub_rolls, out + r.values, rest);
        let more = choose|rolls: Seq<RollView>| rolls.len() == (n - 1) as nat
            && (forall|j: int| 0 <= j < rolls.len() ==> #[trigger] is_roll_of(rhs, rolls[j]))
            && #[trigger] all_values(rolls) == res.skip((out + r.values).len() as int)
            && res.len() >= (out + r.values).len()
            && res.take((out + r.values).len() as int) == out + r.values;
        let rolls = seq![r] + more;
        assert(rolls.drop_first() =~= more);
        assert(is_roll_of(rhs, r)) by {
            assert(eval(rhs, ds) == Ok::<(RollView, Seq<i32>), RollError>((r, rest)));
        }
        assert forall|j: int| 0 <= j < rolls.len() implies #[trigger] is_roll_of(rhs, rolls[j]) by {
            if j > 0 {
                assert(rolls[j] == more[j - 1]);
            }
        }
        assert(res.take(out.len() as int) =~= res.take((out + r.values).len() as int).take(out.len() as int));
        assert(res.take(out.len() as int) =~= out);
        assert(res.skip(out.len() as int) =~= r.values + res.skip((out + r.values).len() as int)) by {
            assert(res.take((out + r.values).len() as int) == out + r.values);
            assert forall|x: int| 0 <= x < r.values.len() implies res[out.len() + x] == r.values[x] by {
                assert(res.take((out + r.values).len() as int)[out.len() + x] == res[out.len() + x]);
            }
        }
        assert(all_values(rolls) == r.values + all_values(more));
    }
}

/// `n @ e` gives, one after another, the values of `n` rolls of `e`, where `n` is the sum of the
/// left side (none where that is not positive).
pub proof fn law_repeat_values(rhs: Expr, l: RollView, ds: Seq<i32>)
    requires
        eval_after(Op::Repeat, rhs, l, ds) is Ok,
    ensures
        sum_of(l.values) is Ok,
        exists|rolls: Seq<RollView>|
            rolls.len() == (if sum_of(l.values)->Ok_0 > 0 { sum_of(l.values)->Ok_0 as int } else { 0 })
            && (forall|j: int| 0 <= j < rolls.len() ==> #[trigger] is_roll_of(rhs, rolls[j]))
            && #[trigger] all_values(rolls) == eval_after(Op::Repeat, rhs, l, ds)->Ok_0.0.values,
{
    let n = sum_of(l.values)->Ok_0;
    let count: nat = if n > 0 { n as nat } else { 0 };
    lemma_repeat_loop_values(rhs, count, l.sub_rolls, Seq::empty(), ds);
    let res = eval_after(Op::Repeat, rhs, l, ds)->Ok_0.0.values;
    assert(res.skip(0) =~= res);
}

/// The roll of `lhs, rhs` whose values are those of `l` and then those of `r`, and likewise
/// its sub-rolls.
pub open spec fn joined(l: RollView, r: RollView) -> RollView {
    RollView { sub_rolls: l.sub_rolls + r.sub_rolls, values: l.values + r.values }
}

/// The expression `lhs, rhs`.
pub open spec fn comma(lhs: Expr, rhs: Expr) -> Expr {
    Expr::BinOp { lhs: Box::new(lhs), op: Op::Comma, rhs: Box::new(rhs) }
}

/// The two sides of `,` are separate rolls: every roll of `lhs, rhs` is a roll of `lhs`
/// followed by a roll of `rhs`, their values and their sub-rolls one after the other.
pub proof fn law_comma_splits(lhs: Expr, rhs: Expr, v: RollView)
    requires
        rolled_from_draws(comma(lhs, rhs), Ok(v)),
    ensures
        exists|l: RollView, r: RollView|
            rolled_from_draws(lhs, Ok(l)) && rolled_from_draws(rhs, Ok(r)) && #[trigger] joined(l, r) == v,
{
    let e = comma(lhs, rhs);
    let ds = choose|ds: Seq<i32>| #[trigger] replay_result(e, ds) == Ok::<RollView, RollError>(v);
    let (l, m) = eval(lhs, ds)->Ok_0;
    let (r, rest) = eval(rhs, m)->Ok_0;
    assert(eval(e, ds) == eval_after(Op::Comma, rhs, l, m));
    assert(eval_after(Op::Comma, rhs, l, m) == combine(Op::Comma, l, r, rest));
    lemma_eval_reads_front(lhs, ds);
    assert(replay_result(lhs, read_part(ds, m)) == Ok::<RollView, RollError>(l));
    assert(replay_result(rhs, m) == Ok::<RollView, RollError>(r));
    assert(rolled_from_draws(lhs, Ok(l)));
    assert(rolled_from_draws(rhs, Ok(r)));
    assert(joined(l, r) == v);
}

/// Any roll of `lhs` followed by any roll of `rhs` is a roll of `lhs, rhs`.
pub proof fn law_comma_joins(lhs: Expr, rhs: Expr, l: RollView, r: RollView)
    requires
        rolled_from_draws(lhs, Ok(l)),
        rolled_from_draws(rhs, Ok(r)),
    ensures
        rolled_from_draws(comma(lhs, rhs), Ok(joined(l, r))),
{
    let d1 = choose|ds: Seq<i32>| #[trigger] replay_result(lhs, ds) == Ok::<RollView, RollError>(l);
    let d2 = choose|ds: Seq<i32>| #[trigger] replay_result(rhs, ds) == Ok::<RollView, RollError>(r);
    lemma_eval_extends(lhs, d1, d2);
    assert(Seq::<i32>::empty() + d2 =~= d2);
    assert(eval(rhs, d2)->Ok_0.1 =~= Seq::<i32>::empty());
    let e = comma(lhs, rhs);
    assert(eval(e, d1 + d2) == eval_after(Op::Comma, rhs, l, d2));
    assert(eval_after(Op::Comma, rhs, l, d2) == combine(Op::Comma, l, r, Seq::<i32>::empty()));
    assert(replay_result(comma(lhs, rhs), d1 + d2) == Ok::<RollView, RollError>(joined(l, r)));
}

/// An expression without dice has one outcome: any two evaluations of it end alike, and a
/// roll of it records no sub-roll.
pub proof fn law_no_dice_one_outcome(e: Expr, a: Result<RollView, RollError>, b: Result<RollView, RollError>)
    requires
        no_dice(e),
        rolled_from_draws(e, a),
        rolled_from_draws(e, b),
    ensures
        a == b,
        a matches Ok(v) ==> v.sub_rolls.len() == 0,
{
    let da = choose|ds: Seq<i32>| #[trigger] replay_result(e, ds) == a;
    let db = choose|ds: Seq<i32>| #[trigger] replay_result(e, ds) == b;
    lemma_eval_without_dice(e, da, db);
    lemma_eval_without_dice(e, db, da);
}

/// A multi operator works value by value in plain integer arithmetic: the `k`-th value is the
/// `k`-th left value plus, minus, times, or divided (rounding toward zero) by the plain sum of
/// a roll of the right side.
pub proof fn law_multi_arithmetic(op: Op, rhs: Expr, l: RollView, ds: Seq<i32>, k: int)
    requires
        is_multi(op),
        eval_after(op, rhs, l, ds) is Ok,
        0 <= k < l.values.len(),
    ensures
        values_after(op, rhs, l, ds).len() == l.values.len(),
        exists|r: RollView| #[trigger] is_roll_of(rhs, r) && partial_sums_fit(r.values) && {
            let x = l.values[k] as int;
            let y = plain_sum(r.values);
            let v = values_after(op, rhs, l, ds)[k] as int;
            &&& op is MultiAdd ==> v == x + y
            &&& op is MultiSubtract ==> v == x - y
            &&& op is MultiMultiply ==> v == x * y
            &&& op is MultiDivide ==> y != 0 && v == trunc_div(x, y)
        },
{
    law_multi_each_value(op, rhs, l, ds, k);
    let r = choose|r: RollView| #[trigger] is_roll_of(rhs, r) && sum_of(r.values) is Ok
        && apply_arith(op, l.values[k], sum_of(r.values)->Ok_0) == Ok::<i32, RollError>(values_after(op, rhs, l, ds)[k]);
    law_sum_is_plain_sum(r.values);
    assert(is_roll_of(rhs, r));
}

/// Division rounds toward zero: the remainder `x - q * y` is smaller than `y` in size and is
/// zero or has the sign of `x`.
pub proof fn law_division_rounds_toward_zero(x: int, y: int)
    requires
        y != 0,
    ensures
        ({
            let q = trunc_div(x, y);
            let rem = x - q * y;
            &&& (if rem < 0 { -rem } else { rem }) < (if y < 0 { -y } else { y })
            &&& rem == 0 || ((rem > 0) == (x > 0))
        }),
{
    let ax = if x < 0 { -x } else { x };
    let ay = if y < 0 { -y } else { y };
    let d = ax / ay;
    let m = ax % ay;
    assert(ax == d * ay + m && 0 <= m < ay) by {
        vstd::arithmetic::div_mod::lemma_fundamental_div_mod(ax, ay);
    }
    let q = trunc_div(x, y);
    if (x < 0) != (y < 0) {
        assert(q == -d);
        if x < 0 {
            assert(x - q * y == -m) by (nonlinear_arith)
                requires q == -d, y == ay, x == -ax, ax == d * ay + m;
        } else {
            assert(x - q * y == m) by (nonlinear_arith)
                requires q == -d, y == -ay, x == ax, ax == d * ay + m;
        }
    } else {
        assert(q == d);
        if x < 0 {
            assert(x - q * y == -m) by (nonlinear_arith)
                requires q == d, y == -ay, x == -ax, ax == d * ay + m;
        } else {
            assert(x - q * y == m) by (nonlinear_arith)
                requires q == d, y == ay, x == ax, ax == d * ay + m;
        }
    }
}

} // verus!
