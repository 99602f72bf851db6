//! Properties of the written form of numbers and expressions that hold on every input.

use vstd::prelude::*;
use crate::dice::{Op, Term};
use crate::parser::{
    dice_grammar, digit_value, digits_end, digits_value, is_blank, is_digit, parse_i32,
    parse_expr, parse_infix, parse_operand, skip_blanks, infix_at,
};
use crate::text::{decimal, digit_char, digits};

verus! {

/// Every character of `s` is a decimal digit.
pub open spec fn all_digits(s: Seq<char>) -> bool {
    forall|i: int| 0 <= i < s.len() ==> is_digit(#[trigger] s[i])
}

/// The number that the decimal digits `s` write, most significant first.
pub open spec fn number_of(s: Seq<char>) -> int {
    digits_value(s, 0, s.len() as int)
}

proof fn lemma_digit_char(d: int)
    requires
        0 <= d < 10,
    ensures
        is_digit(digit_char(d)),
        digit_value(digit_char(d)) == d,
{
}

/// The value of a run of digits depends only on the characters in it.
proof fn lemma_digits_value_shift(s: Seq<char>, a: int, b: int, t: Seq<char>, c: int)
    requires
        a <= b,
        forall|i: int| a <= i < b ==> #[trigger] s[i] == t[c + (i - a)],
    ensures
        digits_value(s, a, b) == digits_value(t, c, c + (b - a)),
    decreases b - a,
{
    if b > a {
        assert(s[b - 1] == t[c + (b - 1 - a)]);
        lemma_digits_value_shift(s, a, b - 1, t, c);
    }
}

/// A run of digits up to the end, or up to a character that is not a digit, ends there.
proof fn lemma_digits_end_at(s: Seq<char>, from: int, to: int)
    requires
        0 <= from <= to <= s.len(),
        forall|i: int| from <= i < to ==> is_digit(#[trigger] s[i]),
        to == s.len() || !is_digit(s[to]),
    ensures
        digits_end(s, from) == to,
    decreases to - from,
{
    if from < to {
        lemma_digits_end_at(s, from + 1, to);
    }
}

/// The decimal digits of `n` are digits, without a leading zero, and read back as `n`.
pub proof fn law_digits_read_back(n: nat)
    ensures
        digits(n).len() >= 1,
        all_digits(digits(n)),
        digits(n).len() > 1 ==> digits(n)[0] != '0',
        number_of(digits(n)) == n,
    decreases n,
{
    if n < 10 {
        lemma_digit_char(n as int);
        assert(digits_value(digits(n), 0, 0) == 0);
    } else {
        let p = digits(n / 10);
        law_digits_read_back(n / 10);
        let c = digit_char((n % 10) as int);
        lemma_digit_char((n % 10) as int);
        let d = p.push(c);
        assert(d == digits(n));
        assert forall|i: int| 0 <= i < d.len() implies is_digit(#[trigger] d[i]) by {
            if i < p.len() {
                assert(d[i] == p[i]);
            }
        }
        lemma_digits_value_shift(d, 0, p.len() as int, p, 0);
        assert(d[d.len() - 1] == c);
        assert(number_of(d) == digits_value(d, 0, p.len() as int) * 10 + digit_value(c));
        assert(n == (n / 10) * 10 + n % 10);
        assert(d[0] == p[0]);
        if p.len() == 1 {
            assert(digits_value(p, 0, 0) == 0);
            assert(number_of(p) == digit_value(p[0]));
        }
    }
}

/// An `i32` written in decimal reads back as itself.
pub proof fn law_decimal_read_back(i: i32)
    ensures
        parse_i32(decimal(i as int)) == Some(i),
{
    if i < 0 {
        let m: nat = (-i) as nat;
        law_digits_read_back(m);
        let p = digits(m);
        let s = decimal(i as int);
        assert(s == seq!['-'] + p);
        assert forall|k: int| 1 <= k < s.len() implies is_digit(#[trigger] s[k]) by {
            assert(s[k] == p[k - 1]);
        }
        lemma_digits_end_at(s, 1, s.len() as int);
        assert forall|k: int| 1 <= k < s.len() implies #[trigger] s[k] == p[0 + (k - 1)] by {}
        lemma_digits_value_shift(s, 1, s.len() as int, p, 0);
    } else {
        let m: nat = i as nat;
        law_digits_read_back(m);
        let s = decimal(i as int);
        assert(s[0] == digits(m)[0]);
        assert(is_digit(s[0]));
        assert forall|k: int| 0 <= k < s.len() implies is_digit(#[trigger] s[k]) by {
            assert(all_digits(digits(m)));
        }
        lemma_digits_end_at(s, 0, s.len() as int);
    }
}

/// A run of `k` digits at `pos`, not followed by a digit, is an integer operand.
proof fn lemma_number_operand(s: Seq<char>, pos: int, k: int)
    requires
        0 <= pos,
        1 <= k,
        pos + k <= s.len(),
        forall|i: int| pos <= i < pos + k ==> is_digit(#[trigger] s[i]),
        pos + k == s.len() || !is_digit(s[pos + k]),
    ensures
        parse_operand(s, pos) == Some((Term::Integer(digits_value(s, pos, pos + k)), pos + k)),
{
    assert(is_digit(s[pos]));
    assert(!is_blank(s[pos]));
    assert(skip_blanks(s, pos) == pos);
    lemma_digits_end_at(s, pos, pos + k);
}

/// The text `x`, `op`, `y`, `op2`, `z`, each operator one character.
pub open spec fn three_numbers(x: Seq<char>, c1: char, y: Seq<char>, c2: char, z: Seq<char>) -> Seq<char> {
    x + seq![c1] + y + seq![c2] + z
}

/// The integer term of a run of digits.
pub open spec fn int_term(x: Seq<char>) -> Term {
    Term::Integer(number_of(x))
}

/// Facts about the text of three numbers and two operators.
proof fn lemma_three_numbers(x: Seq<char>, c1: char, y: Seq<char>, c2: char, z: Seq<char>)
    requires
        x.len() >= 1, y.len() >= 1, z.len() >= 1,
        all_digits(x), all_digits(y), all_digits(z),
        !is_digit(c1), !is_blank(c1), !is_digit(c2), !is_blank(c2),
    ensures
        ({
            let s = three_numbers(x, c1, y, c2, z);
            let a = x.len() as int;
            let b = a + 1 + y.len();
            let n = s.len() as int;
            &&& n == b + 1 + z.len()
            &&& s[a] == c1 && s[b] == c2
            &&& parse_operand(s, 0) == Some((int_term(x), a))
            &&& parse_operand(s, a + 1) == Some((int_term(y), b))
            &&& parse_operand(s, b + 1) == Some((int_term(z), n))
            &&& skip_blanks(s, a) == a && skip_blanks(s, b) == b && skip_blanks(s, n) == n
            &&& infix_at(s, n) is None
        }),
{
    let s = three_numbers(x, c1, y, c2, z);
    let a = x.len() as int;
    let b = a + 1 + y.len();
    let n = s.len() as int;
    assert forall|i: int| 0 <= i < a implies #[trigger] s[i] == x[0 + (i - 0)] by {}
    assert forall|i: int| a + 1 <= i < b implies #[trigger] s[i] == y[0 + (i - (a + 1))] by {}
    assert forall|i: int| b + 1 <= i < n implies #[trigger] s[i] == z[0 + (i - (b + 1))] by {}
    assert forall|i: int| 0 <= i < a implies is_digit(#[trigger] s[i]) by { assert(s[i] == x[i]); }
    assert forall|i: int| a + 1 <= i < b implies is_digit(#[trigger] s[i]) by { assert(s[i] == y[i - (a + 1)]); }
    assert forall|i: int| b + 1 <= i < n implies is_digit(#[trigger] s[i]) by { assert(s[i] == z[i - (b + 1)]); }
    lemma_number_operand(s, 0, a);
    lemma_number_operand(s, a + 1, y.len() as int);
    lemma_number_operand(s, b + 1, z.len() as int);
    lemma_digits_value_shift(s, 0, a, x, 0);
    lemma_digits_value_shift(s, a + 1, b, y, 0);
    lemma_digits_value_shift(s, b + 1, n, z, 0);
}

/// `,` binds more loosely than `@`: in numbers `x, y@z` the repeat is the right side of the
/// comma, and in `x@y, z` it is the left side.
pub proof fn law_comma_looser_than_repeat(x: Seq<char>, y: Seq<char>, z: Seq<char>)
    requires
        x.len() >= 1, y.len() >= 1, z.len() >= 1,
        all_digits(x), all_digits(y), all_digits(z),
    ensures
        dice_grammar(three_numbers(x, ',', y, '@', z)) == Some(Term::BinOp {
            lhs: Box::new(int_term(x)),
            op: Op::Comma,
            rhs: Box::new(Term::BinOp { lhs: Box::new(int_term(y)), op: Op::Repeat, rhs: Box::new(int_term(z)) }),
        }),
        dice_grammar(three_numbers(x, '@', y, ',', z)) == Some(Term::BinOp {
            lhs: Box::new(Term::BinOp { lhs: Box::new(int_term(x)), op: Op::Repeat, rhs: Box::new(int_term(y)) }),
            op: Op::Comma,
            rhs: Box::new(int_term(z)),
        }),
{
    let a = x.len() as int;
    let b = a + 1 + y.len();
    let (tx, ty, tz) = (int_term(x), int_term(y), int_term(z));

    let s = three_numbers(x, ',', y, '@', z);
    let n = s.len() as int;
    lemma_three_numbers(x, ',', y, '@', z);
    assert(infix_at(s, a) == Some((Op::Comma, 1int)));
    assert(infix_at(s, b) == Some((Op::Repeat, 1int)));
    let yz = Term::BinOp { lhs: Box::new(ty), op: Op::Repeat, rhs: Box::new(tz) };
    let all = Term::BinOp { lhs: Box::new(tx), op: Op::Comma, rhs: Box::new(yz) };
    assert(parse_infix(s, tz, n, 20) == Some((tz, n)));
    assert(parse_expr(s, b + 1, 20) == Some((tz, n)));
    assert(parse_infix(s, yz, n, 10) == Some((yz, n)));
    assert(parse_infix(s, ty, b, 10) == Some((yz, n)));
    assert(parse_expr(s, a + 1, 10) == Some((yz, n)));
    assert(parse_infix(s, all, n, 0) == Some((all, n)));
    assert(parse_infix(s, tx, a, 0) == Some((all, n)));
    assert(parse_expr(s, 0, 0) == Some((all, n)));

    let s2 = three_numbers(x, '@', y, ',', z);
    let n2 = s2.len() as int;
    lemma_three_numbers(x, '@', y, ',', z);
    assert(infix_at(s2, a) == Some((Op::Repeat, 1int)));
    assert(infix_at(s2, b) == Some((Op::Comma, 1int)));
    let xy = Term::BinOp { lhs: Box::new(tx), op: Op::Repeat, rhs: Box::new(ty) };
    let all2 = Term::BinOp { lhs: Box::new(xy), op: Op::Comma, rhs: Box::new(tz) };
    assert(parse_infix(s2, ty, b, 20) == Some((ty, b)));
    assert(parse_expr(s2, a + 1, 20) == Some((ty, b)));
    assert(parse_infix(s2, tz, n2, 10) == Some((tz, n2)));
    assert(parse_expr(s2, b + 1, 10) == Some((tz, n2)));
    assert(parse_infix(s2, all2, n2, 0) == Some((all2, n2)));
    assert(parse_infix(s2, xy, b, 0) == Some((all2, n2)));
    assert(parse_infix(s2, tx, a, 0) == Some((all2, n2)));
    assert(parse_expr(s2, 0, 0) == Some((all2, n2)));
}

/// The text `x c1 y c2 z` of three numbers and two one-character operators `o1` and `o2`
/// parses as `x o1 (y o2 z)` where `o2` binds tighter, and as `(x o1 y) o2 z` otherwise.
proof fn lemma_parse_three(x: Seq<char>, c1: char, o1: Op, y: Seq<char>, c2: char, o2: Op, z: Seq<char>)
    requires
        x.len() >= 1, y.len() >= 1, z.len() >= 1,
        all_digits(x), all_digits(y), all_digits(z),
        !is_digit(c1), !is_blank(c1), !is_digit(c2), !is_blank(c2),
        infix_at(three_numbers(x, c1, y, c2, z), x.len() as int) == Some((o1, 1int)),
        infix_at(three_numbers(x, c1, y, c2, z), (x.len() + 1 + y.len()) as int) == Some((o2, 1int)),
        crate::parser::binding_power(o1) > 0,
        crate::parser::binding_power(o2) > 0,
    ensures
        crate::parser::binding_power(o1) < crate::parser::binding_power(o2) ==> dice_grammar(three_numbers(x, c1, y, c2, z))
            == Some(Term::BinOp {
                lhs: Box::new(int_term(x)),
                op: o1,
                rhs: Box::new(Term::BinOp { lhs: Box::new(int_term(y)), op: o2, rhs: Box::new(int_term(z)) }),
            }),
        crate::parser::binding_power(o1) >= crate::parser::binding_power(o2) ==> dice_grammar(three_numbers(x, c1, y, c2, z))
            == Some(Term::BinOp {
                lhs: Box::new(Term::BinOp { lhs: Box::new(int_term(x)), op: o1, rhs: Box::new(int_term(y)) }),
                op: o2,
                rhs: Box::new(int_term(z)),
            }),
{
    let p1 = crate::parser::binding_power(o1);
    let p2 = crate::parser::binding_power(o2);
    let a = x.len() as int;
    let b = a + 1 + y.len();
    let (tx, ty, tz) = (int_term(x), int_term(y), int_term(z));
    let s = three_numbers(x, c1, y, c2, z);
    let n = s.len() as int;
    lemma_three_numbers(x, c1, y, c2, z);
    if p1 < p2 {
        let yz = Term::BinOp { lhs: Box::new(ty), op: o2, rhs: Box::new(tz) };
        let all = Term::BinOp { lhs: Box::new(tx), op: o1, rhs: Box::new(yz) };
        assert(parse_infix(s, tz, n, p2) == Some((tz, n)));
        assert(parse_expr(s, b + 1, p2) == Some((tz, n)));
        assert(parse_infix(s, yz, n, p1) == Some((yz, n)));
        assert(parse_infix(s, ty, b, p1) == Some((yz, n)));
        assert(parse_expr(s, a + 1, p1) == Some((yz, n)));
        assert(parse_infix(s, all, n, 0) == Some((all, n)));
        assert(parse_infix(s, tx, a, 0) == Some((all, n)));
        assert(parse_expr(s, 0, 0) == Some((all, n)));
    } else {
        let xy = Term::BinOp { lhs: Box::new(tx), op: o1, rhs: Box::new(ty) };
        let all = Term::BinOp { lhs: Box::new(xy), op: o2, rhs: Box::new(tz) };
        assert(parse_infix(s, ty, b, p1) == Some((ty, b)));
        assert(parse_expr(s, a + 1, p1) == Some((ty, b)));
        assert(parse_infix(s, tz, n, p2) == Some((tz, n)));
        assert(parse_expr(s, b + 1, p2) == Some((tz, n)));
        assert(parse_infix(s, all, n, 0) == Some((all, n)));
        assert(parse_infix(s, xy, b, 0) == Some((all, n)));
        assert(parse_infix(s, tx, a, 0) == Some((all, n)));
        assert(parse_expr(s, 0, 0) == Some((all, n)));
    }
}

/// `x o1 (y o2 z)`.
pub open spec fn right_nested(x: Seq<char>, o1: Op, y: Seq<char>, o2: Op, z: Seq<char>) -> Option<Term> {
    Some(Term::BinOp {
        lhs: Box::new(int_term(x)),
        op: o1,
        rhs: Box::new(Term::BinOp { lhs: Box::new(int_term(y)), op: o2, rhs: Box::new(int_term(z)) }),
    })
}

/// `(x o1 y) o2 z`.
pub open spec fn left_nested(x: Seq<char>, o1: Op, y: Seq<char>, o2: Op, z: Seq<char>) -> Option<Term> {
    Some(Term::BinOp {
        lhs: Box::new(Term::BinOp { lhs: Box::new(int_term(x)), op: o1, rhs: Box::new(int_term(y)) }),
        op: o2,
        rhs: Box::new(int_term(z)),
    })
}

/// The precedence of the infix operators on numbers `x`, `y`, `z`: `,` binds more loosely
/// than `@`, `@` than `+ -`, `+ -` than `* / d`; operators of one level group to the left.
pub proof fn law_operator_precedence(x: Seq<char>, y: Seq<char>, z: Seq<char>)
    requires
        x.len() >= 1, y.len() >= 1, z.len() >= 1,
        all_digits(x), all_digits(y), all_digits(z),
    ensures
        dice_grammar(three_numbers(x, '@', y, '+', z)) == right_nested(x, Op::Repeat, y, Op::Add, z),
        dice_grammar(three_numbers(x, '+', y, '@', z)) == left_nested(x, Op::Add, y, Op::Repeat, z),
        dice_grammar(three_numbers(x, ',', y, '-', z)) == right_nested(x, Op::Comma, y, Op::Subtract, z),
        dice_grammar(three_numbers(x, '+', y, '*', z)) == right_nested(x, Op::Add, y, Op::Multiply, z),
        dice_grammar(three_numbers(x, '*', y, '+', z)) == left_nested(x, Op::Multiply, y, Op::Add, z),
        dice_grammar(three_numbers(x, '-', y, 'd', z)) == right_nested(x, Op::Subtract, y, Op::Dice, z),
        dice_grammar(three_numbers(x, '/', y, '-', z)) == left_nested(x, Op::Divide, y, Op::Subtract, z),
        dice_grammar(three_numbers(x, '-', y, '-', z)) == left_nested(x, Op::Subtract, y, Op::Subtract, z),
        dice_grammar(three_numbers(x, '/', y, '/', z)) == left_nested(x, Op::Divide, y, Op::Divide, z),
        dice_grammar(three_numbers(x, '*', y, 'd', z)) == left_nested(x, Op::Multiply, y, Op::Dice, z),
        dice_grammar(three_numbers(x, 'd', y, '*', z)) == left_nested(x, Op::Dice, y, Op::Multiply, z),
        dice_grammar(three_numbers(x, '@', y, '@', z)) == left_nested(x, Op::Repeat, y, Op::Repeat, z),
        dice_grammar(three_numbers(x, ',', y, ',', z)) == left_nested(x, Op::Comma, y, Op::Comma, z),
{
    let a = x.len() as int;
    let b = a + 1 + y.len();
    assert forall|c1: char, c2: char| !is_digit(c1) && !is_digit(c2) implies {
        let s = #[trigger] three_numbers(x, c1, y, c2, z);
        &&& s[a] == c1 && s[b] == c2
        &&& is_digit(s[a + 1]) && is_digit(s[b + 1])
    } by {
        let s = three_numbers(x, c1, y, c2, z);
        assert(s[a + 1] == y[0]);
        assert(s[b + 1] == z[0]);
    }
    lemma_parse_three(x, '@', Op::Repeat, y, '+', Op::Add, z);
    lemma_parse_three(x, '+', Op::Add, y, '@', Op::Repeat, z);
    lemma_parse_three(x, ',', Op::Comma, y, '-', Op::Subtract, z);
    lemma_parse_three(x, '+', Op::Add, y, '*', Op::Multiply, z);
    lemma_parse_three(x, '*', Op::Multiply, y, '+', Op::Add, z);
    lemma_parse_three(x, '-', Op::Subtract, y, 'd', Op::Dice, z);
    lemma_parse_three(x, '/', Op::Divide, y, '-', Op::Subtract, z);
    lemma_parse_three(x, '-', Op::Subtract, y, '-', Op::Subtract, z);
    lemma_parse_three(x, '/', Op::Divide, y, '/', Op::Divide, z);
    lemma_parse_three(x, '*', Op::Multiply, y, 'd', Op::Dice, z);
    lemma_parse_three(x, 'd', Op::Dice, y, '*', Op::Multiply, z);
    lemma_parse_three(x, '@', Op::Repeat, y, '@', Op::Repeat, z);
    lemma_parse_three(x, ',', Op::Comma, y, ',', Op::Comma, z);
}

} // verus!
