use osr_helper::dice::{Dice, DiceError, Expr, Op};
use osr_helper::parser::{DiceParser, ParseOutcome};
use osr_helper::roll::{Roll, RollError};

fn parsed(s: &str) -> Expr {
    match DiceParser::parse_expression(s) {
        ParseOutcome::Parsed(e) => e,
        other => panic!("{:?} did not parse: {:?}", s, other),
    }
}

fn replay(s: &str, draws: Vec<i32>) -> Result<Roll, RollError> {
    Roll::replay(&parsed(s), draws)
}

fn values(s: &str, draws: Vec<i32>) -> Vec<i32> {
    replay(s, draws).unwrap().values
}

#[test]
fn readme_basic_add() {
    // 2d4 + 2d4 => {1, 2} + {2, 3} => 8
    assert_eq!(values("2d4 + 2d4", vec![1, 2, 2, 3]), vec![8]);
}

#[test]
fn readme_multi_add_constant() {
    // 3d4 ++ 2 => 3, 6, 4 (from draws 1, 4, 2)
    assert_eq!(values("3d4 ++ 2", vec![1, 4, 2]), vec![3, 6, 4]);
}

#[test]
fn readme_drop_lowest() {
    // 2d20dl1 => {8, 14} dl 1 => 14
    assert_eq!(values("2d20dl1", vec![8, 14]), vec![14]);
}

#[test]
fn readme_keep_highest() {
    // 4d6kh3 => {3, 2, 5, 3} kh 3 => 5, 3, 3
    assert_eq!(values("4d6kh3", vec![3, 2, 5, 3]), vec![5, 3, 3]);
}

#[test]
fn readme_keep_highest_negative() {
    // 4d20kh-2 => {17, 10, 10, 2} kh -2 => 2, 10
    assert_eq!(values("4d20kh-2", vec![17, 10, 10, 2]), vec![2, 10]);
}

#[test]
fn readme_negative_dice() {
    assert_eq!(values("-1d4", vec![3]), vec![-3]);
    assert_eq!(values("1d-4", vec![2]), vec![-2]);
    assert_eq!(values("-1d-4", vec![4]), vec![4]);
}

#[test]
fn readme_commas() {
    assert_eq!(values("1d4, 1d4, 1d4", vec![3, 3, 2]), vec![3, 3, 2]);
}

#[test]
fn readme_parens() {
    // 2d(4+2) => 2d6 => 11 (the total)
    let r = replay("2d(4+2)", vec![5, 6]).unwrap();
    assert_eq!(r.values, vec![5, 6]);
    assert_eq!(r.sum(), 11);
    assert_eq!(r.sub_rolls[0].literal, "2d6");
}

#[test]
fn readme_collect() {
    assert_eq!(values("=(1d6, 1d6, 1d6)", vec![4, 6, 6]), vec![16]);
}

#[test]
fn readme_repeat() {
    assert_eq!(values("4@2", vec![]), vec![2, 2, 2, 2]);
    assert_eq!(values("4@1d4", vec![4, 3, 4, 1]), vec![4, 3, 4, 1]);
    assert_eq!(values("3@2d4", vec![3, 3, 1, 2, 3, 4]), vec![3, 3, 1, 2, 3, 4]);
    assert_eq!(values("6@=3d6", vec![1, 2, 2, 5, 5, 5, 3, 4, 4, 1, 2, 3, 6, 6, 1, 2, 3, 3]), vec![5, 15, 11, 6, 13, 8]);
}

#[test]
fn sub_rolls_record_each_roll() {
    let r = replay("2d6 + 1d4", vec![1, 2, 3]).unwrap();
    assert_eq!(r.sub_rolls.len(), 2);
    assert_eq!(r.sub_rolls[0].literal, "2d6");
    assert_eq!(r.sub_rolls[0].values, vec![1, 2]);
    assert_eq!(r.sub_rolls[1].literal, "1d4");
    assert_eq!(r.sub_rolls[0].render(), "2d6 -> 1, 2 = 3");
    assert_eq!(r.render(), "6");
}

#[test]
fn errors() {
    assert_eq!(replay("1/0", vec![]).unwrap_err(), RollError::DivisionByZero);
    assert_eq!(replay("1d0", vec![]).unwrap_err(), RollError::NoFaces);
    assert_eq!(replay("2147483647 + 1", vec![]).unwrap_err(), RollError::Overflow);
    assert_eq!(replay("2d6", vec![1]).unwrap_err(), RollError::DrawsExhausted);
    assert_eq!(replay("1d6", vec![7]).unwrap_err(), RollError::DrawOutOfRange);
    assert_eq!(replay("1d6", vec![1, 2]).unwrap_err(), RollError::DrawsLeftOver);
}

#[test]
fn parse_errors() {
    assert!(matches!(DiceParser::parse_expression("1 2"), ParseOutcome::Invalid));
    assert!(matches!(DiceParser::parse_expression("99999999999"), ParseOutcome::LiteralTooLarge));
    assert_eq!(Dice::parse("2d").unwrap_err(), DiceError::Syntax);
    let d = Dice::parse(" 3d6 ").unwrap();
    assert_eq!(d.literal, " 3d6 ");
}

#[test]
fn precedence() {
    match parsed("1 + 2 * 3") {
        Expr::BinOp { op: Op::Add, .. } => {}
        other => panic!("{:?}", other),
    }
    assert_eq!(values("1 + 2 * 3", vec![]), vec![7]);
    assert_eq!(values("10 - 2 - 3", vec![]), vec![5]);
    assert_eq!(values("-7 / 2", vec![]), vec![-3]);
}

#[test]
fn random_roll_in_range() {
    for _ in 0..50 {
        let r = Roll::new(&parsed("3d6")).unwrap();
        assert_eq!(r.values.len(), 3);
        assert!(r.values.iter().all(|v| (1..=6).contains(v)));
    }
}

#[test]
fn overflow_cases() {
    assert_eq!(replay("3kh(-2147483647-1)", vec![]).unwrap_err(), RollError::Overflow);
    assert_eq!(replay("-(-2147483647-1)", vec![]).unwrap_err(), RollError::Overflow);
    assert_eq!(replay("(-2147483647-1)d6", vec![]).unwrap_err(), RollError::Overflow);
    assert_eq!(replay("1d(-2147483647-1)", vec![]).unwrap_err(), RollError::Overflow);
    assert_eq!(replay("(-2147483647-1) / -1", vec![]).unwrap_err(), RollError::Overflow);
    assert_eq!(replay("65536 * 65536", vec![]).unwrap_err(), RollError::Overflow);
}

#[test]
fn zero_dice_need_no_faces() {
    let r = replay("0d0", vec![]).unwrap();
    assert_eq!(r.values, Vec::<i32>::new());
    assert_eq!(r.sub_rolls[0].literal, "0d0");
    assert_eq!(r.sub_rolls[0].render(), "0d0 ->  = 0");
}

#[test]
fn repeat_with_no_count() {
    assert_eq!(values("0@1d6", vec![]), Vec::<i32>::new());
    assert_eq!(values("-3@2", vec![]), Vec::<i32>::new());
}

#[test]
fn text_of_rolls() {
    let r = replay("1d6, 2, -3", vec![4]).unwrap();
    assert_eq!(r.render(), "4, 2, -3");
    assert_eq!(r.sum(), 3);
    assert_eq!(r.try_sum(), Some(3));
    assert_eq!(r.sub_rolls[0].total(), Some(4));
}

#[test]
fn readme_multi_add_dice() {
    // 3d6 ++ 2d4 => (1d6 + 2d4, 1d6 + 2d4, 1d6 + 2d4) => 11, 12, 7
    let r = replay("3d6 ++ 2d4", vec![5, 6, 1, 3, 3, 2, 4, 3, 3]).unwrap();
    assert_eq!(r.values, vec![11, 12, 7]);
    assert_eq!(r.sub_rolls.len(), 4);
}
