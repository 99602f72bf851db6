use osr_helper::dice::Expr;
use osr_helper::parser::{parse_i32_text, DiceParser, ParseOutcome};
use osr_helper::roll::Roll;

fn parsed(s: &str) -> Expr {
    match DiceParser::parse_expression(s) {
        ParseOutcome::Parsed(e) => e,
        other => panic!("{:?} did not parse: {:?}", s, other),
    }
}

fn values(s: &str, draws: Vec<i32>) -> Vec<i32> {
    Roll::replay(&parsed(s), draws).unwrap().values
}

#[test]
fn negative_count_flips_end() {
    let draws = vec![17, 10, 10, 2];
    assert_eq!(values("4d20kh-2", draws.clone()), values("4d20kl2", draws.clone()));
    assert_eq!(values("4d20dh-1", draws.clone()), values("4d20dl1", draws.clone()));
    assert_eq!(values("4d20kl-1", draws.clone()), vec![17]);
}

#[test]
fn keep_and_drop_split() {
    let draws = vec![3, 2, 5, 3];
    let mut both = values("4d6kh2", draws.clone());
    both.extend(values("4d6dh2", draws.clone()));
    assert_eq!(both, vec![5, 3, 3, 2]);
    assert_eq!(values("4d6kl9", draws.clone()), vec![2, 3, 3, 5]);
    assert_eq!(values("4d6dl9", draws.clone()), Vec::<i32>::new());
}

#[test]
fn kept_beyond_dropped() {
    let draws = vec![6, 1, 4, 4, 2];
    let kept = values("5d6kh2", draws.clone());
    let dropped = values("5d6dh2", draws.clone());
    assert!(kept.iter().all(|k| dropped.iter().all(|d| k >= d)));
}

#[test]
fn dice_values_signs() {
    for _ in 0..30 {
        let r = Roll::new(&parsed("-3d4")).unwrap();
        assert_eq!(r.values.len(), 3);
        assert!(r.values.iter().all(|v| (-4..=-1).contains(v)));
        let r = Roll::new(&parsed("-2d-4")).unwrap();
        assert!(r.values.iter().all(|v| (1..=4).contains(v)));
        assert_eq!(r.sub_rolls[0].literal, "-2d-4");
    }
}

#[test]
fn multi_gives_one_value_each() {
    assert_eq!(values("3d4 ++ 1d2", vec![1, 1, 2, 2, 1, 1]).len(), 3);
    assert_eq!(values("(1, 2, 3) ** 2", vec![]), vec![2, 4, 6]);
    assert_eq!(values("(7, -7) // 2", vec![]), vec![3, -3]);
}

#[test]
fn sum_is_plain_sum() {
    let r = Roll::replay(&parsed("1, 2, 3"), vec![]).unwrap();
    assert_eq!(r.sum(), 6);
    let big = Roll::replay(&parsed("2147483647, 1"), vec![]).unwrap();
    assert_eq!(big.try_sum(), None);
}

#[test]
fn eval_reads_only_its_draws() {
    // the same draws give the same roll, and unused draws are reported
    assert_eq!(values("2d6", vec![4, 5]), values("2d6", vec![4, 5]));
    assert!(Roll::replay(&parsed("2d6"), vec![4, 5, 6]).is_err());
}

#[test]
fn parse_i32_like_std() {
    for s in ["0", "+7", "-7", "2147483647", "-2147483648", "2147483648", "", "-", "+", "1a", " 1", "007"] {
        assert_eq!(parse_i32_text(s), s.parse::<i32>().ok(), "{:?}", s);
    }
}

#[test]
fn text_of_expressions() {
    assert_eq!(parsed("2d6 + -3").text(), "2d6+3");
    assert_eq!(parsed("=(1,2)@4d6kh3").text(), "1,2@4d6kh3");
    assert_eq!(osr_helper::dice::Dice::_new(parsed("1 // 2")).literal, "1//2");
}

#[test]
fn comma_splits_into_separate_rolls() {
    // the draws of `2d6, 1d4` are those of `2d6` followed by those of `1d4`
    let both = Roll::replay(&parsed("2d6, 1d4"), vec![5, 2, 3]).unwrap();
    let left = Roll::replay(&parsed("2d6"), vec![5, 2]).unwrap();
    let right = Roll::replay(&parsed("1d4"), vec![3]).unwrap();
    let mut joined = left.values.clone();
    joined.extend(right.values.clone());
    assert_eq!(both.values, joined);
    assert_eq!(both.values, vec![5, 2, 3]);
    let literals: Vec<String> = both.sub_rolls.iter().map(|s| s.literal.clone()).collect();
    assert_eq!(literals, vec!["2d6".to_string(), "1d4".to_string()]);
    assert_eq!(both.sub_rolls[0].values, left.sub_rolls[0].values);
    assert_eq!(both.sub_rolls[1].values, right.sub_rolls[0].values);
}

#[test]
fn no_dice_one_outcome() {
    let e = parsed("(1, 2, 3) ** 2 + =(4, 5)");
    let first = Roll::new(&e).unwrap();
    for _ in 0..10 {
        let again = Roll::new(&e).unwrap();
        assert_eq!(again.values, first.values);
        assert!(again.sub_rolls.is_empty());
    }
    assert_eq!(first.values, Roll::replay(&e, vec![]).unwrap().values);
    assert!(Roll::new(&parsed("1 / 0")).is_err());
}

#[test]
fn keep_negative_count_is_other_end() {
    let v = vec![4, 1, 6, 3, 6];
    for k in 1..7 {
        assert_eq!(Roll::keep(v.clone(), -k, true), Roll::keep(v.clone(), k, false));
        assert_eq!(Roll::keep(v.clone(), -k, false), Roll::keep(v.clone(), k, true));
        assert_eq!(Roll::drop(v.clone(), -k, true), Roll::drop(v.clone(), k, false));
    }
    assert_eq!(Roll::keep(v.clone(), 2, true), vec![6, 6]);
    assert_eq!(Roll::keep(v.clone(), -2, true), vec![1, 3]);
}

#[test]
fn keep_then_drop_is_sorted_sequence() {
    let v = vec![4, 1, 6, 3, 6];
    for k in -6..7 {
        let mut hi = Roll::keep(v.clone(), k, true);
        hi.extend(Roll::drop(v.clone(), k, true));
        let mut lo = Roll::keep(v.clone(), k, false);
        lo.extend(Roll::drop(v.clone(), k, false));
        if k < 0 {
            assert_eq!(hi, vec![1, 3, 4, 6, 6]);
            assert_eq!(lo, vec![6, 6, 4, 3, 1]);
        } else {
            assert_eq!(hi, vec![6, 6, 4, 3, 1]);
            assert_eq!(lo, vec![1, 3, 4, 6, 6]);
        }
    }
    assert_eq!(Roll::drop(v.clone(), 2, false).len(), 3);
}
