use osr_helper::flower::flower_hex;

#[test]
fn hex_of_a_roll_is_its_first_two_characters() {
    for roll in ["07 north", "12", "3", "+5 east", "x1", "", "-1", "1x", " 4", "99 and more"] {
        let expected = roll.chars().take(2).collect::<String>().parse::<usize>().ok();
        assert_eq!(flower_hex(roll), expected, "{:?}", roll);
    }
    assert_eq!(flower_hex("07 north"), Some(7));
    assert_eq!(flower_hex("x1"), None);
}
