use osr_helper::roll::RollError;
use osr_helper::table::{LineItem, LinePiece, Table, TableError, Tables, WeightError, MAX_DEPTH};

fn text(s: &str) -> LinePiece {
    LinePiece::Text(s.to_string())
}

fn weight(s: &str) -> LinePiece {
    LinePiece::Weight(s.to_string())
}

fn link(s: &str) -> LinePiece {
    LinePiece::Link(s.to_string())
}

fn dice(s: &str) -> LinePiece {
    LinePiece::Dice(s.to_string())
}

fn item(pieces: Vec<LinePiece>) -> LineItem {
    LineItem::from_pieces(&pieces).unwrap()
}

fn table(name: &str, items: Vec<LineItem>) -> Table {
    Table::new(name.to_string(), items, None)
}

fn tables(list: Vec<Table>) -> Tables {
    Tables::from_tables(list).unwrap()
}

#[test]
fn zero_weight_items_are_never_chosen() {
    let t = tables(vec![table(
        "Weather",
        vec![item(vec![weight("1"), text("Sunny")]), item(vec![weight("0"), text("Rain")])],
    )]);
    for _ in 0..50 {
        assert_eq!(t.roll(&"Weather".to_string()).unwrap(), "Sunny");
    }
}

#[test]
fn references_roll_the_other_table() {
    let t = tables(vec![
        table("A", vec![item(vec![text("x-"), link("B")])]),
        table("B", vec![item(vec![text("y")])]),
    ]);
    assert_eq!(t.roll(&"A".to_string()).unwrap(), "x-y");
}

#[test]
fn dice_are_rolled_in_place() {
    let t = tables(vec![table("Gold", vec![item(vec![text("Gold: "), dice("2d1")])])]);
    assert_eq!(t.roll(&"Gold".to_string()).unwrap(), "Gold: 1, 1");
}

#[test]
fn sub_tables_are_searched() {
    let inner = tables(vec![table("Inner", vec![item(vec![text("deep")])])]);
    let outer = Table::new(
        "Outer".to_string(),
        vec![item(vec![text("<"), link("Inner"), text(">")])],
        Some(inner),
    );
    let t = tables(vec![outer]);
    assert_eq!(t.roll(&"Outer".to_string()).unwrap(), "<deep>");
    assert_eq!(t.roll(&"Inner".to_string()).unwrap(), "deep");
}

#[test]
fn missing_table_is_not_found() {
    let t = tables(vec![table("A", vec![item(vec![text("a")])])]);
    match t.roll(&"Nope".to_string()) {
        Err(TableError::NotFound(name)) => assert_eq!(name, "Nope"),
        other => panic!("{:?}", other),
    }
}

#[test]
fn cyclic_references_stop_at_the_depth_limit() {
    let t = tables(vec![table("Loop", vec![item(vec![link("Loop")])])]);
    match t.roll(&"Loop".to_string()) {
        Err(TableError::MaxDepth(name)) => assert_eq!(name, "Loop"),
        other => panic!("{:?}", other),
    }
    assert_eq!(MAX_DEPTH, 400);
}

#[test]
fn duplicate_names_are_refused() {
    let r = Tables::from_tables(vec![
        table("A", vec![item(vec![text("a")])]),
        table("B", vec![item(vec![text("b")])]),
        table("A", vec![item(vec![text("c")])]),
    ]);
    match r {
        Err(TableError::DuplicateTable(name)) => assert_eq!(name, "A"),
        other => panic!("{:?}", other),
    }
}

#[test]
fn first_and_any_name() {
    let t = tables(vec![table("A", vec![item(vec![text("a")])]), table("B", vec![item(vec![text("b")])])]);
    assert_eq!(t.first_name().unwrap(), "A");
    for _ in 0..20 {
        let n = t.any_name().unwrap();
        assert!(n == "A" || n == "B");
    }
    let empty = Tables::empty();
    assert!(empty.first_name().is_none());
    assert!(empty.any_name().is_none());
}

#[test]
fn weight_errors() {
    let all_zero = tables(vec![table("Z", vec![item(vec![weight("0"), text("a")])])]);
    assert!(matches!(all_zero.roll(&"Z".to_string()), Err(TableError::Weights(WeightError::AllWeightsZero))));
    let negative = tables(vec![table("N", vec![item(vec![weight("-1"), text("a")]), item(vec![text("b")])])]);
    assert!(matches!(negative.roll(&"N".to_string()), Err(TableError::Weights(WeightError::InvalidWeight))));
    let none = tables(vec![table("E", vec![])]);
    assert!(matches!(none.roll(&"E".to_string()), Err(TableError::Weights(WeightError::NoItem))));
    let big = tables(vec![table(
        "Big",
        vec![item(vec![weight("2147483647"), text("a")]), item(vec![weight("1"), text("b")])],
    )]);
    assert!(matches!(big.roll(&"Big".to_string()), Err(TableError::WeightOverflow)));
}

#[test]
fn dice_errors_propagate() {
    let t = tables(vec![table("D", vec![item(vec![dice("1/0")])])]);
    assert!(matches!(t.roll(&"D".to_string()), Err(TableError::Dice(RollError::DivisionByZero))));
}

#[test]
fn line_items_from_pieces() {
    let it = item(vec![weight("3"), text("a"), weight("+5"), link("T"), dice("1d6")]);
    assert_eq!(it.weight, 5);
    assert_eq!(it.sections.len(), 3);
    let plain = item(vec![text("only")]);
    assert_eq!(plain.weight, 1);
    assert!(matches!(LineItem::from_pieces(&vec![weight("x1")]), Err(TableError::InvalidWeight(w)) if w == "x1"));
    assert!(matches!(LineItem::from_pieces(&vec![weight("99999999999")]), Err(TableError::InvalidWeight(_))));
    assert!(matches!(LineItem::from_pieces(&vec![dice("2d")]), Err(TableError::InvalidDice(d)) if d == "2d"));
}

fn spec(name: &str, lines: Vec<Vec<LinePiece>>, subs: Vec<osr_helper::table::TableSpec>) -> osr_helper::table::TableSpec {
    osr_helper::table::TableSpec { name: name.to_string(), lines, sub_tables: subs }
}

#[test]
fn build_checks_every_level() {
    let ok = Tables::build(&vec![spec(
        "Outer",
        vec![vec![text("<"), link("Inner"), text(">")]],
        vec![spec("Inner", vec![vec![text("deep")]], vec![]), spec("Other", vec![vec![text("o")]], vec![])],
    )])
    .unwrap();
    assert_eq!(ok.first_name().unwrap(), "Outer");
    assert_eq!(ok.tables[0].sub_tables.first_name().unwrap(), "Inner");
    assert_eq!(ok.roll(&"Outer".to_string()).unwrap(), "<deep>");

    let nested_duplicate = Tables::build(&vec![spec(
        "Outer",
        vec![vec![text("x")]],
        vec![spec("Inner", vec![vec![text("a")]], vec![]), spec("Inner", vec![vec![text("b")]], vec![])],
    )]);
    assert!(matches!(nested_duplicate, Err(TableError::DuplicateTable(n)) if n == "Inner"));

    // a table's lines are read before its nested tables, and both before its name is checked
    let bad_line = Tables::build(&vec![
        spec("A", vec![vec![text("a")]], vec![]),
        spec("A", vec![vec![weight("w")]], vec![]),
    ]);
    assert!(matches!(bad_line, Err(TableError::InvalidWeight(w)) if w == "w"));
    let bad_nested = Tables::build(&vec![
        spec("A", vec![vec![text("a")]], vec![]),
        spec("A", vec![], vec![spec("S", vec![vec![dice("2d")]], vec![])]),
    ]);
    assert!(matches!(bad_nested, Err(TableError::InvalidDice(d)) if d == "2d"));
}

#[test]
fn errors_come_before_later_oversized_literals() {
    // a bad weight stops reading the line before the oversized dice are reached
    let line = vec![weight("x"), dice("99999999999d6")];
    assert!(matches!(LineItem::from_pieces(&line), Err(TableError::InvalidWeight(w)) if w == "x"));
    let bad_dice_first = vec![dice("2d"), dice("99999999999d6")];
    assert!(matches!(LineItem::from_pieces(&bad_dice_first), Err(TableError::InvalidDice(d)) if d == "2d"));

    // a duplicate table stops building before the next table's dice are reached
    let dup_first = vec![
        spec("A", vec![vec![text("a")]], vec![]),
        spec("A", vec![vec![text("b")]], vec![]),
        spec("B", vec![vec![dice("99999999999d6")]], vec![]),
    ];
    assert!(matches!(Tables::build(&dup_first), Err(TableError::DuplicateTable(n)) if n == "A"));
    assert!(matches!(Tables::build_checked(&dup_first), Some(Err(TableError::DuplicateTable(n))) if n == "A"));

    // building that reaches the oversized literal is refused
    let reached = vec![
        spec("A", vec![vec![text("a")]], vec![]),
        spec("B", vec![vec![weight("2"), dice("1d99999999999")]], vec![]),
    ];
    assert!(Tables::build_checked(&reached).is_none());
    let nested = vec![spec("A", vec![], vec![spec("S", vec![vec![dice("99999999999")]], vec![])])];
    assert!(Tables::build_checked(&nested).is_none());
    let fine = vec![spec("A", vec![vec![dice("2d6")]], vec![])];
    assert!(matches!(Tables::build_checked(&fine), Some(Ok(t)) if t.first_name().unwrap() == "A"));
}
