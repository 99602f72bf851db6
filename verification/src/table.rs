//! Random tables: named lists of weighted line items whose text may hold dice to roll and
//! references to other tables, with sub-tables nested under a table.

use vstd::prelude::*;
use crate::dice::Dice;
use crate::parser::{dice_grammar, parse_i32, parse_i32_text, DiceParser, ParseOutcome};
use crate::roll::{RollError, RollView, rolled_from_draws, roll_text, result_view};
use crate::random::{choose_weighted_item, choose_table};

verus! {

/// How deep references may nest before rolling gives up.
pub const MAX_DEPTH: usize = 400;

/// Why a weighted choice among line items failed.
#[derive(Debug, Clone, Copy, PartialEq, Eq, Structural)]
pub enum WeightError {
    /// The table has no line items.
    NoItem,
    /// A weight is negative.
    InvalidWeight,
    /// Every weight is zero.
    AllWeightsZero,
    /// There are more items than can be weighed.
    TooMany,
}

/// A piece of a line item's text.
#[derive(Debug)]
pub enum LineItemSection {
    /// Text copied as it is.
    Text(String),
    /// Dice whose roll is written in place.
    Dice(Dice),
    /// The name of a table rolled in place.
    Reference(String),
}

/// One line of a table, chosen with a probability proportional to its weight.
#[derive(Debug)]
pub struct LineItem {
    pub weight: i32,
    pub sections: Vec<LineItemSection>,
}

/// A named table with its line items and the tables nested under it.
#[derive(Debug)]
pub struct Table {
    pub name: String,
    pub line_items: Vec<LineItem>,
    pub sub_tables: Tables,
}

/// A collection of tables, looked up by name, in the order they were given.
#[derive(Debug)]
pub struct Tables {
    pub tables: Vec<Table>,
    pub first_table: Option<String>,
}

/// Why a table could not be built or rolled.
#[derive(Debug)]
pub enum TableError {
    /// References nested `MAX_DEPTH` deep, looking for the named table.
    MaxDepth(String),
    /// No table of that name could be found.
    NotFound(String),
    /// Two tables of one collection have the same name.
    DuplicateTable(String),
    /// The weights of the chosen table allow no choice.
    Weights(WeightError),
    /// The weights of the chosen table add up past `i32::MAX`.
    WeightOverflow,
    /// Rolling dice in a line item failed.
    Dice(RollError),
    /// A weight's text is not an `i32`.
    InvalidWeight(String),
    /// A dice expression's text is not a dice expression.
    InvalidDice(String),
}

/// What a `TableError` says.
pub enum TableFailure {
    MaxDepth(Seq<char>),
    NotFound(Seq<char>),
    DuplicateTable(Seq<char>),
    Weights(WeightError),
    WeightOverflow,
    Dice(RollError),
    InvalidWeight(Seq<char>),
    InvalidDice(Seq<char>),
}

impl View for TableError {
    type V = TableFailure;

    open spec fn view(&self) -> TableFailure {
        match self {
            TableError::MaxDepth(s) => TableFailure::MaxDepth(s@),
            TableError::NotFound(s) => TableFailure::NotFound(s@),
            TableError::DuplicateTable(s) => TableFailure::DuplicateTable(s@),
            TableError::Weights(w) => TableFailure::Weights(*w),
            TableError::WeightOverflow => TableFailure::WeightOverflow,
            TableError::Dice(e) => TableFailure::Dice(*e),
            TableError::InvalidWeight(s) => TableFailure::InvalidWeight(s@),
            TableError::InvalidDice(s) => TableFailure::InvalidDice(s@),
        }
    }
}

/// The view of a rolled text or its error.
pub open spec fn text_result(r: Result<String, TableError>) -> Result<Seq<char>, TableFailure> {
    match r {
        Ok(s) => Ok(s@),
        Err(e) => Err(e@),
    }
}

// ---------------------------------------------------------------------------
// Weights

/// The weights of the line items, in order.
pub open spec fn item_weights(items: Seq<LineItem>) -> Seq<i32> {
    items.map_values(|it: LineItem| it.weight)
}

/// The sum of the weights as a mathematical integer.
pub open spec fn weight_sum(ws: Seq<i32>) -> int
    decreases ws.len(),
{
    if ws.len() == 0 { 0 } else { weight_sum(ws.drop_last()) + ws.last() }
}

/// Adding up the weights from the first on, before any negative one, passes `i32::MAX`.
pub open spec fn weights_overflow(ws: Seq<i32>) -> bool {
    exists|j: int| 0 <= j < ws.len()
        && (forall|i: int| 0 <= i <= j ==> ws[i] >= 0)
        && #[trigger] weight_sum(ws.take(j + 1)) > i32::MAX
}

/// Why weights that do not overflow allow no weighted choice, if they do not.
pub open spec fn weighted_error(ws: Seq<i32>) -> Option<WeightError> {
    if ws.len() == 0 {
        Some(WeightError::NoItem)
    } else if exists|i: int| 0 <= i < ws.len() && ws[i] < 0 {
        Some(WeightError::InvalidWeight)
    } else if forall|i: int| 0 <= i < ws.len() ==> ws[i] == 0 {
        Some(WeightError::AllWeightsZero)
    } else {
        None
    }
}

/// Why the line items of a table allow no weighted choice, if they do not.
pub open spec fn choice_error(items: Seq<LineItem>) -> Option<TableFailure> {
    if weights_overflow(item_weights(items)) {
        Some(TableFailure::WeightOverflow)
    } else {
        match weighted_error(item_weights(items)) {
            Some(w) => Some(TableFailure::Weights(w)),
            None => None,
        }
    }
}

// ---------------------------------------------------------------------------
// What rolling may give

/// The position of the first table named `name`.
pub open spec fn find_table(tables: Seq<Table>, name: Seq<char>) -> Option<int> {
    find_table_from(tables, name, 0)
}

pub open spec fn find_table_from(tables: Seq<Table>, name: Seq<char>, k: int) -> Option<int>
    decreases tables.len() - k,
{
    if k < 0 || k >= tables.len() {
        None
    } else if tables[k].name@ == name {
        Some(k)
    } else {
        find_table_from(tables, name, k + 1)
    }
}

/// Rolling the table `name` in `tables`, with references resolved against `root`, at the
/// given depth of references, may give `r`.
///
/// Where `tables` holds the name, one of its line items of positive weight is chosen and its
/// sections are written out in order. Where it does not, the sub-tables of each of its tables
/// are searched in order, one level deeper, and the first success is the result; after them,
/// where `check_global` holds, `root` is searched one level deeper. Each level adds one to the
/// depth, and at `MAX_DEPTH` rolling stops.
pub open spec fn possible_roll(
    root: Tables,
    tables: Tables,
    name: Seq<char>,
    check_global: bool,
    depth: int,
    r: Result<Seq<char>, TableFailure>,
) -> bool
    decreases MAX_DEPTH - depth, 3int, 0int,
{
    if depth < 0 || depth >= MAX_DEPTH {
        r == Err::<Seq<char>, TableFailure>(TableFailure::MaxDepth(name))
    } else {
        match find_table(tables.tables@, name) {
            Some(i) => {
                let t = tables.tables@[i];
                match choice_error(t.line_items@) {
                    Some(err) => r == Err::<Seq<char>, TableFailure>(err),
                    None => exists|j: int| 0 <= j < t.line_items@.len()
                        && #[trigger] t.line_items@[j].weight > 0
                        && possible_sections(root, t, t.line_items@[j].sections@, 0, depth, Seq::empty(), r),
                }
            },
            None => possible_fallback(root, tables, 0, name, check_global, depth, r),
        }
    }
}

/// Writing out `sections` from the `j`-th on, after the text `acc`, may give `r`.
pub open spec fn possible_sections(
    root: Tables,
    table: Table,
    sections: Seq<LineItemSection>,
    j: int,
    depth: int,
    acc: Seq<char>,
    r: Result<Seq<char>, TableFailure>,
) -> bool
    decreases MAX_DEPTH - depth, 2int, sections.len() - j,
{
    if j < 0 || j >= sections.len() || depth < 0 || depth >= MAX_DEPTH {
        r == Ok::<Seq<char>, TableFailure>(acc)
    } else {
        match sections[j] {
            LineItemSection::Text(t) => possible_sections(root, table, sections, j + 1, depth, acc + t@, r),
            LineItemSection::Dice(d) => exists|dr: Result<RollView, RollError>| #[trigger] rolled_from_draws(d.expr, dr)
                && match dr {
                    Ok(v) => possible_sections(root, table, sections, j + 1, depth, acc + roll_text(v.values), r),
                    Err(e) => r == Err::<Seq<char>, TableFailure>(TableFailure::Dice(e)),
                },
            LineItemSection::Reference(name) => {
                let local = table.sub_tables.tables@.len() > 0;
                let scope = if local { table.sub_tables } else { root };
                ||| r is Err && possible_roll(root, scope, name@, local, depth + 1, r)
                ||| exists|text: String|
                    possible_roll(root, scope, name@, local, depth + 1, Ok::<Seq<char>, TableFailure>(#[trigger] text@))
                    && possible_sections(root, table, sections, j + 1, depth, acc + text@, r)
            },
        }
    }
}

/// Searching the sub-tables of `tables`, from its `k`-th table on, may give `r`.
pub open spec fn possible_fallback(
    root: Tables,
    tables: Tables,
    k: int,
    name: Seq<char>,
    check_global: bool,
    depth: int,
    r: Result<Seq<char>, TableFailure>,
) -> bool
    decreases MAX_DEPTH - depth, 1int, tables.tables@.len() - k,
{
    if depth < 0 || depth >= MAX_DEPTH {
        r == Err::<Seq<char>, TableFailure>(TableFailure::MaxDepth(name))
    } else if k < 0 || k >= tables.tables@.len() {
        if check_global {
            possible_roll(root, root, name, false, depth + 1, r)
        } else {
            r == Err::<Seq<char>, TableFailure>(TableFailure::NotFound(name))
        }
    } else {
        let t = tables.tables@[k];
        if t.sub_tables.tables@.len() == 0 {
            possible_fallback(root, tables, k + 1, name, check_global, depth, r)
        } else {
            ||| r is Ok && possible_roll(root, t.sub_tables, name, false, depth + 1, r)
            ||| exists|e: TableError|
                possible_roll(root, t.sub_tables, name, false, depth + 1, Err::<Seq<char>, TableFailure>(#[trigger] e@))
                && possible_fallback(root, tables, k + 1, name, check_global, depth, r)
        }
    }
}


// ---------------------------------------------------------------------------
// Rolling

/// Whether adding up the weights, from the first on and before any negative one, passes `i32::MAX`.
fn weights_overflow_exec(items: &Vec<LineItem>) -> (b: bool)
    ensures
        b == weights_overflow(item_weights(items@)),
{
    let ghost ws = item_weights(items@);
    let mut sum: i64 = 0;
    let mut k: usize = 0;
    while k < items.len()
        invariant
            k <= items.len(),
            ws == item_weights(items@),
            ws.len() == items@.len(),
            forall|i: int| 0 <= i < k ==> ws[i] >= 0,
            sum == weight_sum(ws.take(k as int)),
            sum <= i32::MAX,
            forall|j: int| 0 <= j < k ==> #[trigger] weight_sum(ws.take(j + 1)) <= i32::MAX,
        decreases items.len() - k,
    {
        let w = items[k].weight;
        assert(ws[k as int] == w);
        if w < 0 {
            assert forall|j: int| 0 <= j < ws.len() && (forall|i: int| 0 <= i <= j ==> ws[i] >= 0)
                implies #[trigger] weight_sum(ws.take(j + 1)) <= i32::MAX by {
                if j >= k {
                    assert(ws[k as int] >= 0);
                }
            }
            return false;
        }
        assert(ws.take(k + 1).drop_last() =~= ws.take(k as int));
        sum = sum + w as i64;
        if sum > i32::MAX as i64 {
            assert(weight_sum(ws.take(k + 1)) > i32::MAX);
            return true;
        }
        k = k + 1;
    }
    false
}

impl Tables {
    /// The position of the first table named `name`.
    fn find(&self, name: &String) -> (r: Option<usize>)
        ensures
            r matches Some(i) ==> find_table(self.tables@, name@) == Some(i as int) && i < self.tables@.len(),
            r is None ==> find_table(self.tables@, name@) is None,
    {
        let mut k: usize = 0;
        while k < self.tables.len()
            invariant
                k <= self.tables@.len(),
                find_table(self.tables@, name@) == find_table_from(self.tables@, name@, k as int),
            decreases self.tables.len() - k,
        {
            if self.tables[k].name == *name {
                return Some(k);
            }
            k = k + 1;
        }
        None
    }

    /// Rolls the table `table_name`, searching `self` and then the tables nested in it (see
    /// `possible_roll`). Each line item is chosen with a probability proportional to its weight,
    /// and each die with the thread's random number generator.
    pub fn roll(&self, table_name: &String) -> (r: Result<String, TableError>)
        ensures
            possible_roll(*self, *self, table_name@, true, 0, text_result(r)),
    {
        self.roll_rec(self, table_name, true, 0)
    }

    fn roll_rec(&self, tables: &Tables, table_name: &String, check_global: bool, depth: usize) -> (r: Result<String, TableError>)
        requires
            depth <= MAX_DEPTH,
        ensures
            possible_roll(*self, *tables, table_name@, check_global, depth as int, text_result(r)),
        decreases MAX_DEPTH - depth, 2int,
    {
        if depth == MAX_DEPTH {
            return Err(TableError::MaxDepth(table_name.clone()));
        }
        match tables.find(table_name) {
            Some(i) => {
                let table = &tables.tables[i];
                if weights_overflow_exec(&table.line_items) {
                    return Err(TableError::WeightOverflow);
                }
                match choose_weighted_item(&table.line_items) {
                    Ok(item) => {
                        let r = self.roll_sections(table, &item.sections, depth);
                        proof {
                            let j = choose|j: int| 0 <= j < table.line_items@.len() && #[trigger] table.line_items@[j] == *item
                                && table.line_items@[j].weight > 0;
                            assert(possible_sections(*self, *table, table.line_items@[j].sections@, 0, depth as int, Seq::empty(), text_result(r)));
                        }
                        r
                    },
                    Err(w) => {
                        assert(choice_error(table.line_items@) == Some(TableFailure::Weights(w)));
                        Err(TableError::Weights(w))
                    },
                }
            },
            None => self.roll_fallback(tables, table_name, check_global, depth),
        }
    }

    fn roll_sections(&self, table: &Table, sections: &Vec<LineItemSection>, depth: usize) -> (r: Result<String, TableError>)
        requires
            depth < MAX_DEPTH,
        ensures
            possible_sections(*self, *table, sections@, 0, depth as int, Seq::empty(), text_result(r)),
        decreases MAX_DEPTH - depth, 1int,
    {
        let mut output = String::new();
        let mut j: usize = 0;
        while j < sections.len()
            invariant
                j <= sections@.len(),
                depth < MAX_DEPTH,
                forall|res: Result<Seq<char>, TableFailure>|
                    #[trigger] possible_sections(*self, *table, sections@, j as int, depth as int, output@, res)
                    ==> possible_sections(*self, *table, sections@, 0, depth as int, Seq::empty(), res),
            decreases sections.len() - j,
        {
            let ghost acc = output@;
            match &sections[j] {
                LineItemSection::Text(text) => {
                    output.append(text.as_str());
                    proof {
                        assert forall|res: Result<Seq<char>, TableFailure>|
                            #[trigger] possible_sections(*self, *table, sections@, j + 1, depth as int, output@, res)
                            implies possible_sections(*self, *table, sections@, j as int, depth as int, acc, res) by {
                        }
                    }
                },
                LineItemSection::Dice(dice) => {
                    match dice.roll() {
                        Ok(roll) => {
                            let rendered = roll.render();
                            output.append(rendered.as_str());
                            proof {
                                let dr = result_view(Ok(roll));
                                assert forall|res: Result<Seq<char>, TableFailure>|
                                    #[trigger] possible_sections(*self, *table, sections@, j + 1, depth as int, output@, res)
                                    implies possible_sections(*self, *table, sections@, j as int, depth as int, acc, res) by {
                                    assert(rolled_from_draws(dice.expr, dr));
                                }
                            }
                        },
                        Err(e) => {
                            proof {
                                let dr = result_view(Err(e));
                                assert(rolled_from_draws(dice.expr, dr));
                                assert(possible_sections(*self, *table, sections@, j as int, depth as int, acc,
                                    Err(TableFailure::Dice(e))));
                            }
                            return Err(TableError::Dice(e));
                        },
                    }
                },
                LineItemSection::Reference(name) => {
                    let local = table.sub_tables.tables.len() > 0;
                    let r1 = if local {
                        self.roll_rec(&table.sub_tables, name, true, depth + 1)
                    } else {
                        self.roll_rec(self, name, false, depth + 1)
                    };
                    let ghost scope = if local { table.sub_tables } else { *self };
                    match r1 {
                        Ok(text) => {
                            output.append(text.as_str());
                            proof {
                                assert forall|res: Result<Seq<char>, TableFailure>|
                                    #[trigger] possible_sections(*self, *table, sections@, j + 1, depth as int, output@, res)
                                    implies possible_sections(*self, *table, sections@, j as int, depth as int, acc, res) by {
                                    assert(possible_roll(*self, scope, name@, local, depth + 1, text_result(Ok(text))));
                                }
                            }
                        },
                        Err(e) => {
                            proof {
                                assert(possible_roll(*self, scope, name@, local, depth + 1, text_result(Err(e))));
                                assert(possible_sections(*self, *table, sections@, j as int, depth as int, acc, Err(e@)));
                            }
                            return Err(e);
                        },
                    }
                },
            }
            j = j + 1;
        }
        assert(possible_sections(*self, *table, sections@, j as int, depth as int, output@, Ok(output@)));
        Ok(output)
    }

    fn roll_fallback(&self, tables: &Tables, table_name: &String, check_global: bool, depth: usize) -> (r: Result<String, TableError>)
        requires
            depth < MAX_DEPTH,
        ensures
            possible_fallback(*self, *tables, 0, table_name@, check_global, depth as int, text_result(r)),
        decreases MAX_DEPTH - depth, 1int,
    {
        let mut k: usize = 0;
        while k < tables.tables.len()
            invariant
                k <= tables.tables@.len(),
                depth < MAX_DEPTH,
                forall|res: Result<Seq<char>, TableFailure>|
                    #[trigger] possible_fallback(*self, *tables, k as int, table_name@, check_global, depth as int, res)
                    ==> possible_fallback(*self, *tables, 0, table_name@, check_global, depth as int, res),
            decreases tables.tables.len() - k,
        {
            let table = &tables.tables[k];
            if table.sub_tables.tables.len() == 0 {
                assert forall|res: Result<Seq<char>, TableFailure>|
                    #[trigger] possible_fallback(*self, *tables, k + 1, table_name@, check_global, depth as int, res)
                    implies possible_fallback(*self, *tables, k as int, table_name@, check_global, depth as int, res) by {
                }
            } else {
                let r1 = self.roll_rec(&table.sub_tables, table_name, false, depth + 1);
                match r1 {
                    Ok(text) => {
                        proof {
                            assert(possible_roll(*self, table.sub_tables, table_name@, false, depth + 1, text_result(Ok(text))));
                            assert(possible_fallback(*self, *tables, k as int, table_name@, check_global, depth as int, Ok(text@)));
                        }
                        return Ok(text);
                    },
                    Err(e) => {
                        proof {
                            assert forall|res: Result<Seq<char>, TableFailure>|
                                #[trigger] possible_fallback(*self, *tables, k + 1, table_name@, check_global, depth as int, res)
                                implies possible_fallback(*self, *tables, k as int, table_name@, check_global, depth as int, res) by {
                                assert(possible_roll(*self, table.sub_tables, table_name@, false, depth + 1, text_result(Err(e))));
                            }
                        }
                    },
                }
            }
            k = k + 1;
        }
        let r = if check_global {
            self.roll_rec(self, table_name, false, depth + 1)
        } else {
            Err(TableError::NotFound(table_name.clone()))
        };
        assert(possible_fallback(*self, *tables, k as int, table_name@, check_global, depth as int, text_result(r)));
        r
    }

    /// The name of the first table given.
    pub fn first_name(&self) -> (r: Option<&String>)
        ensures
            match self.first_table {
                Some(n) => r == Some(&n),
                None => r is None,
            },
    {
        match &self.first_table {
            Some(n) => Some(n),
            None => None,
        }
    }

    /// The name of one of the tables, chosen at random; `None` when there are none.
    pub fn any_name(&self) -> (r: Option<&String>)
        ensures
            r is None <==> self.tables@.len() == 0,
            r matches Some(n) ==> exists|i: int| 0 <= i < self.tables@.len() && #[trigger] self.tables@[i].name == *n,
    {
        match choose_table(&self.tables) {
            Some(t) => Some(&t.name),
            None => None,
        }
    }
}


// ---------------------------------------------------------------------------
// Building tables

/// A piece of a line of a table, as the table format marks it out.
#[derive(Debug)]
pub enum LinePiece {
    /// The text of the line's weight.
    Weight(String),
    /// Plain text.
    Text(String),
    /// The text of a dice expression.
    Dice(String),
    /// The name of a table referred to.
    Link(String),
}

/// What is wrong with a piece, if anything: a weight that is not an `i32`, or dice that are
/// not a dice expression.
pub open spec fn piece_failure(p: LinePiece) -> Option<TableFailure> {
    match p {
        LinePiece::Weight(w) => if parse_i32(w@) is None { Some(TableFailure::InvalidWeight(w@)) } else { None },
        LinePiece::Dice(d) => if dice_grammar(d@) is None { Some(TableFailure::InvalidDice(d@)) } else { None },
        _ => None,
    }
}

/// The first thing wrong with the pieces from the `k`-th on.
pub open spec fn first_failure(pieces: Seq<LinePiece>, k: int) -> Option<TableFailure>
    decreases pieces.len() - k,
{
    if k < 0 || k >= pieces.len() {
        None
    } else {
        match piece_failure(pieces[k]) {
            Some(f) => Some(f),
            None => first_failure(pieces, k + 1),
        }
    }
}

/// The weight that the first `k` pieces give: that of the last weight piece, or 1.
pub open spec fn weight_upto(pieces: Seq<LinePiece>, k: int) -> i32
    decreases k,
{
    if k <= 0 {
        1
    } else {
        match pieces[k - 1] {
            LinePiece::Weight(w) => match parse_i32(w@) {
                Some(v) => v,
                None => 1,
            },
            _ => weight_upto(pieces, k - 1),
        }
    }
}

/// The pieces among the first `k` that are not weights, in order.
pub open spec fn content_upto(pieces: Seq<LinePiece>, k: int) -> Seq<LinePiece>
    decreases k,
{
    if k <= 0 {
        Seq::empty()
    } else if pieces[k - 1] is Weight {
        content_upto(pieces, k - 1)
    } else {
        content_upto(pieces, k - 1).push(pieces[k - 1])
    }
}

/// The section is the one that the piece describes.
pub open spec fn section_matches(section: LineItemSection, p: LinePiece) -> bool {
    match (section, p) {
        (LineItemSection::Text(t), LinePiece::Text(s)) => t@ == s@,
        (LineItemSection::Dice(d), LinePiece::Dice(s)) => d.literal@ == s@ && dice_grammar(s@) == Some(d.expr@),
        (LineItemSection::Reference(r), LinePiece::Link(s)) => r@ == s@,
        _ => false,
    }
}

/// The dice of a piece, if it holds any, have no literal above `i32::MAX`.
pub open spec fn dice_literals_fit(p: LinePiece) -> bool {
    p matches LinePiece::Dice(d) ==> (dice_grammar(d@) matches Some(t) ==> t.fits())
}

/// Reading the pieces from the `k`-th on, up to and including the first that fails, reaches
/// no dice with a literal above `i32::MAX`.
pub open spec fn fits_until_failure(pieces: Seq<LinePiece>, k: int) -> bool
    decreases pieces.len() - k,
{
    if k < 0 || k >= pieces.len() {
        true
    } else {
        dice_literals_fit(pieces[k]) && (piece_failure(pieces[k]) is Some || fits_until_failure(pieces, k + 1))
    }
}

/// `item` is the line item that the pieces describe: the weight of the last weight piece (1 if
/// none), and a section for each other piece, in order.
pub open spec fn item_from(pieces: Seq<LinePiece>, item: LineItem) -> bool {
    &&& item.weight == weight_upto(pieces, pieces.len() as int)
    &&& item.sections@.len() == content_upto(pieces, pieces.len() as int).len()
    &&& forall|i: int| 0 <= i < item.sections@.len()
        ==> section_matches(#[trigger] item.sections@[i], content_upto(pieces, pieces.len() as int)[i])
}

impl LineItem {
    /// The line item that the pieces of a line describe: the last weight given (1 if none),
    /// and a section for each other piece, in order. Fails at the first weight that is not an
    /// `i32` or the first dice that are not a dice expression.
    pub fn from_pieces(pieces: &Vec<LinePiece>) -> (r: Result<LineItem, TableError>)
        requires
            fits_until_failure(pieces@, 0),
        ensures
            match first_failure(pieces@, 0) {
                Some(f) => r matches Err(e) && e@ == f,
                None => r matches Ok(item) && item_from(pieces@, item),
            },
    {
        match line_item_checked(pieces) {
            Some(r) => r,
            None => {
                proof { assert(false); }
                Err(TableError::WeightOverflow)
            },
        }
    }
}

/// The line item of the pieces, as `LineItem::from_pieces` gives it; `None` where reading them
/// reaches dice with a literal above `i32::MAX` first.
fn line_item_checked(pieces: &Vec<LinePiece>) -> (r: Option<Result<LineItem, TableError>>)
    ensures
        r is None <==> !fits_until_failure(pieces@, 0),
        r matches Some(res) ==> match first_failure(pieces@, 0) {
            Some(f) => res matches Err(e) && e@ == f,
            None => res matches Ok(item) && item_from(pieces@, item),
        },
{
    let mut weight: i32 = 1;
    let mut sections: Vec<LineItemSection> = Vec::new();
    let mut k: usize = 0;
    while k < pieces.len()
        invariant
            k <= pieces@.len(),
            fits_until_failure(pieces@, 0) == fits_until_failure(pieces@, k as int),
            first_failure(pieces@, 0) == first_failure(pieces@, k as int),
            weight == weight_upto(pieces@, k as int),
            sections@.len() == content_upto(pieces@, k as int).len(),
            forall|i: int| 0 <= i < sections@.len()
                ==> section_matches(#[trigger] sections@[i], content_upto(pieces@, k as int)[i]),
        decreases pieces.len() - k,
    {
        let ghost before = sections@;
        match &pieces[k] {
            LinePiece::Weight(w) => {
                match parse_i32_text(w.as_str()) {
                    Some(v) => { weight = v; },
                    None => { return Some(Err(TableError::InvalidWeight(w.clone()))); },
                }
            },
            LinePiece::Text(t) => {
                sections.push(LineItemSection::Text(t.clone()));
            },
            LinePiece::Dice(d) => {
                match DiceParser::parse_expression(d.as_str()) {
                    ParseOutcome::Parsed(expr) => {
                        sections.push(LineItemSection::Dice(Dice { literal: d.clone(), expr }));
                    },
                    ParseOutcome::Invalid => { return Some(Err(TableError::InvalidDice(d.clone()))); },
                    ParseOutcome::LiteralTooLarge => { return None; },
                }
            },
            LinePiece::Link(l) => {
                sections.push(LineItemSection::Reference(l.clone()));
            },
        }
        assert forall|i: int| 0 <= i < sections@.len()
            implies section_matches(#[trigger] sections@[i], content_upto(pieces@, k + 1)[i]) by {
            if i < before.len() {
                assert(sections@[i] == before[i]);
            }
        }
        k = k + 1;
    }
    Some(Ok(LineItem { weight, sections }))
}

impl Table {
    /// A table with its line items and the tables nested under it (none where `None`).
    pub fn new(name: String, line_items: Vec<LineItem>, sub_tables: Option<Tables>) -> (t: Table)
        ensures
            t.name == name,
            t.line_items == line_items,
            match sub_tables {
                Some(s) => t.sub_tables == s,
                None => t.sub_tables.tables@.len() == 0 && t.sub_tables.first_table is None,
            },
    {
        let sub_tables = match sub_tables {
            Some(s) => s,
            None => Tables::empty(),
        };
        Table { name, line_items, sub_tables }
    }
}

/// The `k`-th table has the name of an earlier one.
pub open spec fn repeats_name(tables: Seq<Table>, k: int) -> bool {
    exists|i: int| 0 <= i < k && #[trigger] tables[i].name@ == tables[k].name@
}

/// The position of the first table, from the `k`-th on, that has the name of an earlier one.
pub open spec fn first_repeat_from(tables: Seq<Table>, k: int) -> Option<int>
    decreases tables.len() - k,
{
    if k < 0 || k >= tables.len() {
        None
    } else if repeats_name(tables, k) {
        Some(k)
    } else {
        first_repeat_from(tables, k + 1)
    }
}

/// No two of the tables have the same name.
pub open spec fn names_distinct(tables: Seq<Table>) -> bool {
    forall|i: int, j: int| 0 <= i < j < tables.len() ==> #[trigger] tables[i].name@ != #[trigger] tables[j].name@
}

impl Tables {
    /// No tables.
    pub fn empty() -> (t: Tables)
        ensures
            t.tables@.len() == 0,
            t.first_table is None,
            names_distinct(t.tables@),
    {
        Tables { tables: Vec::new(), first_table: None }
    }

    /// The tables in the order given, the first one's name remembered; fails at the first
    /// table that has the name of an earlier one.
    pub fn from_tables(tables: Vec<Table>) -> (r: Result<Tables, TableError>)
        ensures
            match first_repeat_from(tables@, 0) {
                Some(k) => r matches Err(e) && e@ == TableFailure::DuplicateTable(tables@[k].name@),
                None => r matches Ok(t) && t.tables@ == tables@ && names_distinct(t.tables@)
                    && if tables@.len() == 0 {
                        t.first_table is None
                    } else {
                        t.first_table matches Some(n) && n@ == tables@[0].name@
                    },
            },
    {
        let mut k: usize = 0;
        while k < tables.len()
            invariant
                k <= tables@.len(),
                first_repeat_from(tables@, 0) == first_repeat_from(tables@, k as int),
                forall|a: int, b: int| 0 <= a < b < k ==> #[trigger] tables@[a].name@ != #[trigger] tables@[b].name@,
            decreases tables.len() - k,
        {
            let mut i: usize = 0;
            while i < k
                invariant
                    i <= k < tables@.len(),
                    first_repeat_from(tables@, 0) == first_repeat_from(tables@, k as int),
                    forall|a: int, b: int| 0 <= a < b < k ==> #[trigger] tables@[a].name@ != #[trigger] tables@[b].name@,
                    forall|j: int| 0 <= j < i ==> tables@[j].name@ != tables@[k as int].name@,
                decreases k - i,
            {
                if tables[i].name == tables[k].name {
                    assert(tables@[i as int].name@ == tables@[k as int].name@);
                    assert(repeats_name(tables@, k as int));
                    assert(first_repeat_from(tables@, k as int) == Some(k as int));
                    return Err(TableError::DuplicateTable(tables[k].name.clone()));
                }
                i = i + 1;
            }
            assert(!repeats_name(tables@, k as int));
            k = k + 1;
        }
        let first_table = if tables.len() > 0 { Some(tables[0].name.clone()) } else { None };
        assert(first_repeat_from(tables@, k as int) is None);
        Ok(Tables { tables, first_table })
    }
}


// ---------------------------------------------------------------------------
// Building nested tables

/// A table as a table file describes it: its name, the pieces of each of its lines, and the
/// tables nested under it.
#[derive(Debug)]
pub struct TableSpec {
    pub name: String,
    pub lines: Vec<Vec<LinePiece>>,
    pub sub_tables: Vec<TableSpec>,
}

/// The first thing wrong with the lines from the `j`-th on.
pub open spec fn lines_failure(lines: Seq<Vec<LinePiece>>, j: int) -> Option<TableFailure>
    decreases lines.len() - j,
{
    if j < 0 || j >= lines.len() {
        None
    } else {
        match first_failure(lines[j]@, 0) {
            Some(f) => Some(f),
            None => lines_failure(lines, j + 1),
        }
    }
}

/// The `k`-th table has the name of an earlier one of its level.
pub open spec fn spec_repeats_name(specs: Seq<TableSpec>, k: int) -> bool {
    exists|i: int| 0 <= i < k && #[trigger] specs[i].name@ == specs[k].name@
}

/// The first thing wrong with the tables of a level from the `k`-th on, taken table by table:
/// its lines, then the tables nested under it, then whether an earlier table of the level has
/// its name.
pub open spec fn level_failure(specs: Seq<TableSpec>, k: int) -> Option<TableFailure>
    decreases specs, specs.len() - k,
{
    if k < 0 || k >= specs.len() {
        None
    } else {
        match lines_failure(specs[k].lines@, 0) {
            Some(f) => Some(f),
            None => {
                proof { assert(decreases_to!(specs => specs[k].sub_tables@)); }
                match level_failure(specs[k].sub_tables@, 0) {
                    Some(f) => Some(f),
                    None => if spec_repeats_name(specs, k) {
                        Some(TableFailure::DuplicateTable(specs[k].name@))
                    } else {
                        level_failure(specs, k + 1)
                    },
                }
            },
        }
    }
}

/// Reading the lines from the `j`-th on, up to and including the first that fails, reaches no
/// dice with a literal above `i32::MAX`.
pub open spec fn lines_fit_until_failure(lines: Seq<Vec<LinePiece>>, j: int) -> bool
    decreases lines.len() - j,
{
    if j < 0 || j >= lines.len() {
        true
    } else {
        fits_until_failure(lines[j]@, 0)
            && (first_failure(lines[j]@, 0) is Some || lines_fit_until_failure(lines, j + 1))
    }
}

/// Building the tables of a level from the `k`-th on, in the order of `level_failure`, reaches
/// no dice with a literal above `i32::MAX` before it stops.
pub open spec fn level_fits_until_failure(specs: Seq<TableSpec>, k: int) -> bool
    decreases specs, specs.len() - k,
{
    if k < 0 || k >= specs.len() {
        true
    } else {
        &&& lines_fit_until_failure(specs[k].lines@, 0)
        &&& lines_failure(specs[k].lines@, 0) is Some || {
            proof { assert(decreases_to!(specs => specs[k].sub_tables@)); }
            &&& level_fits_until_failure(specs[k].sub_tables@, 0)
            &&& level_failure(specs[k].sub_tables@, 0) is Some || spec_repeats_name(specs, k)
                || level_fits_until_failure(specs, k + 1)
        }
    }
}

/// `t` holds the tables that `specs` describe, at every level: in order, with the names,
/// the line items and the nested tables described, no two of a level alike, and the first
/// name of each level remembered.
pub open spec fn builds(t: Tables, specs: Seq<TableSpec>) -> bool
    decreases specs,
{
    &&& t.tables@.len() == specs.len()
    &&& names_distinct(t.tables@)
    &&& if specs.len() == 0 {
        t.first_table is None
    } else {
        t.first_table matches Some(n) && n@ == specs[0].name@
    }
    &&& forall|k: int| 0 <= k < specs.len() ==> {
        &&& #[trigger] t.tables@[k].name@ == specs[k].name@
        &&& t.tables@[k].line_items@.len() == specs[k].lines@.len()
        &&& forall|j: int| 0 <= j < specs[k].lines@.len()
            ==> item_from(specs[k].lines@[j]@, #[trigger] t.tables@[k].line_items@[j])
        &&& {
            proof { assert(decreases_to!(specs => specs[k].sub_tables@)); }
            builds(t.tables@[k].sub_tables, specs[k].sub_tables@)
        }
    }
}

impl Tables {
    /// Builds the tables that `specs` describe, level by level; fails at the first thing wrong
    /// (see `level_failure`).
    pub fn build(specs: &Vec<TableSpec>) -> (r: Result<Tables, TableError>)
        requires
            level_fits_until_failure(specs@, 0),
        ensures
            match level_failure(specs@, 0) {
                Some(f) => r matches Err(e) && e@ == f,
                None => r matches Ok(t) && builds(t, specs@),
            },
    {
        match Tables::build_checked(specs) {
            Some(r) => r,
            None => {
                proof { assert(false); }
                Ok(Tables::empty())
            },
        }
    }

    /// What `Tables::build` gives on `specs`; `None` where building them reaches dice with a
    /// literal above `i32::MAX` before it stops.
    #[verifier::loop_isolation(false)]
    pub fn build_checked(specs: &Vec<TableSpec>) -> (r: Option<Result<Tables, TableError>>)
        ensures
            r is None <==> !level_fits_until_failure(specs@, 0),
            r matches Some(res) ==> match level_failure(specs@, 0) {
                Some(f) => res matches Err(e) && e@ == f,
                None => res matches Ok(t) && builds(t, specs@),
            },
        decreases specs@,
    {
        let mut list: Vec<Table> = Vec::new();
        let mut k: usize = 0;
        while k < specs.len()
            invariant
                k <= specs@.len(),
                list@.len() == k,
                level_failure(specs@, 0) == level_failure(specs@, k as int),
                level_fits_until_failure(specs@, 0) == level_fits_until_failure(specs@, k as int),
                forall|a: int, b: int| 0 <= a < b < k ==> #[trigger] list@[a].name@ != #[trigger] list@[b].name@,
                forall|a: int| 0 <= a < k ==> {
                    &&& #[trigger] list@[a].name@ == specs@[a].name@
                    &&& list@[a].line_items@.len() == specs@[a].lines@.len()
                    &&& forall|j: int| 0 <= j < specs@[a].lines@.len()
                        ==> item_from(specs@[a].lines@[j]@, #[trigger] list@[a].line_items@[j])
                    &&& builds(list@[a].sub_tables, specs@[a].sub_tables@)
                },
            decreases specs.len() - k,
        {
            let spec = &specs[k];
            let mut items: Vec<LineItem> = Vec::new();
            let mut j: usize = 0;
            while j < spec.lines.len()
                invariant
                    j <= spec.lines@.len(),
                    k < specs@.len(),
                    *spec == specs@[k as int],
                    items@.len() == j,
                    lines_failure(spec.lines@, 0) == lines_failure(spec.lines@, j as int),
                    lines_fit_until_failure(spec.lines@, 0) == lines_fit_until_failure(spec.lines@, j as int),
                    forall|a: int| 0 <= a < j ==> item_from(spec.lines@[a]@, #[trigger] items@[a]),
                decreases spec.lines.len() - j,
            {
                match line_item_checked(&spec.lines[j]) {
                    Some(Ok(item)) => { items.push(item); },
                    Some(Err(e)) => { return Some(Err(e)); },
                    None => { return None; },
                }
                j = j + 1;
            }
            proof { assert(decreases_to!(specs@ => specs@[k as int].sub_tables@)); }
            let sub = match Tables::build_checked(&spec.sub_tables) {
                Some(Ok(t)) => t,
                Some(Err(e)) => { return Some(Err(e)); },
                None => { return None; },
            };
            let mut i: usize = 0;
            while i < k
                invariant
                    i <= k < specs@.len(),
                    list@.len() == k,
                    *spec == specs@[k as int],
                    forall|a: int| 0 <= a < k ==> #[trigger] list@[a].name@ == specs@[a].name@,
                    forall|a: int| 0 <= a < i ==> specs@[a].name@ != specs@[k as int].name@,
                decreases k - i,
            {
                if list[i].name == spec.name {
                    assert(spec_repeats_name(specs@, k as int));
                    return Some(Err(TableError::DuplicateTable(spec.name.clone())));
                }
                i = i + 1;
            }
            assert(!spec_repeats_name(specs@, k as int));
            list.push(Table { name: spec.name.clone(), line_items: items, sub_tables: sub });
            k = k + 1;
        }
        let first_table = if list.len() > 0 { Some(list[0].name.clone()) } else { None };
        Some(Ok(Tables { tables: list, first_table }))
    }
}

} // verus!
