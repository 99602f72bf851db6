//! Properties of rolling on tables that hold on every input.

use vstd::prelude::*;
use crate::table::{
    LineItemSection, MAX_DEPTH, Table, TableFailure, Tables, find_table, possible_fallback,
    possible_roll, possible_sections,
};

verus! {

/// None of the tables has nested tables of its own.
pub open spec fn flat(tables: Tables) -> bool {
    forall|k: int| 0 <= k < tables.tables@.len() ==> (#[trigger] tables.tables@[k]).sub_tables.tables@.len() == 0
}

/// Searching flat tables that lack `name`, with the top level searched after them, comes to
/// rolling `name` among the top-level tables one level deeper.
proof fn lemma_flat_fallback(root: Tables, tables: Tables, k: int, name: Seq<char>, depth: int, r: Result<Seq<char>, TableFailure>)
    requires
        flat(tables),
        0 <= k <= tables.tables@.len(),
        0 <= depth < MAX_DEPTH,
    ensures
        possible_fallback(root, tables, k, name, true, depth, r) == possible_roll(root, root, name, false, depth + 1, r),
    decreases tables.tables@.len() - k,
{
    if k < tables.tables@.len() {
        assert(tables.tables@[k].sub_tables.tables@.len() == 0);
        lemma_flat_fallback(root, tables, k + 1, name, depth, r);
    }
}

/// A reference in a table with nested tables is looked up there first and then among the
/// top-level tables: where the nested tables (none with tables of their own) lack the name,
/// the reference gives what rolling the name among the top-level tables gives, two levels
/// deeper (one for the nested tables, one for the top level).
pub proof fn law_reference_reaches_top_level(
    root: Tables,
    table: Table,
    sections: Seq<LineItemSection>,
    j: int,
    depth: int,
    acc: Seq<char>,
    r: Result<Seq<char>, TableFailure>,
)
    requires
        0 <= j < sections.len(),
        sections[j] is Reference,
        0 <= depth,
        depth + 1 < MAX_DEPTH,
        table.sub_tables.tables@.len() > 0,
        flat(table.sub_tables),
        find_table(table.sub_tables.tables@, sections[j]->Reference_0@) is None,
    ensures
        possible_sections(root, table, sections, j, depth, acc, r) <==> {
            let name = sections[j]->Reference_0@;
            ||| r is Err && possible_roll(root, root, name, false, depth + 2, r)
            ||| exists|text: String|
                possible_roll(root, root, name, false, depth + 2, Ok::<Seq<char>, TableFailure>(#[trigger] text@))
                && possible_sections(root, table, sections, j + 1, depth, acc + text@, r)
        },
{
    let name = sections[j]->Reference_0@;
    let sub = table.sub_tables;
    lemma_flat_fallback(root, sub, 0, name, depth + 1, r);
    assert(possible_roll(root, sub, name, true, depth + 1, r) == possible_roll(root, root, name, false, depth + 2, r));
    let nested = exists|text: String|
        possible_roll(root, sub, name, true, depth + 1, Ok::<Seq<char>, TableFailure>(#[trigger] text@))
        && possible_sections(root, table, sections, j + 1, depth, acc + text@, r);
    let top = exists|text: String|
        possible_roll(root, root, name, false, depth + 2, Ok::<Seq<char>, TableFailure>(#[trigger] text@))
        && possible_sections(root, table, sections, j + 1, depth, acc + text@, r);
    assert(possible_sections(root, table, sections, j, depth, acc, r)
        == ((r is Err && possible_roll(root, sub, name, true, depth + 1, r)) || nested));
    if nested {
        let text = choose|text: String|
            possible_roll(root, sub, name, true, depth + 1, Ok::<Seq<char>, TableFailure>(#[trigger] text@))
            && possible_sections(root, table, sections, j + 1, depth, acc + text@, r);
        lemma_flat_fallback(root, sub, 0, name, depth + 1, Ok::<Seq<char>, TableFailure>(text@));
        assert(top);
    }
    if top {
        let text = choose|text: String|
            possible_roll(root, root, name, false, depth + 2, Ok::<Seq<char>, TableFailure>(#[trigger] text@))
            && possible_sections(root, table, sections, j + 1, depth, acc + text@, r);
        lemma_flat_fallback(root, sub, 0, name, depth + 1, Ok::<Seq<char>, TableFailure>(text@));
        assert(nested);
    }
}

/// The texts of the sections from the `j`-th on, one after another (text sections only).
pub open spec fn plain_text(sections: Seq<LineItemSection>, j: int) -> Seq<char>
    decreases sections.len() - j,
{
    if j < 0 || j >= sections.len() {
        Seq::empty()
    } else {
        match sections[j] {
            LineItemSection::Text(t) => t@ + plain_text(sections, j + 1),
            _ => plain_text(sections, j + 1),
        }
    }
}

/// A line of plain text is written out as it stands: sections that are all text give, after
/// `acc`, exactly their texts in order.
pub proof fn law_text_written_in_order(
    root: Tables,
    table: Table,
    sections: Seq<LineItemSection>,
    j: int,
    depth: int,
    acc: Seq<char>,
    r: Result<Seq<char>, TableFailure>,
)
    requires
        0 <= j <= sections.len(),
        0 <= depth < MAX_DEPTH,
        forall|i: int| j <= i < sections.len() ==> (#[trigger] sections[i]) is Text,
    ensures
        possible_sections(root, table, sections, j, depth, acc, r)
            <==> r == Ok::<Seq<char>, TableFailure>(acc + plain_text(sections, j)),
    decreases sections.len() - j,
{
    if j < sections.len() {
        assert(sections[j] is Text);
        let t = sections[j]->Text_0;
        law_text_written_in_order(root, table, sections, j + 1, depth, acc + t@, r);
        assert(acc + t@ + plain_text(sections, j + 1) =~= acc + (t@ + plain_text(sections, j + 1)));
    } else {
        assert(acc + plain_text(sections, j) =~= acc);
    }
}

} // verus!
