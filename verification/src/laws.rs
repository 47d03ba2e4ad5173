//! What holds of every upsert, proved from the contracts of the engine.
//!
//! Each law speaks of a sheet before an upsert and the sheet after it,
//! related by `upserted`, which is what `upsert_sheet` and `upsert_row`
//! promise of the sheet they worked on.

use crate::formula::adjusted;
use crate::sheet::book_read;
use crate::sheet::book_sheets;
use crate::sheet::bounds_exact;
use crate::sheet::first_titled;
use crate::sheet::has_title;
use crate::sheet::sheet_new_style;
use crate::sheet::sheet_read;
use crate::sheet::sheet_title;
use crate::sheet::formula_at;
use crate::sheet::sheet_blank_style;
use crate::sheet::sheet_bounds;
use crate::sheet::sheet_cells;
use crate::sheet::sheet_wf;
use crate::sheet::showable_at;
use crate::sheet::shown_at;
use crate::sheet::style_at;
use crate::sheet::typed_text;
use crate::sheet::Grid;
use crate::update::covers;
use crate::update::key_of;
use crate::update::last_value;
use crate::update::UpdateCell;
use crate::update::UpsertError;
use crate::upsert::appended_cell;
use crate::upsert::carried;
use crate::upsert::book_upserted;
use crate::upsert::first_match;
use crate::upsert::sheet_workable;
use crate::upsert::workable;
use crate::upsert::row_written;
use crate::upsert::lemma_first_match_stays;
use crate::upsert::upserted;
use crate::upsert::written_cell;
use umya_spreadsheet::Spreadsheet;
use umya_spreadsheet::Worksheet;
use vstd::prelude::*;

verus! {

/// The row that an upsert of `updates` works on: the first row showing the
/// key, or the row below the last where none shows it.
pub open spec fn affected_row(before: Worksheet, updates: Seq<UpdateCell>) -> int {
    match first_match(sheet_cells(before), key_of(updates), sheet_bounds(before).1) {
        Some(row) => row as int,
        None => sheet_bounds(before).1 + 1,
    }
}

proof fn lemma_first_match_first(cells: Grid, key: Seq<char>, last: u32)
    ensures
        match first_match(cells, key, last) {
            Some(row) => 1 <= row <= last && shown_at(cells, 1, row) == key && first_match(
                cells,
                key,
                (row - 1) as u32,
            ) is None,
            None => true,
        },
    decreases last,
{
    if last > 0 {
        lemma_first_match_first(cells, key, (last - 1) as u32);
    }
}

proof fn lemma_first_match_same(a: Grid, b: Grid, key: Seq<char>, last: u32)
    requires
        forall|row: u32| 1 <= row <= last ==> #[trigger] shown_at(a, 1, row) == shown_at(b, 1, row),
    ensures
        first_match(a, key, last) == first_match(b, key, last),
    decreases last,
{
    if last > 0 {
        lemma_first_match_same(a, b, key, (last - 1) as u32);
        assert(shown_at(a, 1, last) == shown_at(b, 1, last));
    }
}

proof fn lemma_bounds_unique(cells: Grid, a: (u32, u32), b: (u32, u32))
    requires
        bounds_exact(cells, a),
        bounds_exact(cells, b),
    ensures
        a == b,
{
    if a.0 > 0 {
        let r = choose|r: u32| #[trigger] cells.contains_key((a.0, r));
    }
    if b.0 > 0 {
        let r = choose|r: u32| #[trigger] cells.contains_key((b.0, r));
    }
    if a.1 > 0 {
        let c = choose|c: u32| #[trigger] cells.contains_key((c, a.1));
    }
    if b.1 > 0 {
        let c = choose|c: u32| #[trigger] cells.contains_key((c, b.1));
    }
}

/// Overwriting a row adds no row: the highest row stays.
proof fn lemma_match_keeps_height(before: Worksheet, after: Worksheet, updates: Seq<UpdateCell>)
    requires
        sheet_wf(before),
        upserted(before, after, updates),
        first_match(sheet_cells(before), key_of(updates), sheet_bounds(before).1) is Some,
    ensures
        sheet_bounds(after).1 == sheet_bounds(before).1,
{
    let cells = sheet_cells(before);
    let next = sheet_cells(after);
    let row = first_match(cells, key_of(updates), sheet_bounds(before).1)->0;
    lemma_first_match_first(cells, key_of(updates), sheet_bounds(before).1);
    let low = sheet_bounds(before).1;
    let high = sheet_bounds(after).1;
    if high > 0 {
        let c = choose|c: u32| #[trigger] next.contains_key((c, high));
        assert(written_cell(cells, next, sheet_new_style(before), row, updates, (c, high)));
        if high != row {
            assert(cells.contains_key((c, high)));
        }
    }
    let c = choose|c: u32| #[trigger] cells.contains_key((c, low));
    assert(written_cell(cells, next, sheet_new_style(before), row, updates, (c, low)));
    assert(next.contains_key((c, low)));
}

/// An upsert that finds no row showing the key makes the sheet one row
/// higher. The new row's cell in column 1 holds the key, as stored, where
/// the updates leave the key in column 1; it does not where no update names
/// column 1.
pub proof fn law_append_grows(before: Worksheet, after: Worksheet, updates: Seq<UpdateCell>)
    requires
        sheet_wf(before),
        sheet_bounds(before).1 < u32::MAX,
        updates.len() > 0,
        upserted(before, after, updates),
        first_match(sheet_cells(before), key_of(updates), sheet_bounds(before).1) is None,
    ensures
        sheet_bounds(after).1 == sheet_bounds(before).1 + 1,
        covers(updates, 1) && last_value(updates, 1) == key_of(updates) ==> {
            &&& sheet_cells(after).contains_key((1, (sheet_bounds(before).1 + 1) as u32))
            &&& sheet_cells(after)[(1, (sheet_bounds(before).1 + 1) as u32)].value == typed_text(
                key_of(updates),
            )
        },
{
    let cells = sheet_cells(before);
    let next = sheet_cells(after);
    let blank = sheet_blank_style(before);
    let prev = sheet_bounds(before).1;
    let high = sheet_bounds(after).1;
    let first = updates[0].cell;
    assert(covers(updates, first));
    let new_row = (prev + 1) as u32;
    assert(appended_cell(cells, next, blank, updates, prev, (first, new_row)));
    assert(next.contains_key((first, new_row)));
    let c = choose|c: u32| #[trigger] next.contains_key((c, high));
    assert(appended_cell(cells, next, blank, updates, prev, (c, high)));
    if high != new_row {
        assert(cells.contains_key((c, high)));
    }
    if covers(updates, 1) {
        assert(appended_cell(cells, next, blank, updates, prev, (1, new_row)));
    }
}

/// After an upsert whose row shows the key in column 1, a search for the
/// key finds that row, and the sheet is as high as the row or as it was.
proof fn lemma_found_again(start: Worksheet, once: Worksheet, updates: Seq<UpdateCell>)
    requires
        sheet_workable(start, updates),
        updates.len() > 0,
        upserted(start, once, updates),
        shown_at(sheet_cells(once), 1, affected_row(start, updates) as u32) == key_of(updates),
    ensures
        1 <= affected_row(start, updates) <= sheet_bounds(once).1,
        first_match(sheet_cells(once), key_of(updates), sheet_bounds(once).1) == Some(
            affected_row(start, updates) as u32,
        ),
        sheet_bounds(once).1 == (if first_match(
            sheet_cells(start),
            key_of(updates),
            sheet_bounds(start).1,
        ) is Some {
            sheet_bounds(start).1 as int
        } else {
            sheet_bounds(start).1 + 1
        }),
{
    let key = key_of(updates);
    let last = sheet_bounds(start).1;
    let a = sheet_cells(start);
    let b = sheet_cells(once);
    let row = affected_row(start, updates) as u32;
    lemma_first_match_first(a, key, last);
    match first_match(a, key, last) {
        Some(found) => {
            lemma_match_keeps_height(start, once, updates);
            assert forall|r: u32| 1 <= r <= (row - 1) as u32 implies #[trigger] shown_at(a, 1, r)
                == shown_at(b, 1, r) by {
                assert(written_cell(a, b, sheet_new_style(start), row, updates, (1, r)));
            }
            lemma_first_match_same(a, b, key, (row - 1) as u32);
            assert(first_match(b, key, row) == Some(row));
            lemma_first_match_stays(b, key, row, last);
        },
        None => {
            law_append_grows(start, once, updates);
            assert forall|r: u32| 1 <= r <= last implies #[trigger] shown_at(a, 1, r) == shown_at(
                b,
                1,
                r,
            ) by {
                assert(appended_cell(a, b, sheet_blank_style(start), updates, last, (1, r)));
            }
            lemma_first_match_same(a, b, key, last);
            assert(first_match(b, key, row) == Some(row));
        },
    }
}

/// An upsert done a second time with the same updates leaves the sheet as
/// the first left it: no row is added and every cell holds what it held.
/// This is claimed where the row that the first upsert worked on shows the
/// key in column 1 afterwards; it does not where the updates leave the key
/// column without the key, or with a text that the sheet displays otherwise
/// than it was given.
pub proof fn law_upsert_twice(
    start: Worksheet,
    once: Worksheet,
    twice: Worksheet,
    updates: Seq<UpdateCell>,
)
    requires
        sheet_workable(start, updates),
        updates.len() > 0,
        upserted(start, once, updates),
        upserted(once, twice, updates),
        shown_at(sheet_cells(once), 1, affected_row(start, updates) as u32) == key_of(updates),
    ensures
        sheet_cells(twice) == sheet_cells(once),
        sheet_bounds(twice) == sheet_bounds(once),
        sheet_blank_style(twice) == sheet_blank_style(once),
        sheet_title(twice) == sheet_title(once),
{
    let key = key_of(updates);
    let last = sheet_bounds(start).1;
    let a = sheet_cells(start);
    let b = sheet_cells(once);
    let c = sheet_cells(twice);
    let row = affected_row(start, updates) as u32;
    lemma_found_again(start, once, updates);
    assert(row_written(b, c, sheet_new_style(once), row, updates));
    assert forall|k: (u32, u32)| #[trigger]
        c.dom().contains(k) == b.dom().contains(k) && (b.dom().contains(k) ==> c[k] == b[k]) by {
        assert(written_cell(b, c, sheet_new_style(once), row, updates, k));
        match first_match(a, key, last) {
            Some(found) => {
                assert(written_cell(a, b, sheet_new_style(start), row, updates, k));
            },
            None => {
                assert(appended_cell(a, b, sheet_blank_style(start), updates, last, k));
            },
        }
    }
    assert(c =~= b);
    lemma_bounds_unique(b, sheet_bounds(once), sheet_bounds(twice));
}

/// After an upsert, the same upsert can be attempted again, where the row
/// worked on shows the key in column 1 and its cell there is `showable`.
pub proof fn law_workable_again(start: Worksheet, once: Worksheet, updates: Seq<UpdateCell>)
    requires
        sheet_workable(start, updates),
        updates.len() > 0,
        upserted(start, once, updates),
        shown_at(sheet_cells(once), 1, affected_row(start, updates) as u32) == key_of(updates),
        showable_at(sheet_cells(once), 1, affected_row(start, updates) as u32),
    ensures
        sheet_workable(once, updates),
{
    let key = key_of(updates);
    let last = sheet_bounds(start).1;
    let a = sheet_cells(start);
    let b = sheet_cells(once);
    let row = affected_row(start, updates) as u32;
    lemma_found_again(start, once, updates);
    assert forall|r: u32| 1 <= r <= sheet_bounds(once).1 implies #[trigger] showable_at(b, 1, r) by {
        if r != row {
            assert(showable_at(a, 1, r));
            match first_match(a, key, last) {
                Some(found) => {
                    assert(written_cell(a, b, sheet_new_style(start), row, updates, (1, r)));
                },
                None => {
                    assert(appended_cell(a, b, sheet_blank_style(start), updates, last, (1, r)));
                },
            }
        }
    }
}

/// In an appended row, every column that an update names and every column
/// carried over has the style of the cell above it, and the cell above
/// keeps that style. Where the sheet was empty there is no cell above, and
/// the style is the one the sheet has for a coordinate without a cell.
pub proof fn law_style_inherited(
    before: Worksheet,
    after: Worksheet,
    updates: Seq<UpdateCell>,
    col: u32,
)
    requires
        sheet_wf(before),
        upserted(before, after, updates),
        first_match(sheet_cells(before), key_of(updates), sheet_bounds(before).1) is None,
        sheet_bounds(before).1 < u32::MAX,
        covers(updates, col) || carried(sheet_cells(before), updates, sheet_bounds(before).1, col),
    ensures
        sheet_cells(after).contains_key((col, (sheet_bounds(before).1 + 1) as u32)),
        sheet_cells(after)[(col, (sheet_bounds(before).1 + 1) as u32)].style == style_at(
            sheet_cells(before),
            sheet_blank_style(before),
            col,
            sheet_bounds(before).1,
        ),
        style_at(sheet_cells(after), sheet_blank_style(after), col, sheet_bounds(before).1)
            == style_at(
            sheet_cells(before),
            sheet_blank_style(before),
            col,
            sheet_bounds(before).1,
        ),
{
    let cells = sheet_cells(before);
    let next = sheet_cells(after);
    let blank = sheet_blank_style(before);
    let prev = sheet_bounds(before).1;
    assert(appended_cell(cells, next, blank, updates, prev, (col, (prev + 1) as u32)));
    assert(appended_cell(cells, next, blank, updates, prev, (col, prev)));
}

/// In an appended row, a column that an update names holds the update's
/// text and no formula, whatever formula the cell above holds: a formula is
/// carried over only into columns that no update names.
pub proof fn law_update_wins(
    before: Worksheet,
    after: Worksheet,
    updates: Seq<UpdateCell>,
    col: u32,
)
    requires
        upserted(before, after, updates),
        first_match(sheet_cells(before), key_of(updates), sheet_bounds(before).1) is None,
        sheet_bounds(before).1 < u32::MAX,
        covers(updates, col),
    ensures
        !carried(sheet_cells(before), updates, sheet_bounds(before).1, col),
        sheet_cells(after).contains_key((col, (sheet_bounds(before).1 + 1) as u32)),
        sheet_cells(after)[(col, (sheet_bounds(before).1 + 1) as u32)].formula is None,
        sheet_cells(after)[(col, (sheet_bounds(before).1 + 1) as u32)].value == typed_text(
            last_value(updates, col),
        ),
{
    let prev = sheet_bounds(before).1;
    assert(appended_cell(
        sheet_cells(before),
        sheet_cells(after),
        sheet_blank_style(before),
        updates,
        prev,
        (col, (prev + 1) as u32),
    ));
}

/// After an upsert, the row worked on reads back as follows. A column that
/// an update names holds the last text given for it, as the sheet stores it.
/// A column that no update names, and that holds no formula, is empty or
/// holds the value it held before.
pub proof fn law_reads_back(
    before: Worksheet,
    after: Worksheet,
    updates: Seq<UpdateCell>,
    col: u32,
)
    requires
        sheet_wf(before),
        sheet_bounds(before).1 < u32::MAX,
        upserted(before, after, updates),
    ensures
        covers(updates, col) ==> {
            &&& sheet_cells(after).contains_key((col, affected_row(before, updates) as u32))
            &&& sheet_cells(after)[(col, affected_row(before, updates) as u32)].value
                == typed_text(last_value(updates, col))
        },
        !covers(updates, col) && formula_at(
            sheet_cells(after),
            col,
            affected_row(before, updates) as u32,
        ) is None && sheet_cells(after).contains_key((col, affected_row(before, updates) as u32))
            ==> {
            &&& sheet_cells(before).contains_key((col, affected_row(before, updates) as u32))
            &&& sheet_cells(after)[(col, affected_row(before, updates) as u32)].value
                == sheet_cells(before)[(col, affected_row(before, updates) as u32)].value
        },
{
    let cells = sheet_cells(before);
    let next = sheet_cells(after);
    let prev = sheet_bounds(before).1;
    lemma_first_match_first(cells, key_of(updates), prev);
    let row = affected_row(before, updates) as u32;
    match first_match(cells, key_of(updates), prev) {
        Some(found) => {
            assert(written_cell(cells, next, sheet_new_style(before), found, updates, (col, row)));
        },
        None => {
            assert(appended_cell(cells, next, sheet_blank_style(before), updates, prev, (col, row)));
        },
    }
}

/// An upsert touches one row: every cell of another row, a later row with
/// the same key included, is after it what it was before, formula and all.
pub proof fn law_other_rows_untouched(
    before: Worksheet,
    after: Worksheet,
    updates: Seq<UpdateCell>,
    k: (u32, u32),
)
    requires
        upserted(before, after, updates),
        k.1 != affected_row(before, updates),
    ensures
        sheet_cells(after).contains_key(k) == sheet_cells(before).contains_key(k),
        sheet_cells(before).contains_key(k) ==> sheet_cells(after)[k] == sheet_cells(before)[k],
{
    let cells = sheet_cells(before);
    let next = sheet_cells(after);
    let prev = sheet_bounds(before).1;
    match first_match(cells, key_of(updates), prev) {
        Some(found) => {
            assert(written_cell(cells, next, sheet_new_style(before), found, updates, k));
        },
        None => {
            assert(appended_cell(cells, next, sheet_blank_style(before), updates, prev, k));
        },
    }
}

/// In an appended row, a column that no update names and whose cell in the
/// row above held a formula holds that formula, rewritten from the row above
/// to the new row; the row above holds it as it did.
pub proof fn law_formula_carried(
    before: Worksheet,
    after: Worksheet,
    updates: Seq<UpdateCell>,
    col: u32,
)
    requires
        upserted(before, after, updates),
        first_match(sheet_cells(before), key_of(updates), sheet_bounds(before).1) is None,
        sheet_bounds(before).1 < u32::MAX,
        carried(sheet_cells(before), updates, sheet_bounds(before).1, col),
    ensures
        sheet_cells(after).contains_key((col, (sheet_bounds(before).1 + 1) as u32)),
        sheet_cells(after)[(col, (sheet_bounds(before).1 + 1) as u32)].formula == Some(
            adjusted(
                formula_at(sheet_cells(before), col, sheet_bounds(before).1)->0,
                sheet_bounds(before).1,
                (sheet_bounds(before).1 + 1) as u32,
            ),
        ),
        sheet_cells(after)[(col, sheet_bounds(before).1)] == sheet_cells(before)[(
            col,
            sheet_bounds(before).1,
        )],
{
    let cells = sheet_cells(before);
    let next = sheet_cells(after);
    let blank = sheet_blank_style(before);
    let prev = sheet_bounds(before).1;
    assert(appended_cell(cells, next, blank, updates, prev, (col, (prev + 1) as u32)));
    assert(appended_cell(cells, next, blank, updates, prev, (col, prev)));
}

/// An upsert by sheet name that succeeded, done a second time with the same
/// name and updates, finds the same sheet, succeeds, and leaves every sheet
/// of the workbook as the first call left it. This is claimed where the row
/// that the first call worked on shows the key in column 1 afterwards.
pub proof fn law_upsert_row_twice(
    start: Spreadsheet,
    once: Spreadsheet,
    twice: Spreadsheet,
    sheet_name: Seq<char>,
    updates: Seq<UpdateCell>,
    second: Result<(), UpsertError>,
)
    requires
        book_read(start),
        workable(start, sheet_name, updates),
        book_upserted(start, once, sheet_name, updates, Ok(())),
        book_upserted(once, twice, sheet_name, updates, second),
        forall|i: int|
            first_titled(book_sheets(start), sheet_name, i) ==> shown_at(
                sheet_cells(#[trigger] book_sheets(once)[i]),
                1,
                affected_row(book_sheets(start)[i], updates) as u32,
            ) == key_of(updates),
    ensures
        second is Ok,
        book_read(once),
        (forall|i: int|
            first_titled(book_sheets(start), sheet_name, i) ==> showable_at(
                sheet_cells(#[trigger] book_sheets(once)[i]),
                1,
                affected_row(book_sheets(start)[i], updates) as u32,
            )) ==> workable(once, sheet_name, updates),
        book_sheets(twice).len() == book_sheets(once).len(),
        forall|j: int|
            0 <= j < book_sheets(once).len() ==> {
                &&& sheet_cells(#[trigger] book_sheets(twice)[j]) == sheet_cells(book_sheets(once)[j])
                &&& sheet_bounds(book_sheets(twice)[j]) == sheet_bounds(book_sheets(once)[j])
                &&& sheet_title(book_sheets(twice)[j]) == sheet_title(book_sheets(once)[j])
                &&& sheet_blank_style(book_sheets(twice)[j]) == sheet_blank_style(
                    book_sheets(once)[j],
                )
            },
{
    let a = book_sheets(start);
    let b = book_sheets(once);
    let c = book_sheets(twice);
    let i = choose|i: int|
        #![trigger a[i]]
        first_titled(a, sheet_name, i) && b == a.update(i, b[i]) && upserted(a[i], b[i], updates);
    assert(sheet_workable(a[i], updates));
    assert(first_titled(b, sheet_name, i)) by {
        assert forall|j: int| 0 <= j < i implies sheet_title(#[trigger] b[j]) != sheet_name by {
            assert(b[j] == a[j]);
        }
    }
    assert(has_title(b, sheet_name));
    assert forall|j: int| 0 <= j < b.len() implies sheet_read(#[trigger] b[j]) by {
        assert(sheet_read(a[j]));
    }
    let n = choose|n: int|
        #![trigger b[n]]
        first_titled(b, sheet_name, n) && c == b.update(n, c[n]) && upserted(b[n], c[n], updates);
    if n < i {
    } else if i < n {
    }
    law_upsert_twice(a[i], b[i], c[i], updates);
    if showable_at(sheet_cells(b[i]), 1, affected_row(a[i], updates) as u32) {
        law_workable_again(a[i], b[i], updates);
        assert forall|j: int| first_titled(b, sheet_name, j) implies sheet_workable(
            #[trigger] b[j],
            updates,
        ) by {
            if j < i {
            } else if i < j {
            }
        }
    }
}

} // verus!
