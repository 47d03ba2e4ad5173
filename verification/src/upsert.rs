//! The upsert: find the row whose key column shows the key and overwrite
//! its cells, or append a row that takes its styles, and the formulas of the
//! columns left alone, from the row above.

use crate::formula::adjust_formula_references;
use crate::formula::adjusted;
use crate::sheet::bounds_exact;
use crate::sheet::cell_style;
use crate::sheet::first_titled;
use crate::sheet::book_sheets;
use crate::sheet::book_read;
use crate::sheet::format_code;
use crate::sheet::formatted_value;
use crate::sheet::formula_at;
use crate::sheet::formula_text;
use crate::sheet::grown;
use crate::sheet::has_formula;
use crate::sheet::has_title;
use crate::sheet::highest_column;
use crate::sheet::highest_row;
use crate::sheet::set_cell_formula;
use crate::sheet::set_cell_style;
use crate::sheet::set_cell_value;
use crate::sheet::sheet_blank_style;
use crate::sheet::sheet_bounds;
use crate::sheet::sheet_by_name_mut;
use crate::sheet::sheet_cells;
use crate::sheet::sheet_new_style;
use crate::sheet::sheet_read;
use crate::sheet::sheet_title;
use crate::sheet::sheet_wf;
use crate::sheet::stored_places;
use crate::sheet::showable_at;
use crate::sheet::shown_at;
use crate::sheet::style_at;
use crate::sheet::surely_text;
use crate::sheet::style_made;
use crate::sheet::typed_text;
use crate::sheet::value_text;
use crate::sheet::CellView;
use crate::sheet::Grid;
use crate::update::covers;
use crate::update::key_of;
use crate::update::last_value;
use crate::update::names_column;
use crate::update::updates_valid;
use crate::update::updates_wf;
use crate::update::UpdateCell;
use crate::update::UpsertError;
use umya_spreadsheet::Spreadsheet;
use umya_spreadsheet::Style;
use umya_spreadsheet::Worksheet;
use vstd::prelude::*;
use vstd::string::StringExecFns;

verus! {

/// The first row among `1..=last` whose key column, column 1, shows `key`.
pub open spec fn first_match(cells: Grid, key: Seq<char>, last: u32) -> Option<u32>
    decreases last,
{
    if last == 0 {
        None
    } else {
        match first_match(cells, key, (last - 1) as u32) {
            Some(row) => Some(row),
            None => if shown_at(cells, 1, last) == key {
                Some(last)
            } else {
                None
            },
        }
    }
}

/// What the match path leaves at coordinate `k`. In row `row`, a column
/// that an update names holds the last text given for it, as stored, with no
/// formula, in the style it had, or, if the cell is made, in the style
/// `fresh` has for it. Every other coordinate is as it was.
pub open spec fn written_cell(
    before: Grid,
    after: Grid,
    fresh: Map<(u32, u32), Style>,
    row: u32,
    updates: Seq<UpdateCell>,
    k: (u32, u32),
) -> bool {
    if k.1 == row && covers(updates, k.0) {
        &&& after.contains_key(k)
        &&& after[k].value == typed_text(last_value(updates, k.0))
        &&& after[k].formula is None
        &&& after[k].style == style_made(before, fresh, k.0, k.1)
    } else {
        &&& after.contains_key(k) == before.contains_key(k)
        &&& before.contains_key(k) ==> after[k] == before[k]
    }
}

/// The match path as a whole: `written_cell` at every coordinate.
pub open spec fn row_written(
    before: Grid,
    after: Grid,
    fresh: Map<(u32, u32), Style>,
    row: u32,
    updates: Seq<UpdateCell>,
) -> bool {
    forall|k: (u32, u32)| #[trigger] written_cell(before, after, fresh, row, updates, k)
}

/// Whether column `col` is carried over from row `prev`: the column is 1 or
/// more, no update names it, and the cell of row `prev` holds a formula.
pub open spec fn carried(cells: Grid, updates: Seq<UpdateCell>, prev: u32, col: u32) -> bool {
    &&& prev >= 1
    &&& col >= 1
    &&& !covers(updates, col)
    &&& formula_at(cells, col, prev) is Some
}

/// What the append path leaves at coordinate `k`, where `prev` was the
/// highest row and `prev + 1` is the row appended.
///
/// In the new row, a column that an update names holds the last text given
/// for it, as stored, without a formula, in the style of the cell above. A
/// column carried over holds the formula of the cell above, rewritten from
/// row `prev` to the new row, in the style of the cell above, and no value.
/// No other cell is in the new row. Every coordinate outside the new row is
/// as it was.
pub open spec fn appended_cell(
    before: Grid,
    after: Grid,
    blank: Style,
    updates: Seq<UpdateCell>,
    prev: u32,
    k: (u32, u32),
) -> bool {
    if k.1 == prev + 1 {
        if covers(updates, k.0) {
            &&& after.contains_key(k)
            &&& after[k].value == typed_text(last_value(updates, k.0))
            &&& after[k].formula is None
            &&& after[k].style == style_at(before, blank, k.0, prev)
        } else if carried(before, updates, prev, k.0) {
            &&& after.contains_key(k)
            &&& after[k].value == Seq::<char>::empty()
            &&& after[k].formula == Some(
                adjusted(formula_at(before, k.0, prev)->0, prev, (prev + 1) as u32),
            )
            &&& after[k].style == before[(k.0, prev)].style
        } else {
            !after.contains_key(k)
        }
    } else {
        &&& after.contains_key(k) == before.contains_key(k)
        &&& before.contains_key(k) ==> after[k] == before[k]
    }
}

/// The append path as a whole: `appended_cell` at every coordinate.
pub open spec fn row_appended(
    before: Grid,
    after: Grid,
    blank: Style,
    updates: Seq<UpdateCell>,
    prev: u32,
) -> bool {
    forall|k: (u32, u32)| #[trigger] appended_cell(before, after, blank, updates, prev, k)
}

/// What an upsert leaves of a sheet besides its cells: the sheet stays in
/// order, and keeps its title, its blank style, its styles for cells yet to
/// be made, and its being read.
pub open spec fn sheet_kept(before: Worksheet, after: Worksheet) -> bool {
    &&& sheet_wf(after)
    &&& sheet_blank_style(after) == sheet_blank_style(before)
    &&& sheet_new_style(after) == sheet_new_style(before)
    &&& sheet_title(after) == sheet_title(before)
    &&& sheet_read(after) == sheet_read(before)
}

/// A sheet after an upsert of `updates`, against the sheet before it. Where
/// a row among those of the sheet shows the key in column 1, the first such
/// row is overwritten; where none does, a row is appended below the last.
pub open spec fn upserted(before: Worksheet, after: Worksheet, updates: Seq<UpdateCell>) -> bool {
    &&& sheet_kept(before, after)
    &&& match first_match(sheet_cells(before), key_of(updates), sheet_bounds(before).1) {
        Some(row) => row_written(
            sheet_cells(before),
            sheet_cells(after),
            sheet_new_style(before),
            row,
            updates,
        ),
        None => row_appended(
            sheet_cells(before),
            sheet_cells(after),
            sheet_blank_style(before),
            updates,
            sheet_bounds(before).1,
        ),
    }
}

/// Whether every cell that the search for a key reads, those of column 1 in
/// the rows `1..=last`, is `showable`.
pub open spec fn key_column_showable(cells: Grid, last: u32) -> bool {
    forall|row: u32| 1 <= row <= last ==> #[trigger] showable_at(cells, 1, row)
}

/// Once a row among `1..=row` shows the key, looking further down finds the
/// same row.
pub proof fn lemma_first_match_stays(cells: Grid, key: Seq<char>, row: u32, last: u32)
    requires
        row <= last,
        first_match(cells, key, row) is Some,
    ensures
        first_match(cells, key, last) == first_match(cells, key, row),
    decreases last,
{
    if row < last {
        lemma_first_match_stays(cells, key, row, (last - 1) as u32);
    }
}

/// Finds the row to overwrite: the first of the sheet's rows whose column 1
/// shows `key`, if there is one.
pub fn find_row(sheet: &Worksheet, key: &str) -> (found: Option<u32>)
    requires
        key_column_showable(sheet_cells(*sheet), sheet_bounds(*sheet).1),
    ensures
        found == first_match(sheet_cells(*sheet), key@, sheet_bounds(*sheet).1),
{
    let last: u32 = highest_row(sheet);
    let wanted = key.to_owned();
    let mut row: u32 = 0;
    while row < last
        invariant
            row <= last,
            last == sheet_bounds(*sheet).1,
            wanted@ == key@,
            key_column_showable(sheet_cells(*sheet), last),
            first_match(sheet_cells(*sheet), key@, row) is None,
        decreases last - row,
    {
        row = row + 1;
        assert(showable_at(sheet_cells(*sheet), 1, row));
        let text = formatted_value(sheet, 1, row);
        if text == wanted {
            proof {
                lemma_first_match_stays(sheet_cells(*sheet), key@, row, last);
            }
            return Some(row);
        }
    }
    None
}

proof fn lemma_covers_step(updates: Seq<UpdateCell>, i: int, col: u32)
    requires
        0 <= i < updates.len(),
    ensures
        covers(updates.take(i + 1), col) <==> covers(updates.take(i), col) || updates[i].cell == col,
        last_value(updates.take(i + 1), col) == (if updates[i].cell == col {
            updates[i].value@
        } else {
            last_value(updates.take(i), col)
        }),
{
    let short = updates.take(i);
    let long = updates.take(i + 1);
    assert(long.drop_last() =~= short);
    assert(long.last() == updates[i]);
    if covers(short, col) {
        let j = choose|j: int| 0 <= j < short.len() && (#[trigger] short[j]).cell == col;
        assert(long[j].cell == col);
    }
    if updates[i].cell == col {
        assert(long[i].cell == col);
    }
    if covers(long, col) {
        let j = choose|j: int| 0 <= j < long.len() && (#[trigger] long[j]).cell == col;
        if j < i {
            assert(short[j].cell == col);
        }
    }
}

proof fn lemma_grown_exact(cells: Grid, bounds: (u32, u32), col: u32, row: u32, cell: CellView)
    requires
        bounds_exact(cells, bounds),
    ensures
        bounds_exact(cells.insert((col, row), cell), grown(bounds, cells, col, row)),
{
    let after = cells.insert((col, row), cell);
    let wider = grown(bounds, cells, col, row);
    assert(after.contains_key((col, row)));
    assert forall|k: (u32, u32)| #[trigger] after.contains_key(k) implies k.0 <= wider.0 && k.1
        <= wider.1 by {
        if k != (col, row) {
            assert(cells.contains_key(k));
        } else if cells.contains_key((col, row)) {
        }
    }
    if wider.0 > 0 {
        if wider.0 == bounds.0 && bounds.0 > 0 {
            let r = choose|r: u32| #[trigger] cells.contains_key((bounds.0, r));
            assert(after.contains_key((wider.0, r)));
        } else {
            assert(after.contains_key((wider.0, row)));
        }
    }
    if wider.1 > 0 {
        if wider.1 == bounds.1 && bounds.1 > 0 {
            let c = choose|c: u32| #[trigger] cells.contains_key((c, bounds.1));
            assert(after.contains_key((c, wider.1)));
        } else {
            assert(after.contains_key((col, wider.1)));
        }
    }
}

/// The match path: stores every update in row `row`.
pub fn update_row(sheet: &mut Worksheet, row: u32, updates: &Vec<UpdateCell>)
    requires
        sheet_wf(*old(sheet)),
    ensures
        row_written(
            sheet_cells(*old(sheet)),
            sheet_cells(*final(sheet)),
            sheet_new_style(*old(sheet)),
            row,
            updates@,
        ),
        sheet_kept(*old(sheet), *final(sheet)),
{
    let ghost before = sheet_cells(*sheet);
    let ghost fresh = sheet_new_style(*sheet);
    let mut i: usize = 0;
    assert forall|k: (u32, u32)| #[trigger]
        written_cell(before, before, fresh, row, updates@.take(0), k) by {
        assert(!covers(updates@.take(0), k.0));
    }
    while i < updates.len()
        invariant
            i <= updates.len(),
            before == sheet_cells(*old(sheet)),
            fresh == sheet_new_style(*old(sheet)),
            sheet_kept(*old(sheet), *sheet),
            row_written(before, sheet_cells(*sheet), fresh, row, updates@.take(i as int)),
        decreases updates.len() - i,
    {
        let ghost current = sheet_cells(*sheet);
        let ghost bounds = sheet_bounds(*sheet);
        let col = updates[i].cell;
        set_cell_value(sheet, col, row, updates[i].value.as_str());
        proof {
            let next = sheet_cells(*sheet);
            lemma_grown_exact(current, bounds, col, row, next[(col, row)]);
            assert forall|k: (u32, u32)| #[trigger]
                written_cell(before, next, fresh, row, updates@.take(i + 1), k) by {
                lemma_covers_step(updates@, i as int, k.0);
                assert(written_cell(before, current, fresh, row, updates@.take(i as int), k));
                assert(written_cell(before, current, fresh, row, updates@.take(i as int), (col, row)));
            }
        }
        i = i + 1;
    }
    assert(updates@.take(i as int) =~= updates@);
}

/// A formula to bring into an appended row: the column it stands in, and
/// its text in the row above.
#[derive(Debug, Clone)]
pub struct FormulaCarryover {
    pub column: u32,
    pub formula: String,
}

/// Whether one of the first `n` entries of `list` is for column `col`.
pub open spec fn listed(list: Seq<FormulaCarryover>, n: int, col: u32) -> bool {
    exists|j: int| 0 <= j < n && j < list.len() && (#[trigger] list[j]).column == col
}

/// A list that holds the carryovers of row `prev`: one entry for each
/// column carried over and for no other, in ascending order of column, each
/// with the formula text of the cell in row `prev`.
pub open spec fn carryovers_of(
    cells: Grid,
    updates: Seq<UpdateCell>,
    prev: u32,
    list: Seq<FormulaCarryover>,
) -> bool {
    &&& forall|j: int|
        0 <= j < list.len() ==> carried(cells, updates, prev, (#[trigger] list[j]).column)
            && formula_at(cells, list[j].column, prev) == Some(list[j].formula@)
    &&& forall|i: int, j: int|
        0 <= i < j < list.len() ==> (#[trigger] list[i]).column < (#[trigger] list[j]).column
    &&& forall|col: u32| #[trigger]
        carried(cells, updates, prev, col) ==> listed(list, list.len() as int, col)
}

/// Collects the formulas to carry over from row `prev`: those of the
/// columns that no update names.
pub fn formula_carryovers(sheet: &Worksheet, updates: &Vec<UpdateCell>, prev: u32) -> (list: Vec<
    FormulaCarryover,
>)
    requires
        sheet_wf(*sheet),
    ensures
        carryovers_of(sheet_cells(*sheet), updates@, prev, list@),
{
    let mut list: Vec<FormulaCarryover> = Vec::new();
    if prev < 1 {
        return list;
    }
    let ghost cells = sheet_cells(*sheet);
    let last: u32 = highest_column(sheet);
    let mut col: u32 = 0;
    while col < last
        invariant
            col <= last,
            prev >= 1,
            last == sheet_bounds(*sheet).0,
            cells == sheet_cells(*sheet),
            forall|j: int|
                0 <= j < list@.len() ==> carried(cells, updates@, prev, (#[trigger] list@[j]).column)
                    && formula_at(cells, list@[j].column, prev) == Some(list@[j].formula@)
                    && list@[j].column <= col,
            forall|i: int, j: int|
                0 <= i < j < list@.len() ==> (#[trigger] list@[i]).column < (
                #[trigger] list@[j]).column,
            forall|c: u32|
                c <= col && #[trigger] carried(cells, updates@, prev, c) ==> listed(
                    list@,
                    list@.len() as int,
                    c,
                ),
        decreases last - col,
    {
        col = col + 1;
        let ghost earlier = list@;
        if !names_column(updates, col) && has_formula(sheet, col, prev) {
            let formula = formula_text(sheet, col, prev);
            list.push(FormulaCarryover { column: col, formula });
            assert(list@[earlier.len() as int].column == col);
        }
        proof {
            assert forall|c: u32| c <= col && #[trigger] carried(cells, updates@, prev, c) implies listed(
                list@,
                list@.len() as int,
                c,
            ) by {
                if c < col {
                    assert(listed(earlier, earlier.len() as int, c));
                    let j = choose|j: int|
                        0 <= j < earlier.len() && (#[trigger] earlier[j]).column == c;
                    assert(list@[j].column == c);
                }
            }
        }
    }
    proof {
        assert forall|c: u32| #[trigger] carried(cells, updates@, prev, c) implies listed(
            list@,
            list@.len() as int,
            c,
        ) by {
            assert(cells.contains_key((c, prev)));
        }
    }
    list
}

/// The new row while the updates are being stored, `shorter` being the
/// updates stored so far: a column that one of them names holds the last
/// text given for it; no other cell is in the new row yet.
spec fn filling_cell(
    before: Grid,
    current: Grid,
    blank: Style,
    shorter: Seq<UpdateCell>,
    prev: u32,
    k: (u32, u32),
) -> bool {
    if k.1 == prev + 1 {
        if covers(shorter, k.0) {
            &&& current.contains_key(k)
            &&& current[k].value == typed_text(last_value(shorter, k.0))
            &&& current[k].formula is None
            &&& current[k].style == style_at(before, blank, k.0, prev)
        } else {
            !current.contains_key(k)
        }
    } else {
        &&& current.contains_key(k) == before.contains_key(k)
        &&& before.contains_key(k) ==> current[k] == before[k]
    }
}

/// The new row while the carryovers are being stored, the first `n` of
/// `list` being in place; `filled` is the sheet as the updates left it.
spec fn carrying_cell(
    filled: Grid,
    current: Grid,
    updates: Seq<UpdateCell>,
    list: Seq<FormulaCarryover>,
    n: int,
    prev: u32,
    k: (u32, u32),
) -> bool {
    if k.1 == prev + 1 && !covers(updates, k.0) && listed(list, n, k.0) {
        &&& current.contains_key(k)
        &&& current[k].value == Seq::<char>::empty()
        &&& current[k].formula == Some(
            adjusted(formula_at(filled, k.0, prev)->0, prev, (prev + 1) as u32),
        )
        &&& current[k].style == filled[(k.0, prev)].style
    } else {
        &&& current.contains_key(k) == filled.contains_key(k)
        &&& filled.contains_key(k) ==> current[k] == filled[k]
    }
}

proof fn lemma_listed_step(list: Seq<FormulaCarryover>, n: int, col: u32)
    requires
        0 <= n < list.len(),
    ensures
        listed(list, n + 1, col) <==> listed(list, n, col) || list[n].column == col,
{
    if listed(list, n, col) {
        let j = choose|j: int| 0 <= j < n && j < list.len() && (#[trigger] list[j]).column == col;
        assert(0 <= j < n + 1 && list[j].column == col);
    }
    if list[n].column == col {
        assert(0 <= n < n + 1 && list[n].column == col);
    }
}

/// The append path: stores every update in the row below the last, in the
/// style of the cell above, and brings the formulas of the other columns
/// down from the row above, rewritten for the new row. The formulas are
/// read before anything is written, and no cell outside the new row is
/// touched. Returns the index of the row added.
pub fn append_row(sheet: &mut Worksheet, updates: &Vec<UpdateCell>) -> (new_row: u32)
    requires
        sheet_wf(*old(sheet)),
        sheet_bounds(*old(sheet)).1 < u32::MAX,
    ensures
        new_row == sheet_bounds(*old(sheet)).1 + 1,
        row_appended(
            sheet_cells(*old(sheet)),
            sheet_cells(*final(sheet)),
            sheet_blank_style(*old(sheet)),
            updates@,
            sheet_bounds(*old(sheet)).1,
        ),
        sheet_kept(*old(sheet), *final(sheet)),
        updates@.len() > 0 ==> sheet_bounds(*final(sheet)).1 == new_row,
{
    let ghost before = sheet_cells(*sheet);
    let ghost blank = sheet_blank_style(*sheet);
    let prev: u32 = highest_row(sheet);
    let new_row: u32 = prev + 1;
    let list = formula_carryovers(sheet, updates, prev);
    proof {
        assert forall|k: (u32, u32)| #[trigger]
            filling_cell(before, before, blank, updates@.take(0), prev, k) by {
            assert(!covers(updates@.take(0), k.0));
            if before.contains_key(k) {
                assert(k.1 <= prev);
            }
        }
    }
    let mut i: usize = 0;
    while i < updates.len()
        invariant
            i <= updates.len(),
            new_row == prev + 1,
            before == sheet_cells(*old(sheet)),
            blank == sheet_blank_style(*old(sheet)),
            sheet_kept(*old(sheet), *sheet),
            i > 0 ==> sheet_cells(*sheet).contains_key((updates@[0].cell, new_row)),
            forall|k: (u32, u32)| #[trigger] sheet_cells(*sheet).contains_key(k) ==> k.1 <= new_row,
            forall|k: (u32, u32)| #[trigger]
                filling_cell(before, sheet_cells(*sheet), blank, updates@.take(i as int), prev, k),
        decreases updates.len() - i,
    {
        let ghost current = sheet_cells(*sheet);
        let col = updates[i].cell;
        proof {
            assert(filling_cell(before, current, blank, updates@.take(i as int), prev, (col, prev)));
        }
        let style = cell_style(sheet, col, prev);
        let ghost bounds = sheet_bounds(*sheet);
        set_cell_style(sheet, col, new_row, style);
        proof {
            lemma_grown_exact(current, bounds, col, new_row, sheet_cells(*sheet)[(col, new_row)]);
        }
        let ghost styled = sheet_cells(*sheet);
        let ghost bounds = sheet_bounds(*sheet);
        set_cell_value(sheet, col, new_row, updates[i].value.as_str());
        proof {
            let next = sheet_cells(*sheet);
            lemma_grown_exact(styled, bounds, col, new_row, next[(col, new_row)]);
            assert forall|k: (u32, u32)| #[trigger]
                filling_cell(before, next, blank, updates@.take(i + 1), prev, k) by {
                lemma_covers_step(updates@, i as int, k.0);
                assert(filling_cell(before, current, blank, updates@.take(i as int), prev, k));
            }
            assert forall|k: (u32, u32)| #[trigger] next.contains_key(k) implies k.1 <= new_row by {
                if k != (col, new_row) {
                    assert(current.contains_key(k));
                }
            }
            if i > 0 {
                assert(current.contains_key((updates@[0].cell, new_row)));
            }
        }
        i = i + 1;
    }
    assert(updates@.take(i as int) =~= updates@);
    let ghost filled = sheet_cells(*sheet);
    let mut j: usize = 0;
    while j < list.len()
        invariant
            j <= list.len(),
            new_row == prev + 1,
            sheet_kept(*old(sheet), *sheet),
            blank == sheet_blank_style(*old(sheet)),
            carryovers_of(before, updates@, prev, list@),
            forall|k: (u32, u32)| #[trigger] filling_cell(before, filled, blank, updates@, prev, k),
            updates@.len() > 0 ==> sheet_cells(*sheet).contains_key((updates@[0].cell, new_row)),
            forall|k: (u32, u32)| #[trigger] sheet_cells(*sheet).contains_key(k) ==> k.1 <= new_row,
            forall|k: (u32, u32)| #[trigger]
                carrying_cell(filled, sheet_cells(*sheet), updates@, list@, j as int, prev, k),
        decreases list.len() - j,
    {
        let ghost current = sheet_cells(*sheet);
        let col = list[j].column;
        proof {
            assert(carried(before, updates@, prev, list@[j as int].column));
            assert(filling_cell(before, filled, blank, updates@, prev, (col, prev)));
            assert(carrying_cell(filled, current, updates@, list@, j as int, prev, (col, prev)));
            assert(carrying_cell(filled, current, updates@, list@, j as int, prev, (col, new_row)));
            assert(filling_cell(before, filled, blank, updates@, prev, (col, new_row)));
            if listed(list@, j as int, col) {
                let e = choose|e: int|
                    0 <= e < j && e < list@.len() && (#[trigger] list@[e]).column == col;
                assert(list@[e].column < list@[j as int].column);
            }
        }
        let style = cell_style(sheet, col, prev);
        let ghost bounds = sheet_bounds(*sheet);
        set_cell_style(sheet, col, new_row, style);
        proof {
            lemma_grown_exact(current, bounds, col, new_row, sheet_cells(*sheet)[(col, new_row)]);
        }
        let ghost styled = sheet_cells(*sheet);
        let ghost bounds = sheet_bounds(*sheet);
        let formula = adjust_formula_references(list[j].formula.as_str(), prev, new_row);
        set_cell_formula(sheet, col, new_row, formula.as_str());
        proof {
            let next = sheet_cells(*sheet);
            lemma_grown_exact(styled, bounds, col, new_row, next[(col, new_row)]);
            assert forall|k: (u32, u32)| #[trigger]
                carrying_cell(filled, next, updates@, list@, j + 1, prev, k) by {
                lemma_listed_step(list@, j as int, k.0);
                assert(carrying_cell(filled, current, updates@, list@, j as int, prev, k));
            }
            assert forall|k: (u32, u32)| #[trigger] next.contains_key(k) implies k.1 <= new_row by {
                if k != (col, new_row) {
                    assert(current.contains_key(k));
                }
            }
            if updates@.len() > 0 {
                assert(current.contains_key((updates@[0].cell, new_row)));
            }
        }
        j = j + 1;
    }
    proof {
        let after = sheet_cells(*sheet);
        assert forall|k: (u32, u32)| #[trigger]
            appended_cell(before, after, blank, updates@, prev, k) by {
            assert(carrying_cell(filled, after, updates@, list@, list@.len() as int, prev, k));
            assert(filling_cell(before, filled, blank, updates@, prev, k));
            if k.1 == prev + 1 && !covers(updates@, k.0) {
                assert(filling_cell(before, filled, blank, updates@, prev, (k.0, prev)));
                if listed(list@, list@.len() as int, k.0) {
                    let e = choose|e: int|
                        0 <= e < list@.len() && e < list@.len() && (#[trigger] list@[e]).column
                            == k.0;
                    assert(carried(before, updates@, prev, list@[e].column));
                }
            }
        }
        if updates@.len() > 0 {
            assert(after.contains_key((updates@[0].cell, new_row)));
            if sheet_bounds(*sheet).1 > 0 {
                let c = choose|c: u32| #[trigger] after.contains_key((c, sheet_bounds(*sheet).1));
            }
        }
    }
    new_row
}

/// Whether an upsert can be attempted on a sheet: every column to set is 1
/// or more, the sheet is in order, the cells that the search reads are
/// `showable`, and, where no row shows the key, the sheet has room for a row
/// below its last.
pub open spec fn sheet_workable(sheet: Worksheet, updates: Seq<UpdateCell>) -> bool {
    &&& updates_wf(updates)
    &&& sheet_wf(sheet)
    &&& key_column_showable(sheet_cells(sheet), sheet_bounds(sheet).1)
    &&& updates.len() > 0 && first_match(
        sheet_cells(sheet),
        key_of(updates),
        sheet_bounds(sheet).1,
    ) is None ==> sheet_bounds(sheet).1 < u32::MAX
}

/// Whether an upsert can be attempted on a workbook: every column to set is
/// 1 or more, and the sheet to work on, if the workbook has it, is one on
/// which an upsert can be attempted.
pub open spec fn workable(book: Spreadsheet, sheet_name: Seq<char>, updates: Seq<UpdateCell>) -> bool {
    &&& updates_wf(updates)
    &&& forall|i: int|
        first_titled(book_sheets(book), sheet_name, i) ==> sheet_workable(
            #[trigger] book_sheets(book)[i],
            updates,
        )
}

/// A sheet after an upsert, against the sheet before it and the outcome
/// reported: `EmptyUpdateSet` exactly where `updates` is empty, the sheet
/// then being untouched, and otherwise `Ok` and the sheet upserted.
pub open spec fn sheet_upserted(
    before: Worksheet,
    after: Worksheet,
    updates: Seq<UpdateCell>,
    outcome: Result<(), UpsertError>,
) -> bool {
    match outcome {
        Ok(_) => updates.len() > 0 && upserted(before, after, updates),
        Err(error) => error == UpsertError::EmptyUpdateSet && updates.len() == 0 && after == before,
    }
}

/// A workbook after an upsert, against the workbook before it and the
/// outcome reported.
///
/// `SheetNotFound` is reported exactly where no sheet is titled
/// `sheet_name`, and `EmptyUpdateSet` exactly where one is and `updates` is
/// empty; the sheets are then as they were. Otherwise the outcome is `Ok`,
/// the first sheet of that title is the upsert of what it was, and every
/// other sheet is as it was.
pub open spec fn book_upserted(
    before: Spreadsheet,
    after: Spreadsheet,
    sheet_name: Seq<char>,
    updates: Seq<UpdateCell>,
    outcome: Result<(), UpsertError>,
) -> bool {
    match outcome {
        Ok(_) => {
            &&& updates.len() > 0
            &&& exists|i: int|
                #![trigger book_sheets(before)[i]]
                {
                    &&& first_titled(book_sheets(before), sheet_name, i)
                    &&& book_sheets(after) == book_sheets(before).update(i, book_sheets(after)[i])
                    &&& upserted(book_sheets(before)[i], book_sheets(after)[i], updates)
                }
        },
        Err(error) => {
            &&& book_sheets(after) == book_sheets(before)
            &&& error == (if has_title(book_sheets(before), sheet_name) {
                UpsertError::EmptyUpdateSet
            } else {
                UpsertError::SheetNotFound
            })
            &&& has_title(book_sheets(before), sheet_name) ==> updates.len() == 0
        },
    }
}

/// Tests whether a worksheet is in order: whether its bounds are those of
/// its cells and each cell is stored where it says it is.
pub fn sheet_sound(sheet: &Worksheet) -> (sound: bool)
    ensures
        sound == sheet_wf(*sheet),
{
    let last_col: u32 = highest_column(sheet);
    let last_row: u32 = highest_row(sheet);
    let places = stored_places(sheet);
    let ghost cells = sheet_cells(*sheet);
    let mut in_last_col = false;
    let mut in_last_row = false;
    let mut i: usize = 0;
    while i < places.len()
        invariant
            i <= places.len(),
            cells == sheet_cells(*sheet),
            last_col == sheet_bounds(*sheet).0,
            last_row == sheet_bounds(*sheet).1,
            forall|k: (u32, u32)| #[trigger]
                cells.contains_key(k) ==> exists|j: int|
                    0 <= j < places@.len() && (#[trigger] places@[j]).0 == k,
            forall|j: int|
                0 <= j < places@.len() ==> cells.contains_key((#[trigger] places@[j]).0)
                    && cells[places@[j].0].at == places@[j].1,
            forall|j: int|
                0 <= j < i ==> (#[trigger] places@[j]).0 == places@[j].1 && places@[j].0.0
                    <= last_col && places@[j].0.1 <= last_row,
            in_last_col <==> exists|j: int| 0 <= j < i && (#[trigger] places@[j]).0.0 == last_col,
            in_last_row <==> exists|j: int| 0 <= j < i && (#[trigger] places@[j]).0.1 == last_row,
        decreases places.len() - i,
    {
        let (key, own) = places[i];
        if key.0 != own.0 || key.1 != own.1 || key.0 > last_col || key.1 > last_row {
            proof {
                assert(cells.contains_key(places@[i as int].0));
            }
            return false;
        }
        let ghost seen_col = in_last_col;
        let ghost seen_row = in_last_row;
        if key.0 == last_col {
            in_last_col = true;
        }
        if key.1 == last_row {
            in_last_row = true;
        }
        proof {
            assert(places@[i as int].0 == key);
            if seen_col {
                let j = choose|j: int| 0 <= j < i && (#[trigger] places@[j]).0.0 == last_col;
                assert(0 <= j < i + 1 && places@[j].0.0 == last_col);
            }
            if seen_row {
                let j = choose|j: int| 0 <= j < i && (#[trigger] places@[j]).0.1 == last_row;
                assert(0 <= j < i + 1 && places@[j].0.1 == last_row);
            }
        }
        i = i + 1;
    }
    proof {
        assert forall|k: (u32, u32)| #[trigger] cells.contains_key(k) implies cells[k].at == k
            && k.0 <= last_col && k.1 <= last_row by {
            let j = choose|j: int| 0 <= j < places@.len() && (#[trigger] places@[j]).0 == k;
            assert(places@[j].0 == places@[j].1);
        }
        if in_last_col {
            let j = choose|j: int| 0 <= j < i && (#[trigger] places@[j]).0.0 == last_col;
            assert(cells.contains_key(places@[j].0));
            assert(cells.contains_key((last_col, places@[j].0.1)));
        } else if exists|r: u32| #[trigger] cells.contains_key((last_col, r)) {
            let r = choose|r: u32| #[trigger] cells.contains_key((last_col, r));
            let j = choose|j: int|
                0 <= j < places@.len() && (#[trigger] places@[j]).0 == (last_col, r);
            assert(places@[j].0.0 == last_col);
        }
        if in_last_row {
            let j = choose|j: int| 0 <= j < i && (#[trigger] places@[j]).0.1 == last_row;
            assert(cells.contains_key(places@[j].0));
            assert(cells.contains_key((places@[j].0.0, last_row)));
        } else if exists|c: u32| #[trigger] cells.contains_key((c, last_row)) {
            let c = choose|c: u32| #[trigger] cells.contains_key((c, last_row));
            let j = choose|j: int|
                0 <= j < places@.len() && (#[trigger] places@[j]).0 == (c, last_row);
            assert(places@[j].0.1 == last_row);
        }
    }
    (last_col == 0 || in_last_col) && (last_row == 0 || in_last_row)
}

/// Tests whether a text is surely no number.
pub fn text_for_sure(bytes: &[u8]) -> (sure: bool)
    ensures
        sure == surely_text(bytes@),
{
    if bytes.len() == 0 {
        return false;
    }
    let first = bytes[0];
    if bytes.len() <= 9 && (first == 43 || first == 45 || first == 73 || first == 105 || first == 78
        || first == 110) {
        return false;
    }
    let mut i: usize = 0;
    while i < bytes.len()
        invariant
            i <= bytes.len(),
            forall|j: int| 0 <= j < i ==> !(48 <= #[trigger] bytes@[j] <= 57),
        decreases bytes.len() - i,
    {
        if 48 <= bytes[i] && bytes[i] <= 57 {
            return false;
        }
        i = i + 1;
    }
    true
}

/// Tests whether every cell that the search for a key reads is `showable`.
pub fn key_column_shown(sheet: &Worksheet) -> (shown: bool)
    ensures
        shown == key_column_showable(sheet_cells(*sheet), sheet_bounds(*sheet).1),
{
    let last: u32 = highest_row(sheet);
    let general = String::from_str("General");
    let text = String::from_str("@");
    let mut row: u32 = 0;
    while row < last
        invariant
            row <= last,
            last == sheet_bounds(*sheet).1,
            general@ == "General"@,
            text@ == "@"@,
            key_column_showable(sheet_cells(*sheet), row),
        decreases last - row,
    {
        row = row + 1;
        let value = value_text(sheet, 1, row);
        let shown = if value.as_str().is_empty() || text_for_sure(value.as_str().as_bytes()) {
            true
        } else {
            match format_code(sheet, 1, row) {
                Some(code) => code == general || code == text,
                None => true,
            }
        };
        if !shown {
            assert(!showable_at(sheet_cells(*sheet), 1, row));
            return false;
        }
        assert(showable_at(sheet_cells(*sheet), 1, row));
        assert forall|r: u32| 1 <= r <= row implies #[trigger] showable_at(
            sheet_cells(*sheet),
            1,
            r,
        ) by {
            if r < row {
                assert(1 <= r <= (row - 1) as u32);
            }
        }
    }
    true
}

/// The upsert on one sheet. The key is the text of the first update, and it
/// is looked for in column 1 whatever column that update names. An empty
/// list of updates is refused before the sheet is looked at.
pub fn upsert_sheet(sheet: &mut Worksheet, updates: &Vec<UpdateCell>) -> (outcome: Result<
    (),
    UpsertError,
>)
    requires
        sheet_workable(*old(sheet), updates@),
    ensures
        sheet_upserted(*old(sheet), *final(sheet), updates@, outcome),
{
    if updates.len() == 0 {
        return Err(UpsertError::EmptyUpdateSet);
    }
    match find_row(sheet, updates[0].value.as_str()) {
        Some(row) => {
            update_row(sheet, row, updates);
        },
        None => {
            append_row(sheet, updates);
        },
    }
    Ok(())
}

/// The upsert on a sheet of which nothing is known beforehand. It tests
/// what `upsert_sheet` takes for granted and then does what `upsert_sheet`
/// does. `None` comes back, and the sheet is untouched, exactly where the
/// upsert cannot be attempted: where an update names column 0, where the
/// sheet is not in order, where a cell of the key column is not `showable`,
/// or where a row is to be appended and the sheet has no room for it.
pub fn try_upsert_sheet(sheet: &mut Worksheet, updates: &Vec<UpdateCell>) -> (outcome: Option<
    Result<(), UpsertError>,
>)
    ensures
        match outcome {
            Some(result) => sheet_workable(*old(sheet), updates@) && sheet_upserted(
                *old(sheet),
                *final(sheet),
                updates@,
                result,
            ),
            None => !sheet_workable(*old(sheet), updates@) && *final(sheet) == *old(sheet),
        },
{
    if !updates_valid(updates) || !sheet_sound(sheet) || !key_column_shown(sheet) {
        return None;
    }
    if updates.len() == 0 {
        return Some(Err(UpsertError::EmptyUpdateSet));
    }
    match find_row(sheet, updates[0].value.as_str()) {
        Some(row) => {
            update_row(sheet, row, updates);
        },
        None => {
            if highest_row(sheet) == u32::MAX {
                return None;
            }
            append_row(sheet, updates);
        },
    }
    Some(Ok(()))
}

/// The upsert on a workbook held in memory, all of whose sheets are read:
/// in the first sheet titled `sheet_name`, the row whose column 1 shows the
/// text of the first update is overwritten, or a row is appended where no
/// row shows it.
///
/// `SheetNotFound` comes back exactly where the workbook has no sheet of
/// that title, and `EmptyUpdateSet` exactly where it has one and `updates`
/// is empty; in both cases the workbook's sheets are as they were.
pub fn upsert_row(book: &mut Spreadsheet, sheet_name: &str, updates: &Vec<UpdateCell>) -> (outcome:
    Result<(), UpsertError>)
    requires
        book_read(*old(book)),
        workable(*old(book), sheet_name@, updates@),
    ensures
        book_upserted(*old(book), *final(book), sheet_name@, updates@, outcome),
        book_read(*final(book)),
{
    let ghost sheets = book_sheets(*book);
    match sheet_by_name_mut(book, sheet_name) {
        Some(sheet) => {
            let ghost lent = *sheet;
            let outcome = upsert_sheet(sheet, updates);
            proof {
                let i = choose|i: int|
                    #![trigger sheets[i]]
                    first_titled(sheets, sheet_name@, i) && lent == sheets[i] && book_sheets(*book)
                        == sheets.update(i, *sheet);
                assert(book_sheets(*book)[i] == *sheet);
                if outcome is Err {
                    assert(book_sheets(*book) =~= sheets);
                }
                assert forall|j: int| 0 <= j < book_sheets(*book).len() implies sheet_read(
                    #[trigger] book_sheets(*book)[j],
                ) by {
                    assert(sheet_read(sheets[j]));
                }
            }
            outcome
        },
        None => Err(UpsertError::SheetNotFound),
    }
}

/// The upsert on a workbook of which no more is known than that its sheets
/// are read. It tests what else `upsert_row` takes for granted and then
/// does what `upsert_row` does. `None` comes back, and the workbook's
/// sheets are as they were, exactly where the upsert cannot be attempted:
/// where an update names column 0, or where the sheet to work on is not in
/// order, holds in its key column a cell that is not `showable`, or is to
/// get a row and has no room for it.
///
/// That the sheets are read cannot be tested from outside the workbook: it
/// is so of a workbook that `umya_spreadsheet::reader::xlsx::read` returned
/// or `umya_spreadsheet::new_file` made.
pub fn try_upsert_row(book: &mut Spreadsheet, sheet_name: &str, updates: &Vec<UpdateCell>) -> (outcome:
    Option<Result<(), UpsertError>>)
    requires
        book_read(*old(book)),
    ensures
        match outcome {
            Some(result) => workable(*old(book), sheet_name@, updates@) && book_upserted(
                *old(book),
                *final(book),
                sheet_name@,
                updates@,
                result,
            ),
            None => !workable(*old(book), sheet_name@, updates@) && book_sheets(*final(book))
                == book_sheets(*old(book)),
        },
        book_read(*final(book)),
{
    let ghost sheets = book_sheets(*book);
    match sheet_by_name_mut(book, sheet_name) {
        Some(sheet) => {
            let ghost lent = *sheet;
            let outcome = try_upsert_sheet(sheet, updates);
            proof {
                let i = choose|i: int|
                    #![trigger sheets[i]]
                    first_titled(sheets, sheet_name@, i) && lent == sheets[i] && book_sheets(*book)
                        == sheets.update(i, *sheet);
                assert(book_sheets(*book)[i] == *sheet);
                if !(outcome matches Some(Ok(_))) {
                    assert(book_sheets(*book) =~= sheets);
                }
                assert forall|j: int| first_titled(sheets, sheet_name@, j) implies i == j by {
                    if j < i {
                    } else if i < j {
                    }
                }
                assert forall|j: int| 0 <= j < book_sheets(*book).len() implies sheet_read(
                    #[trigger] book_sheets(*book)[j],
                ) by {
                    assert(sheet_read(sheets[j]));
                }
            }
            outcome
        },
        None => {
            if updates_valid(updates) {
                Some(Err(UpsertError::SheetNotFound))
            } else {
                None
            }
        },
    }
}

} // verus!
