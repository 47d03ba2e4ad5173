//! The spreadsheet document as the upsert engine sees it.
//!
//! The document itself is `umya_spreadsheet`'s: a `Spreadsheet` owns its
//! `Worksheet`s, and a worksheet owns its cells. Verus cannot look inside
//! either, so this module gives their contents names and states, for each
//! method the engine calls, what the method does to those contents. Nothing
//! in this file is proved: every function with a body is one call into
//! `umya_spreadsheet`, and its contract is taken from that crate's source.
//!
//! `umya_spreadsheet` gives up on some documents: on a number format that it
//! cannot apply, and on a sheet whose reading was put off and that it cannot
//! parse. The contracts leave those out: a cell is formatted only where it
//! is `showable`, and a sheet is asked for only in a workbook whose sheets
//! are read.

use umya_spreadsheet::Spreadsheet;
use umya_spreadsheet::Style;
use umya_spreadsheet::Worksheet;
use vstd::prelude::*;
use vstd::utf8::encode_utf8;

verus! {

/// `umya_spreadsheet::Worksheet`, one sheet of a workbook, taken as it is.
#[verifier::external_type_specification]
#[verifier::external_body]
pub struct ExWorksheet(Worksheet);

/// `umya_spreadsheet::Spreadsheet`, the workbook, taken as it is.
#[verifier::external_type_specification]
#[verifier::external_body]
pub struct ExSpreadsheet(Spreadsheet);

/// `umya_spreadsheet::Style`, the style of a cell, taken as it is: the
/// engine copies styles and never looks into one.
#[verifier::external_type_specification]
#[verifier::external_body]
pub struct ExStyle(Style);

/// What one stored cell holds: the `(column, row)` that the cell itself
/// carries, the text of its value, the text of its formula if it has one,
/// and its style.
pub struct CellView {
    pub at: (u32, u32),
    pub value: Seq<char>,
    pub formula: Option<Seq<char>>,
    pub style: Style,
}

/// The cells of a sheet, keyed by `(column, row)`.
pub type Grid = Map<(u32, u32), CellView>;

/// The cells that a worksheet stores, each under its `(column, row)`.
pub uninterp spec fn sheet_cells(sheet: Worksheet) -> Map<(u32, u32), CellView>;

/// The highest `(column, row)` that a worksheet reports; `(0, 0)` for a
/// worksheet without cells.
pub uninterp spec fn sheet_bounds(sheet: Worksheet) -> (u32, u32);

/// The style that a worksheet reports for a coordinate at which it stores no
/// cell.
pub uninterp spec fn sheet_blank_style(sheet: Worksheet) -> Style;

/// The style that `umya_spreadsheet` gives a cell which it makes in a
/// worksheet, for every coordinate: the style of the row's or the column's
/// own settings where they carry one.
pub uninterp spec fn sheet_new_style(sheet: Worksheet) -> Map<(u32, u32), Style>;

/// The title of a worksheet.
pub uninterp spec fn sheet_title(sheet: Worksheet) -> Seq<char>;

/// Whether a worksheet has been read: whether it holds its cells, and not
/// the unparsed part of the file that they are to be read from.
pub uninterp spec fn sheet_read(sheet: Worksheet) -> bool;

/// The worksheets of a workbook, in workbook order.
pub uninterp spec fn book_sheets(book: Spreadsheet) -> Seq<Worksheet>;

/// The code of the number format that a style carries, if it carries one.
pub uninterp spec fn style_format(style: Style) -> Option<Seq<char>>;

/// The text that `umya_spreadsheet` displays for a cell with this value text
/// and this style.
pub uninterp spec fn shown_text(value: Seq<char>, style: Style) -> Seq<char>;

/// The value text that a cell holds after `umya_spreadsheet` has stored
/// `input` in it as a value.
pub uninterp spec fn typed_text(input: Seq<char>) -> Seq<char>;

/// The text displayed at a coordinate: that of the cell stored there, and
/// the empty text where no cell is stored.
pub open spec fn shown_at(cells: Grid, col: u32, row: u32) -> Seq<char> {
    if cells.contains_key((col, row)) {
        shown_text(cells[(col, row)].value, cells[(col, row)].style)
    } else {
        Seq::empty()
    }
}

/// The formula at a coordinate, if a cell is stored there and holds one.
pub open spec fn formula_at(cells: Grid, col: u32, row: u32) -> Option<Seq<char>> {
    if cells.contains_key((col, row)) {
        cells[(col, row)].formula
    } else {
        None
    }
}

/// The style at a coordinate: that of the cell stored there, and `blank`
/// where no cell is stored.
pub open spec fn style_at(cells: Grid, blank: Style, col: u32, row: u32) -> Style {
    if cells.contains_key((col, row)) {
        cells[(col, row)].style
    } else {
        blank
    }
}

/// The style of the cell at a coordinate once the cell has been asked for:
/// its own where a cell was stored there, and the style `fresh` has for the
/// coordinate where the cell is made.
pub open spec fn style_made(cells: Grid, fresh: Map<(u32, u32), Style>, col: u32, row: u32) -> Style {
    if cells.contains_key((col, row)) {
        cells[(col, row)].style
    } else {
        fresh[(col, row)]
    }
}

/// The larger of two indices.
pub open spec fn larger(a: u32, b: u32) -> u32 {
    if a >= b {
        a
    } else {
        b
    }
}

/// The bounds after a cell has been asked for at `(col, row)`: they grow to
/// take the coordinate in where no cell was stored there, and stay as they
/// are where one was.
pub open spec fn grown(bounds: (u32, u32), cells: Grid, col: u32, row: u32) -> (u32, u32) {
    if cells.contains_key((col, row)) {
        bounds
    } else {
        (larger(bounds.0, col), larger(bounds.1, row))
    }
}

/// Bounds that are those of the cells: no cell lies beyond them, and a cell
/// lies in the highest column and one in the highest row.
pub open spec fn bounds_exact(cells: Grid, bounds: (u32, u32)) -> bool {
    &&& forall|k: (u32, u32)| #[trigger] cells.contains_key(k) ==> k.0 <= bounds.0 && k.1 <= bounds.1
    &&& bounds.0 > 0 ==> exists|r: u32| #[trigger] cells.contains_key((bounds.0, r))
    &&& bounds.1 > 0 ==> exists|c: u32| #[trigger] cells.contains_key((c, bounds.1))
}

/// Cells that are stored where they say they are: each under the
/// coordinate that it carries.
pub open spec fn cells_aligned(cells: Grid) -> bool {
    forall|k: (u32, u32)| #[trigger] cells.contains_key(k) ==> cells[k].at == k
}

/// A worksheet in order: its reported bounds are those of its cells, and
/// its cells are stored where they say they are. A worksheet is so when
/// `umya_spreadsheet` has read it, and stays so under the functions of this
/// module; `sheet_sound` tests it.
pub open spec fn sheet_wf(sheet: Worksheet) -> bool {
    &&& bounds_exact(sheet_cells(sheet), sheet_bounds(sheet))
    &&& cells_aligned(sheet_cells(sheet))
}

/// The coordinate that the cell at `(col, row)` carries once it has been
/// asked for: its own where a cell was stored there, and `(col, row)` where
/// the cell is made.
pub open spec fn place_at(cells: Grid, col: u32, row: u32) -> (u32, u32) {
    if cells.contains_key((col, row)) {
        cells[(col, row)].at
    } else {
        (col, row)
    }
}

/// The value text at a coordinate: that of the cell stored there, and the
/// empty text where no cell is stored.
pub open spec fn value_at(cells: Grid, col: u32, row: u32) -> Seq<char> {
    if cells.contains_key((col, row)) {
        cells[(col, row)].value
    } else {
        Seq::empty()
    }
}

/// A text that is surely no number: it holds no digit, and it is none of
/// the words for infinity and not-a-number that Rust reads as a float,
/// which are at most nine bytes long and begin with a sign, an `i` or an
/// `n`.
pub open spec fn surely_text(bytes: Seq<u8>) -> bool {
    &&& forall|i: int| 0 <= i < bytes.len() ==> !(48 <= #[trigger] bytes[i] <= 57)
    &&& bytes.len() > 0
    &&& bytes.len() > 9 || !(bytes[0] == 43 || bytes[0] == 45 || bytes[0] == 73 || bytes[0] == 105
        || bytes[0] == 78 || bytes[0] == 110)
}

/// Whether `umya_spreadsheet` displays a cell of this value text and this
/// format code without more ado: an empty cell, a cell whose value is
/// surely no number, and any cell without a number format or with the
/// general or the text format, is displayed as it is. Other formats are
/// applied to numbers by rules of which some give up.
pub open spec fn showable(value: Seq<char>, code: Option<Seq<char>>) -> bool {
    ||| value.len() == 0
    ||| surely_text(encode_utf8(value))
    ||| code is None
    ||| code == Some("General"@)
    ||| code == Some("@"@)
}

/// Whether the cell at a coordinate, if one is stored there, is `showable`.
pub open spec fn showable_at(cells: Grid, col: u32, row: u32) -> bool {
    cells.contains_key((col, row)) ==> showable(
        cells[(col, row)].value,
        style_format(cells[(col, row)].style),
    )
}

/// A workbook whose sheets are all read. A workbook is so when
/// `umya_spreadsheet::reader::xlsx::read` has returned it or
/// `umya_spreadsheet::new_file` has made it (not when `lazy_read` has), and
/// stays so under the functions of this crate.
pub open spec fn book_read(book: Spreadsheet) -> bool {
    forall|i: int| 0 <= i < book_sheets(book).len() ==> sheet_read(#[trigger] book_sheets(book)[i])
}

/// Whether `i` is the place of the first worksheet titled `name`.
pub open spec fn first_titled(sheets: Seq<Worksheet>, name: Seq<char>, i: int) -> bool {
    &&& 0 <= i < sheets.len()
    &&& sheet_title(sheets[i]) == name
    &&& forall|j: int| 0 <= j < i ==> sheet_title(#[trigger] sheets[j]) != name
}

/// Whether some worksheet is titled `name`.
pub open spec fn has_title(sheets: Seq<Worksheet>, name: Seq<char>) -> bool {
    exists|i: int| 0 <= i < sheets.len() && sheet_title(#[trigger] sheets[i]) == name
}

/// Calls `Spreadsheet::get_sheet_by_name_mut`, on a workbook whose sheets are
/// read, so that nothing is left for the call to parse. It looks for the
/// first worksheet whose title is `name` and lends it out. The contract
/// claims: `None` exactly where no worksheet has that title, the workbook
/// then being untouched; otherwise the worksheet lent is the first with that
/// title, and whatever it becomes takes its place in the workbook.
#[verifier::external_body]
pub(crate) fn sheet_by_name_mut<'a>(book: &'a mut Spreadsheet, name: &str) -> (found: Option<
    &'a mut Worksheet,
>)
    requires
        book_read(*old(book)),
    ensures
        found is None <==> !has_title(book_sheets(*old(book)), name@),
        found is None ==> *final(book) == *old(book),
        found matches Some(sheet) ==> sheet_title(*sheet) == name@ && sheet_read(*sheet),
        match found {
            Some(sheet) => exists|i: int|
                #![trigger book_sheets(*old(book))[i]]
                first_titled(book_sheets(*old(book)), name@, i) && *sheet == book_sheets(
                    *old(book),
                )[i] && book_sheets(*final(book)) == book_sheets(*old(book)).update(
                    i,
                    *final(sheet),
                ),
            None => true,
        },
{
    book.get_sheet_by_name_mut(name)
}

/// Calls `Worksheet::get_collection_to_hashmap` and walks the map, for each
/// entry handing out the coordinate it is stored under and the coordinate
/// that the cell carries. The map is walked in no fixed order, and of the
/// order nothing is claimed: every stored cell is in the list, and the list
/// holds stored cells only.
#[verifier::external_body]
pub(crate) fn stored_places(sheet: &Worksheet) -> (list: Vec<((u32, u32), (u32, u32))>)
    ensures
        forall|k: (u32, u32)| #[trigger]
            sheet_cells(*sheet).contains_key(k) ==> exists|i: int|
                0 <= i < list@.len() && (#[trigger] list@[i]).0 == k,
        forall|i: int|
            0 <= i < list@.len() ==> sheet_cells(*sheet).contains_key((#[trigger] list@[i]).0)
                && sheet_cells(*sheet)[list@[i].0].at == list@[i].1,
{
    sheet.get_collection_to_hashmap().iter().map(
        |(key, cell)|
            (
                (key.1, key.0),
                (*cell.get_coordinate().get_col_num(), *cell.get_coordinate().get_row_num()),
            ),
    ).collect()
}

/// Calls `Worksheet::get_highest_row`: the highest row that the worksheet
/// reports.
#[verifier::external_body]
pub(crate) fn highest_row(sheet: &Worksheet) -> (row: u32)
    ensures
        row == sheet_bounds(*sheet).1,
{
    sheet.get_highest_row()
}

/// Calls `Worksheet::get_highest_column`: the highest column that the
/// worksheet reports.
#[verifier::external_body]
pub(crate) fn highest_column(sheet: &Worksheet) -> (col: u32)
    ensures
        col == sheet_bounds(*sheet).0,
{
    sheet.get_highest_column()
}

/// Calls `Worksheet::get_value`: the value text of the cell at the
/// coordinate, and the empty text where no cell is stored.
#[verifier::external_body]
pub(crate) fn value_text(sheet: &Worksheet, col: u32, row: u32) -> (text: String)
    ensures
        text@ == value_at(sheet_cells(*sheet), col, row),
{
    sheet.get_value((col, row))
}

/// Calls `Worksheet::get_style`, `Style::get_number_format` and
/// `NumberingFormat::get_format_code`: the code of the number format in the
/// style of the cell at the coordinate (in the worksheet's blank style where
/// no cell is stored), and `None` where the style has no number format.
#[verifier::external_body]
pub(crate) fn format_code(sheet: &Worksheet, col: u32, row: u32) -> (code: Option<String>)
    ensures
        match code {
            Some(text) => style_format(
                style_at(sheet_cells(*sheet), sheet_blank_style(*sheet), col, row),
            ) == Some(text@),
            None => style_format(
                style_at(sheet_cells(*sheet), sheet_blank_style(*sheet), col, row),
            ) is None,
        },
{
    sheet.get_style((col, row)).get_number_format().map(|format| format.get_format_code().to_string())
}

/// Calls `Worksheet::get_formatted_value` on a coordinate whose cell, if one
/// is stored there, is `showable`: the cell's value text put through the
/// number format of the cell's style, and the empty text where no cell is
/// stored. The contract names the formatted text.
#[verifier::external_body]
pub(crate) fn formatted_value(sheet: &Worksheet, col: u32, row: u32) -> (text: String)
    requires
        showable_at(sheet_cells(*sheet), col, row),
    ensures
        text@ == (if sheet_cells(*sheet).contains_key((col, row)) {
            shown_text(sheet_cells(*sheet)[(col, row)].value, sheet_cells(*sheet)[(col, row)].style)
        } else {
            Seq::empty()
        }),
{
    sheet.get_formatted_value((col, row))
}

/// Calls `Worksheet::get_cell` and `Cell::is_formula`: whether a cell is
/// stored at the coordinate and holds a formula.
#[verifier::external_body]
pub(crate) fn has_formula(sheet: &Worksheet, col: u32, row: u32) -> (held: bool)
    ensures
        held == (formula_at(sheet_cells(*sheet), col, row) is Some),
{
    match sheet.get_cell((col, row)) {
        Some(cell) => cell.is_formula(),
        None => false,
    }
}

/// Calls `Worksheet::get_cell` and `Cell::get_formula`: the formula text of
/// the cell at the coordinate, and the empty text where there is no cell or
/// no formula.
#[verifier::external_body]
pub(crate) fn formula_text(sheet: &Worksheet, col: u32, row: u32) -> (text: String)
    ensures
        text@ == (match formula_at(sheet_cells(*sheet), col, row) {
            Some(formula) => formula,
            None => Seq::empty(),
        }),
{
    match sheet.get_cell((col, row)) {
        Some(cell) => cell.get_formula().to_string(),
        None => String::new(),
    }
}

/// Calls `Worksheet::get_style` and clones what it lends: the style of the
/// cell at the coordinate, and the worksheet's blank style where no cell is
/// stored.
#[verifier::external_body]
pub(crate) fn cell_style(sheet: &Worksheet, col: u32, row: u32) -> (style: Style)
    ensures
        style == style_at(sheet_cells(*sheet), sheet_blank_style(*sheet), col, row),
{
    sheet.get_style((col, row)).clone()
}

/// Calls `Worksheet::get_cell_mut` and `Cell::set_value`. The cell is made
/// if none is stored at the coordinate, and the bounds grow to take it in;
/// the value is stored as `umya_spreadsheet` types it, and a formula that
/// the cell held is dropped. A cell that was there keeps its style, and a
/// cell made here has the style of the row's or the column's settings.
/// Every other cell stays as it is, and so do the blank style, the styles
/// for cells yet to be made, and the title.
#[verifier::external_body]
pub(crate) fn set_cell_value(sheet: &mut Worksheet, col: u32, row: u32, value: &str)
    ensures
        sheet_cells(*final(sheet)) == sheet_cells(*old(sheet)).insert(
            (col, row),
            (CellView {
                at: place_at(sheet_cells(*old(sheet)), col, row),
                value: typed_text(value@),
                formula: None,
                style: style_made(
                    sheet_cells(*old(sheet)),
                    sheet_new_style(*old(sheet)),
                    col,
                    row,
                ),
            }),
        ),
        sheet_bounds(*final(sheet)) == grown(
            sheet_bounds(*old(sheet)),
            sheet_cells(*old(sheet)),
            col,
            row,
        ),
        sheet_blank_style(*final(sheet)) == sheet_blank_style(*old(sheet)),
        sheet_new_style(*final(sheet)) == sheet_new_style(*old(sheet)),
        sheet_title(*final(sheet)) == sheet_title(*old(sheet)),
        sheet_read(*final(sheet)) == sheet_read(*old(sheet)),
{
    sheet.get_cell_mut((col, row)).set_value(value);
}

/// Calls `Worksheet::set_style`. The cell is made if none is stored at the
/// coordinate, empty and without a formula, and the bounds grow to take it
/// in; its style becomes `style`. Every other cell stays as it is, and so
/// do the blank style, the styles for cells yet to be made, and the title.
#[verifier::external_body]
pub(crate) fn set_cell_style(sheet: &mut Worksheet, col: u32, row: u32, style: Style)
    ensures
        sheet_cells(*final(sheet)) == sheet_cells(*old(sheet)).insert(
            (col, row),
            (CellView {
                at: place_at(sheet_cells(*old(sheet)), col, row),
                value: value_at(sheet_cells(*old(sheet)), col, row),
                formula: formula_at(sheet_cells(*old(sheet)), col, row),
                style: style,
            }),
        ),
        sheet_bounds(*final(sheet)) == grown(
            sheet_bounds(*old(sheet)),
            sheet_cells(*old(sheet)),
            col,
            row,
        ),
        sheet_blank_style(*final(sheet)) == sheet_blank_style(*old(sheet)),
        sheet_new_style(*final(sheet)) == sheet_new_style(*old(sheet)),
        sheet_title(*final(sheet)) == sheet_title(*old(sheet)),
        sheet_read(*final(sheet)) == sheet_read(*old(sheet)),
{
    sheet.set_style((col, row), style);
}

/// Calls `Worksheet::get_cell_mut` and `Cell::set_formula`. The cell is made
/// if none is stored at the coordinate, and the bounds grow to take it in;
/// its formula becomes `formula`, and its value stays (empty, in a cell made
/// here). A cell that was there keeps its style, and a cell made here has
/// the style of the row's or the column's settings. Every other cell stays
/// as it is, and so do the blank style, the styles for cells yet to be made,
/// and the title.
#[verifier::external_body]
pub(crate) fn set_cell_formula(sheet: &mut Worksheet, col: u32, row: u32, formula: &str)
    ensures
        sheet_cells(*final(sheet)) == sheet_cells(*old(sheet)).insert(
            (col, row),
            (CellView {
                at: place_at(sheet_cells(*old(sheet)), col, row),
                value: value_at(sheet_cells(*old(sheet)), col, row),
                formula: Some(formula@),
                style: style_made(
                    sheet_cells(*old(sheet)),
                    sheet_new_style(*old(sheet)),
                    col,
                    row,
                ),
            }),
        ),
        sheet_bounds(*final(sheet)) == grown(
            sheet_bounds(*old(sheet)),
            sheet_cells(*old(sheet)),
            col,
            row,
        ),
        sheet_blank_style(*final(sheet)) == sheet_blank_style(*old(sheet)),
        sheet_new_style(*final(sheet)) == sheet_new_style(*old(sheet)),
        sheet_title(*final(sheet)) == sheet_title(*old(sheet)),
        sheet_read(*final(sheet)) == sheet_read(*old(sheet)),
{
    sheet.get_cell_mut((col, row)).set_formula(formula);
}

} // verus!
