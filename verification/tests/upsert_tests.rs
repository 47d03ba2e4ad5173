use rust_calamine::update::loaded;
use rust_calamine::update::names_column;
use rust_calamine::update::persisted;
use rust_calamine::run::first_stage;
use rust_calamine::run::next_step;
use rust_calamine::run::source_checked;
use rust_calamine::run::Action;
use rust_calamine::run::Stage;
use rust_calamine::update::updates_valid;
use rust_calamine::upsert::append_row;
use rust_calamine::upsert::find_row;
use rust_calamine::upsert::formula_carryovers;
use rust_calamine::upsert::key_column_shown;
use rust_calamine::upsert::sheet_sound;
use rust_calamine::upsert::text_for_sure;
use rust_calamine::upsert::try_upsert_row;
use rust_calamine::upsert::try_upsert_sheet;
use rust_calamine::upsert::update_row;
use rust_calamine::upsert::upsert_sheet;
use rust_calamine::upsert_row;
use rust_calamine::UpdateCell;
use rust_calamine::UpsertError;
use umya_spreadsheet::Spreadsheet;
use umya_spreadsheet::Worksheet;
use umya_spreadsheet::XlsxError;

fn cell(col: u32, value: &str) -> UpdateCell {
    UpdateCell::new(col, value.to_string())
}

/// Rows 1 to 3: a header, then two people with a total in column 3.
fn people() -> Spreadsheet {
    let mut book = umya_spreadsheet::new_file();
    let sheet = book.get_sheet_by_name_mut("Sheet1").unwrap();
    sheet.get_cell_mut((1, 1)).set_value("Name");
    sheet.get_cell_mut((2, 1)).set_value("Score");
    sheet.get_cell_mut((3, 1)).set_value("Double");
    sheet.get_cell_mut((1, 2)).set_value("Alice");
    sheet.get_cell_mut((2, 2)).set_value("10");
    sheet.get_cell_mut((3, 2)).set_formula("B2*2");
    sheet.get_cell_mut((1, 3)).set_value("Bob");
    sheet.get_cell_mut((2, 3)).set_value("20");
    sheet.get_cell_mut((3, 3)).set_formula("B3*2");
    sheet
        .get_style_mut((1, 3))
        .set_background_color("FFFFFF00");
    sheet.get_style_mut((2, 3)).get_font_mut().set_bold(true);
    sheet
        .get_style_mut((3, 3))
        .get_number_format_mut()
        .set_format_code("0.00");
    book
}

fn sheet_of(book: &Spreadsheet) -> &Worksheet {
    book.get_sheet_by_name("Sheet1").unwrap()
}

fn snapshot(sheet: &Worksheet) -> Vec<(u32, u32, String, String, umya_spreadsheet::Style)> {
    let mut cells = Vec::new();
    for cell in sheet.get_cell_collection_sorted() {
        cells.push((
            *cell.get_coordinate().get_col_num(),
            *cell.get_coordinate().get_row_num(),
            cell.get_value().to_string(),
            cell.get_formula().to_string(),
            cell.get_style().clone(),
        ));
    }
    cells
}

#[test]
fn unknown_sheet_is_refused() {
    let mut book = people();
    let before = snapshot(sheet_of(&book));
    let outcome = upsert_row(&mut book, "Nowhere", &vec![cell(1, "Alice")]);
    assert_eq!(outcome, Err(UpsertError::SheetNotFound));
    assert_eq!(snapshot(sheet_of(&book)), before);
}

#[test]
fn empty_update_list_is_refused() {
    let mut book = people();
    let before = snapshot(sheet_of(&book));
    let outcome = upsert_row(&mut book, "Sheet1", &Vec::new());
    assert_eq!(outcome, Err(UpsertError::EmptyUpdateSet));
    assert_eq!(snapshot(sheet_of(&book)), before);
}

#[test]
fn unknown_sheet_comes_before_empty_update_list() {
    let mut book = people();
    let outcome = upsert_row(&mut book, "Nowhere", &Vec::new());
    assert_eq!(outcome, Err(UpsertError::SheetNotFound));
}

#[test]
fn missing_source_is_file_not_found() {
    assert_eq!(source_checked(false), Err(UpsertError::FileNotFound));
    assert_eq!(source_checked(true), Ok(()));
}

#[test]
fn unreadable_source_is_load_error() {
    let outcome = loaded(Err(XlsxError::CellError("broken".to_string())));
    assert!(matches!(outcome, Err(UpsertError::LoadError)));
    let outcome = loaded(Ok(people()));
    assert!(outcome.is_ok());
    assert_eq!(sheet_of(&outcome.unwrap()).get_value((1, 2)), "Alice");
}

#[test]
fn failed_write_is_persist_error() {
    let outcome = persisted(Err(XlsxError::CellError("full".to_string())));
    assert_eq!(outcome, Err(UpsertError::PersistError));
    assert_eq!(persisted(Ok(())), Ok(()));
}

#[test]
fn update_cell_keeps_what_it_is_given() {
    let update = UpdateCell::new(4, "x".to_string());
    assert_eq!(update.cell, 4);
    assert_eq!(update.value, "x");
}

#[test]
fn columns_start_at_one() {
    assert!(updates_valid(&vec![cell(1, "a"), cell(16384, "b")]));
    assert!(updates_valid(&Vec::new()));
    assert!(!updates_valid(&vec![cell(1, "a"), cell(0, "b")]));
}

#[test]
fn names_column_looks_through_the_updates() {
    let updates = vec![cell(1, "a"), cell(3, "b")];
    assert!(names_column(&updates, 1));
    assert!(names_column(&updates, 3));
    assert!(!names_column(&updates, 2));
    assert!(!names_column(&Vec::new(), 1));
}

#[test]
fn find_row_takes_the_first_row_showing_the_key() {
    let mut book = people();
    {
        let sheet = book.get_sheet_by_name_mut("Sheet1").unwrap();
        sheet.get_cell_mut((1, 4)).set_value("Alice");
    }
    let sheet = sheet_of(&book);
    assert_eq!(find_row(sheet, "Alice"), Some(2));
    assert_eq!(find_row(sheet, "Bob"), Some(3));
    assert_eq!(find_row(sheet, "Name"), Some(1));
    assert_eq!(find_row(sheet, "Carol"), None);
    assert_eq!(find_row(sheet, "alice"), None);
}

#[test]
fn find_row_reads_column_one_only() {
    let book = people();
    assert_eq!(find_row(sheet_of(&book), "Score"), None);
    assert_eq!(find_row(sheet_of(&book), "20"), None);
}


#[test]
fn find_row_on_an_empty_sheet_finds_nothing() {
    let book = umya_spreadsheet::new_file();
    assert_eq!(find_row(sheet_of(&book), "Alice"), None);
    assert_eq!(find_row(sheet_of(&book), ""), None);
}

#[test]
fn match_overwrites_the_cells_in_place() {
    let mut book = people();
    let updates = vec![cell(1, "Alice"), cell(2, "11"), cell(5, "new")];
    assert_eq!(upsert_row(&mut book, "Sheet1", &updates), Ok(()));
    let sheet = sheet_of(&book);
    assert_eq!(sheet.get_highest_row(), 3);
    assert_eq!(sheet.get_value((1, 2)), "Alice");
    assert_eq!(sheet.get_value((2, 2)), "11");
    assert_eq!(sheet.get_value((5, 2)), "new");
    assert_eq!(sheet.get_cell((3, 2)).unwrap().get_formula(), "B2*2");
    assert_eq!(sheet.get_value((1, 3)), "Bob");
    assert_eq!(sheet.get_value((2, 3)), "20");
    assert_eq!(sheet.get_highest_column(), 5);
}

#[test]
fn match_keeps_the_style_of_the_cells_it_overwrites() {
    let mut book = people();
    let style_before = sheet_of(&book).get_style((2, 3)).clone();
    let updates = vec![cell(1, "Bob"), cell(2, "21")];
    assert_eq!(upsert_row(&mut book, "Sheet1", &updates), Ok(()));
    let sheet = sheet_of(&book);
    assert_eq!(sheet.get_value((2, 3)), "21");
    assert_eq!(sheet.get_style((2, 3)), &style_before);
    assert!(sheet.get_style((2, 3)).get_font().unwrap().get_bold());
}

#[test]
fn match_drops_a_formula_that_an_update_overwrites() {
    let mut book = people();
    let updates = vec![cell(1, "Alice"), cell(3, "99")];
    assert_eq!(upsert_row(&mut book, "Sheet1", &updates), Ok(()));
    let sheet = sheet_of(&book);
    assert!(!sheet.get_cell((3, 2)).unwrap().is_formula());
    assert_eq!(sheet.get_value((3, 2)), "99");
}

#[test]
fn later_update_of_a_column_wins() {
    let mut book = people();
    let updates = vec![cell(1, "Alice"), cell(2, "1"), cell(2, "2")];
    assert_eq!(upsert_row(&mut book, "Sheet1", &updates), Ok(()));
    assert_eq!(sheet_of(&book).get_value((2, 2)), "2");
}

#[test]
fn first_of_two_rows_with_the_key_is_overwritten() {
    let mut book = people();
    {
        let sheet = book.get_sheet_by_name_mut("Sheet1").unwrap();
        sheet.get_cell_mut((1, 4)).set_value("Alice");
        sheet.get_cell_mut((2, 4)).set_value("40");
    }
    let updates = vec![cell(1, "Alice"), cell(2, "12")];
    assert_eq!(upsert_row(&mut book, "Sheet1", &updates), Ok(()));
    let sheet = sheet_of(&book);
    assert_eq!(sheet.get_value((2, 2)), "12");
    assert_eq!(sheet.get_value((2, 4)), "40");
    assert_eq!(sheet.get_highest_row(), 4);
}

#[test]
fn key_is_matched_in_column_one_whatever_the_first_update_names() {
    let mut book = people();
    let updates = vec![cell(2, "Bob")];
    assert_eq!(upsert_row(&mut book, "Sheet1", &updates), Ok(()));
    let sheet = sheet_of(&book);
    assert_eq!(sheet.get_highest_row(), 3);
    assert_eq!(sheet.get_value((1, 3)), "Bob");
    assert_eq!(sheet.get_value((2, 3)), "Bob");
}

#[test]
fn same_upsert_twice_changes_nothing_more() {
    let mut book = people();
    let updates = vec![cell(1, "Alice"), cell(2, "11"), cell(4, "x")];
    assert_eq!(upsert_row(&mut book, "Sheet1", &updates), Ok(()));
    let once = snapshot(sheet_of(&book));
    let bounds = sheet_of(&book).get_highest_column_and_row();
    assert_eq!(upsert_row(&mut book, "Sheet1", &updates), Ok(()));
    assert_eq!(snapshot(sheet_of(&book)), once);
    assert_eq!(sheet_of(&book).get_highest_column_and_row(), bounds);
}

#[test]
fn appended_row_is_found_by_the_next_upsert() {
    let mut book = people();
    let updates = vec![cell(1, "Carol"), cell(2, "30")];
    assert_eq!(upsert_row(&mut book, "Sheet1", &updates), Ok(()));
    let once = snapshot(sheet_of(&book));
    assert_eq!(sheet_of(&book).get_highest_row(), 4);
    assert_eq!(upsert_row(&mut book, "Sheet1", &updates), Ok(()));
    assert_eq!(sheet_of(&book).get_highest_row(), 4);
    assert_eq!(snapshot(sheet_of(&book)), once);
}

#[test]
fn append_adds_one_row_holding_the_key() {
    let mut book = people();
    let updates = vec![cell(1, "Carol"), cell(2, "30")];
    assert_eq!(upsert_row(&mut book, "Sheet1", &updates), Ok(()));
    let sheet = sheet_of(&book);
    assert_eq!(sheet.get_highest_row(), 4);
    assert_eq!(sheet.get_value((1, 4)), "Carol");
    assert_eq!(sheet.get_value((2, 4)), "30");
    assert_eq!(sheet.get_value((1, 2)), "Alice");
    assert_eq!(sheet.get_value((1, 3)), "Bob");
    assert_eq!(sheet.get_value((2, 3)), "20");
}

#[test]
fn append_takes_the_styles_of_the_row_above() {
    let mut book = people();
    let updates = vec![cell(1, "Carol"), cell(2, "30"), cell(4, "note")];
    assert_eq!(upsert_row(&mut book, "Sheet1", &updates), Ok(()));
    let sheet = sheet_of(&book);
    assert_eq!(sheet.get_style((1, 4)), sheet.get_style((1, 3)));
    assert_eq!(sheet.get_style((2, 4)), sheet.get_style((2, 3)));
    assert_eq!(sheet.get_style((3, 4)), sheet.get_style((3, 3)));
    assert_eq!(sheet.get_style((4, 4)), sheet.get_style((4, 3)));
    assert!(sheet.get_style((2, 4)).get_font().unwrap().get_bold());
    assert_eq!(
        sheet
            .get_style((3, 4))
            .get_number_format()
            .unwrap()
            .get_format_code(),
        "0.00"
    );
    assert_ne!(sheet.get_style((1, 4)), sheet.get_style((2, 4)));
}

#[test]
fn append_carries_the_formula_of_a_column_left_alone() {
    let mut book = people();
    let updates = vec![cell(1, "Carol"), cell(2, "30")];
    assert_eq!(upsert_row(&mut book, "Sheet1", &updates), Ok(()));
    let sheet = sheet_of(&book);
    let carried = sheet.get_cell((3, 4)).unwrap();
    assert!(carried.is_formula());
    assert_eq!(carried.get_formula(), "B4*2");
    assert_eq!(carried.get_value(), "");
    assert_eq!(sheet.get_cell((3, 3)).unwrap().get_formula(), "B3*2");
}

#[test]
fn append_does_not_carry_a_formula_into_a_column_that_is_updated() {
    let mut book = people();
    let updates = vec![cell(1, "Carol"), cell(3, "7")];
    assert_eq!(upsert_row(&mut book, "Sheet1", &updates), Ok(()));
    let sheet = sheet_of(&book);
    let written = sheet.get_cell((3, 4)).unwrap();
    assert!(!written.is_formula());
    assert_eq!(written.get_formula(), "");
    assert_eq!(written.get_value(), "7");
    assert!(sheet.get_cell((2, 4)).is_none());
}

#[test]
fn append_leaves_other_columns_of_the_new_row_empty() {
    let mut book = people();
    let updates = vec![cell(1, "Carol")];
    assert_eq!(upsert_row(&mut book, "Sheet1", &updates), Ok(()));
    let sheet = sheet_of(&book);
    assert!(sheet.get_cell((2, 4)).is_none());
    assert_eq!(sheet.get_value((2, 4)), "");
    assert!(sheet.get_cell((3, 4)).unwrap().is_formula());
}

#[test]
fn append_to_an_empty_sheet_makes_row_one() {
    let mut book = umya_spreadsheet::new_file();
    let updates = vec![cell(1, "Carol"), cell(3, "x")];
    assert_eq!(upsert_row(&mut book, "Sheet1", &updates), Ok(()));
    let sheet = sheet_of(&book);
    assert_eq!(sheet.get_highest_row(), 1);
    assert_eq!(sheet.get_highest_column(), 3);
    assert_eq!(sheet.get_value((1, 1)), "Carol");
    assert_eq!(sheet.get_value((3, 1)), "x");
    assert!(sheet.get_cell((2, 1)).is_none());
    assert!(sheet.get_cell((1, 0)).is_none());
}

#[test]
fn append_without_column_one_leaves_the_key_column_empty() {
    let mut book = people();
    let updates = vec![cell(2, "Carol")];
    assert_eq!(upsert_row(&mut book, "Sheet1", &updates), Ok(()));
    let sheet = sheet_of(&book);
    assert_eq!(sheet.get_highest_row(), 4);
    assert!(sheet.get_cell((1, 4)).is_none());
    assert_eq!(sheet.get_value((2, 4)), "Carol");
}

#[test]
fn stored_text_is_typed_by_the_sheet() {
    let mut book = people();
    let updates = vec![cell(1, "Alice"), cell(2, "1.50"), cell(4, "true")];
    assert_eq!(upsert_row(&mut book, "Sheet1", &updates), Ok(()));
    let sheet = sheet_of(&book);
    assert_eq!(sheet.get_value((2, 2)), "1.5");
    assert_eq!(sheet.get_value((4, 2)), "TRUE");
}


#[test]
fn upsert_works_on_the_sheet_named() {
    let mut book = people();
    book.new_sheet("Other").unwrap();
    let updates = vec![cell(1, "Alice"), cell(2, "5")];
    assert_eq!(upsert_row(&mut book, "Other", &updates), Ok(()));
    let other = book.get_sheet_by_name("Other").unwrap();
    assert_eq!(other.get_highest_row(), 1);
    assert_eq!(other.get_value((1, 1)), "Alice");
    assert_eq!(sheet_of(&book).get_value((2, 2)), "10");
    assert_eq!(sheet_of(&book).get_highest_row(), 3);
}

#[test]
fn upsert_sheet_refuses_an_empty_list() {
    let mut book = people();
    let sheet = book.get_sheet_by_name_mut("Sheet1").unwrap();
    assert_eq!(upsert_sheet(sheet, &Vec::new()), Err(UpsertError::EmptyUpdateSet));
    assert_eq!(sheet.get_highest_row(), 3);
}

#[test]
fn upsert_sheet_overwrites_or_appends() {
    let mut book = people();
    let sheet = book.get_sheet_by_name_mut("Sheet1").unwrap();
    assert_eq!(upsert_sheet(sheet, &vec![cell(1, "Bob"), cell(2, "0")]), Ok(()));
    assert_eq!(sheet.get_highest_row(), 3);
    assert_eq!(sheet.get_value((2, 3)), "0");
    assert_eq!(upsert_sheet(sheet, &vec![cell(1, "Dan"), cell(2, "1")]), Ok(()));
    assert_eq!(sheet.get_highest_row(), 4);
    assert_eq!(sheet.get_value((1, 4)), "Dan");
}

#[test]
fn update_row_writes_the_row_it_is_given() {
    let mut book = people();
    let sheet = book.get_sheet_by_name_mut("Sheet1").unwrap();
    update_row(sheet, 2, &vec![cell(2, "77"), cell(6, "far")]);
    assert_eq!(sheet.get_value((2, 2)), "77");
    assert_eq!(sheet.get_value((6, 2)), "far");
    assert_eq!(sheet.get_value((1, 2)), "Alice");
    assert_eq!(sheet.get_highest_column_and_row(), (6, 3));
}

#[test]
fn append_row_returns_the_row_it_added() {
    let mut book = people();
    let sheet = book.get_sheet_by_name_mut("Sheet1").unwrap();
    assert_eq!(append_row(sheet, &vec![cell(1, "Eve")]), 4);
    assert_eq!(append_row(sheet, &vec![cell(1, "Fay")]), 5);
    assert_eq!(sheet.get_value((1, 5)), "Fay");
    assert_eq!(sheet.get_cell((3, 5)).unwrap().get_formula(), "B5*2");
}

#[test]
fn formula_carryovers_lists_the_columns_left_alone() {
    let mut book = people();
    {
        let sheet = book.get_sheet_by_name_mut("Sheet1").unwrap();
        sheet.get_cell_mut((5, 3)).set_formula("A3&B3");
    }
    let sheet = sheet_of(&book);
    let list = formula_carryovers(sheet, &vec![cell(1, "x"), cell(2, "y")], 3);
    assert_eq!(list.len(), 2);
    assert_eq!(list[0].column, 3);
    assert_eq!(list[0].formula, "B3*2");
    assert_eq!(list[1].column, 5);
    assert_eq!(list[1].formula, "A3&B3");
    let list = formula_carryovers(sheet, &vec![cell(3, "x")], 3);
    assert_eq!(list.len(), 1);
    assert_eq!(list[0].column, 5);
    let list = formula_carryovers(sheet, &vec![cell(1, "x")], 1);
    assert!(list.is_empty());
    let list = formula_carryovers(sheet, &vec![cell(1, "x")], 0);
    assert!(list.is_empty());
}

#[test]
fn sheet_sound_accepts_what_the_sheet_library_builds() {
    let book = people();
    assert!(sheet_sound(sheet_of(&book)));
    let empty = umya_spreadsheet::new_file();
    assert!(sheet_sound(sheet_of(&empty)));
}

#[test]
fn sheet_sound_stays_after_an_upsert() {
    let mut book = people();
    let updates = vec![cell(1, "Carol"), cell(9, "far")];
    assert_eq!(upsert_row(&mut book, "Sheet1", &updates), Ok(()));
    assert!(sheet_sound(sheet_of(&book)));
    assert_eq!(sheet_of(&book).get_highest_column_and_row(), (9, 4));
}

#[test]
fn sheet_sound_refuses_a_cell_filed_under_another_coordinate() {
    let mut book = people();
    {
        let sheet = book.get_sheet_by_name_mut("Sheet1").unwrap();
        sheet
            .get_cell_mut((1, 2))
            .get_coordinate_mut()
            .set_row_num(7);
    }
    assert!(!sheet_sound(sheet_of(&book)));
}

#[test]
fn sheet_sound_refuses_a_cell_beyond_the_bounds() {
    let mut book = people();
    {
        let sheet = book.get_sheet_by_name_mut("Sheet1").unwrap();
        let mut stray = umya_spreadsheet::Cell::default();
        stray.get_coordinate_mut().set_col_num(2);
        stray.get_coordinate_mut().set_row_num(9);
        sheet
            .get_collection_to_hashmap_mut()
            .insert((9, 2), Box::new(stray));
    }
    assert_eq!(sheet_of(&book).get_highest_row(), 3);
    assert!(!sheet_sound(sheet_of(&book)));
}

#[test]
fn try_upsert_row_does_what_upsert_row_does() {
    let mut book = people();
    let updates = vec![cell(1, "Carol"), cell(2, "30")];
    assert_eq!(try_upsert_row(&mut book, "Sheet1", &updates), Some(Ok(())));
    let sheet = sheet_of(&book);
    assert_eq!(sheet.get_highest_row(), 4);
    assert_eq!(sheet.get_value((1, 4)), "Carol");
    assert_eq!(sheet.get_cell((3, 4)).unwrap().get_formula(), "B4*2");
    assert_eq!(
        try_upsert_row(&mut book, "Nowhere", &updates),
        Some(Err(UpsertError::SheetNotFound))
    );
    assert_eq!(
        try_upsert_row(&mut book, "Sheet1", &Vec::new()),
        Some(Err(UpsertError::EmptyUpdateSet))
    );
}

#[test]
fn try_upsert_row_refuses_column_zero() {
    let mut book = people();
    let before = snapshot(sheet_of(&book));
    let updates = vec![cell(1, "Carol"), cell(0, "x")];
    assert_eq!(try_upsert_row(&mut book, "Sheet1", &updates), None);
    assert_eq!(try_upsert_row(&mut book, "Nowhere", &updates), None);
    assert_eq!(snapshot(sheet_of(&book)), before);
}

#[test]
fn try_upsert_row_refuses_a_sheet_out_of_order() {
    let mut book = people();
    {
        let sheet = book.get_sheet_by_name_mut("Sheet1").unwrap();
        sheet
            .get_cell_mut((1, 2))
            .get_coordinate_mut()
            .set_row_num(7);
    }
    let updates = vec![cell(1, "Carol")];
    assert_eq!(try_upsert_row(&mut book, "Sheet1", &updates), None);
    assert_eq!(sheet_of(&book).get_highest_row(), 3);
}


#[test]
fn upsert_survives_writing_and_reading() {
    let mut book = people();
    let updates = vec![cell(1, "Carol"), cell(2, "30"), cell(4, "note")];
    assert_eq!(upsert_row(&mut book, "Sheet1", &updates), Ok(()));
    let mut bytes = std::io::Cursor::new(Vec::new());
    umya_spreadsheet::writer::xlsx::write_writer(&book, &mut bytes).unwrap();
    bytes.set_position(0);
    let read = umya_spreadsheet::reader::xlsx::read_reader(bytes, true).unwrap();
    let sheet = sheet_of(&read);
    assert_eq!(sheet.get_highest_row(), 4);
    assert_eq!(sheet.get_value((1, 4)), "Carol");
    assert_eq!(sheet.get_value((2, 4)), "30");
    assert_eq!(sheet.get_value((4, 4)), "note");
    assert_eq!(sheet.get_cell((3, 4)).unwrap().get_formula(), "B4*2");
    assert_eq!(sheet.get_value((1, 3)), "Bob");
    assert_eq!(sheet.get_value((2, 3)), "20");
    assert_eq!(sheet.get_cell((3, 3)).unwrap().get_formula(), "B3*2");
    assert!(sheet.get_style((2, 4)).get_font().unwrap().get_bold());
    assert!(sheet_sound(sheet));
}

#[test]
fn match_leaves_the_other_cells_of_the_row_alone() {
    let mut book = people();
    let before = snapshot(sheet_of(&book));
    let updates = vec![cell(1, "Bob"), cell(4, "x")];
    assert_eq!(upsert_row(&mut book, "Sheet1", &updates), Ok(()));
    let after = snapshot(sheet_of(&book));
    assert_eq!(after.len(), before.len() + 1);
    for entry in before.iter() {
        assert!(after.contains(entry));
    }
    assert_eq!(sheet_of(&book).get_value((4, 3)), "x");
}

#[test]
fn append_leaves_every_earlier_cell_alone() {
    let mut book = people();
    let before = snapshot(sheet_of(&book));
    let updates = vec![cell(1, "Carol"), cell(2, "30")];
    assert_eq!(upsert_row(&mut book, "Sheet1", &updates), Ok(()));
    let after = snapshot(sheet_of(&book));
    assert_eq!(after.len(), before.len() + 3);
    for entry in before.iter() {
        assert!(after.contains(entry));
    }
}

#[test]
fn try_upsert_sheet_tests_before_it_writes() {
    let mut book = people();
    let sheet = book.get_sheet_by_name_mut("Sheet1").unwrap();
    assert_eq!(try_upsert_sheet(sheet, &vec![cell(1, "Bob"), cell(2, "8")]), Some(Ok(())));
    assert_eq!(sheet.get_value((2, 3)), "8");
    assert_eq!(
        try_upsert_sheet(sheet, &Vec::new()),
        Some(Err(UpsertError::EmptyUpdateSet))
    );
    assert_eq!(try_upsert_sheet(sheet, &vec![cell(0, "Bob")]), None);
    assert_eq!(sheet.get_highest_column_and_row(), (3, 3));
    sheet.get_cell_mut((2, 2)).get_coordinate_mut().set_col_num(5);
    assert_eq!(try_upsert_sheet(sheet, &vec![cell(1, "Bob")]), None);
}

#[test]
fn find_row_compares_what_the_sheet_shows() {
    let mut book = umya_spreadsheet::new_file();
    {
        let sheet = book.get_sheet_by_name_mut("Sheet1").unwrap();
        sheet.get_cell_mut((1, 1)).set_value("007");
        sheet.get_cell_mut((1, 2)).set_value("true");
    }
    let sheet = sheet_of(&book);
    assert!(key_column_shown(sheet));
    assert_eq!(sheet.get_formatted_value((1, 1)), "7");
    assert_eq!(find_row(sheet, "7"), Some(1));
    assert_eq!(find_row(sheet, "007"), None);
    assert_eq!(find_row(sheet, "TRUE"), Some(2));
    assert_eq!(find_row(sheet, "true"), None);
}

#[test]
fn append_touches_no_formula_of_another_row() {
    let mut book = people();
    {
        let sheet = book.get_sheet_by_name_mut("Sheet1").unwrap();
        sheet.get_cell_mut((4, 3)).set_formula("SUM(B1:B4)");
        sheet.get_cell_mut((5, 3)).set_formula("A1)");
        sheet.get_cell_mut((4, 1)).set_formula("B3+B4");
    }
    let updates = vec![cell(1, "Carol"), cell(2, "30")];
    assert_eq!(upsert_row(&mut book, "Sheet1", &updates), Ok(()));
    let sheet = sheet_of(&book);
    assert_eq!(sheet.get_cell((4, 3)).unwrap().get_formula(), "SUM(B1:B4)");
    assert_eq!(sheet.get_cell((5, 3)).unwrap().get_formula(), "A1)");
    assert_eq!(sheet.get_cell((4, 1)).unwrap().get_formula(), "B3+B4");
    assert_eq!(sheet.get_cell((3, 3)).unwrap().get_formula(), "B3*2");
    assert_eq!(sheet.get_cell((4, 4)).unwrap().get_formula(), "SUM(B1:B4)");
    assert_eq!(sheet.get_cell((5, 4)).unwrap().get_formula(), "A1)");
    assert_eq!(sheet.get_cell((3, 4)).unwrap().get_formula(), "B4*2");
}

#[test]
fn an_updated_column_leaves_the_formula_above_alone() {
    let mut book = people();
    let updates = vec![cell(3, "7")];
    assert_eq!(upsert_row(&mut book, "Sheet1", &updates), Ok(()));
    let sheet = sheet_of(&book);
    assert_eq!(sheet.get_highest_row(), 4);
    assert_eq!(sheet.get_value((3, 4)), "7");
    assert!(!sheet.get_cell((3, 4)).unwrap().is_formula());
    assert_eq!(sheet.get_cell((3, 3)).unwrap().get_formula(), "B3*2");
}

#[test]
fn key_column_shown_wants_plain_formats() {
    let mut book = people();
    assert!(key_column_shown(sheet_of(&book)));
    {
        let sheet = book.get_sheet_by_name_mut("Sheet1").unwrap();
        sheet
            .get_style_mut((1, 2))
            .get_number_format_mut()
            .set_format_code("General");
        sheet
            .get_style_mut((1, 3))
            .get_number_format_mut()
            .set_format_code("@");
        sheet
            .get_style_mut((2, 2))
            .get_number_format_mut()
            .set_format_code("\"x\"");
    }
    assert!(key_column_shown(sheet_of(&book)));
    {
        let sheet = book.get_sheet_by_name_mut("Sheet1").unwrap();
        sheet.get_cell_mut((1, 3)).set_value("5");
        sheet
            .get_style_mut((1, 3))
            .get_number_format_mut()
            .set_format_code("\"x\"");
    }
    assert!(!key_column_shown(sheet_of(&book)));
    {
        let sheet = book.get_sheet_by_name_mut("Sheet1").unwrap();
        sheet.get_cell_mut((1, 3)).set_value("");
    }
    assert!(key_column_shown(sheet_of(&book)));
}

#[test]
fn try_upsert_row_refuses_a_key_column_it_cannot_show() {
    let mut book = people();
    {
        let sheet = book.get_sheet_by_name_mut("Sheet1").unwrap();
        sheet.get_cell_mut((1, 3)).set_value("5");
        sheet
            .get_style_mut((1, 3))
            .get_number_format_mut()
            .set_format_code("\"x\"");
    }
    let before = snapshot(sheet_of(&book));
    let updates = vec![cell(1, "Alice"), cell(2, "1")];
    assert_eq!(try_upsert_row(&mut book, "Sheet1", &updates), None);
    assert_eq!(snapshot(sheet_of(&book)), before);
}

#[test]
fn empty_sheet_gives_the_new_row_the_blank_style() {
    let mut book = umya_spreadsheet::new_file();
    let updates = vec![cell(1, "Carol")];
    assert_eq!(upsert_row(&mut book, "Sheet1", &updates), Ok(()));
    let sheet = sheet_of(&book);
    assert_eq!(sheet.get_style((1, 1)), sheet.get_style((9, 9)));
    assert_eq!(sheet.get_style((1, 1)), &umya_spreadsheet::Style::default());
}

#[test]
fn upsert_by_name_twice_finds_the_sheet_again() {
    let mut book = people();
    book.new_sheet("Other").unwrap();
    let updates = vec![cell(1, "Zed"), cell(2, "5")];
    assert_eq!(try_upsert_row(&mut book, "Other", &updates), Some(Ok(())));
    let once = snapshot(book.get_sheet_by_name("Other").unwrap());
    assert_eq!(try_upsert_row(&mut book, "Other", &updates), Some(Ok(())));
    let other = book.get_sheet_by_name("Other").unwrap();
    assert_eq!(other.get_name(), "Other");
    assert_eq!(snapshot(other), once);
    assert_eq!(other.get_highest_row(), 1);
}

#[test]
fn text_for_sure_knows_what_cannot_be_a_number() {
    assert!(text_for_sure(b"Alice"));
    assert!(text_for_sure(b"TRUE"));
    assert!(text_for_sure(b"x"));
    assert!(text_for_sure(b"Nottingham"));
    assert!(text_for_sure("\u{e9}t\u{e9}".as_bytes()));
    assert!(!text_for_sure(b""));
    assert!(!text_for_sure(b"12"));
    assert!(!text_for_sure(b"A5"));
    assert!(!text_for_sure(b"1e5"));
    assert!(!text_for_sure(b"inf"));
    assert!(!text_for_sure(b"-Infinity"));
    assert!(!text_for_sure(b"NaN"));
    assert!(!text_for_sure(b"+x"));
    assert!(!text_for_sure(b"Nora"));
}

#[test]
fn key_column_of_text_is_shown_under_any_format() {
    let mut book = people();
    {
        let sheet = book.get_sheet_by_name_mut("Sheet1").unwrap();
        sheet
            .get_style_mut((1, 2))
            .get_number_format_mut()
            .set_format_code("0.00");
        sheet
            .get_style_mut((1, 3))
            .get_number_format_mut()
            .set_format_code("\"x\"");
    }
    let sheet = sheet_of(&book);
    assert!(key_column_shown(sheet));
    assert_eq!(find_row(sheet, "Alice"), Some(2));
    assert_eq!(find_row(sheet, "Bob"), Some(3));
}

#[test]
fn match_gives_a_cell_it_makes_the_style_of_its_column() {
    let mut book = people();
    let mut style = umya_spreadsheet::Style::default();
    style.set_background_color("FF00FF00");
    {
        let sheet = book.get_sheet_by_name_mut("Sheet1").unwrap();
        sheet
            .get_column_dimension_by_number_mut(&6)
            .set_style(style.clone());
    }
    let updates = vec![cell(1, "Alice"), cell(6, "new"), cell(7, "plain")];
    assert_eq!(upsert_row(&mut book, "Sheet1", &updates), Ok(()));
    let sheet = sheet_of(&book);
    assert_eq!(sheet.get_style((6, 2)), &style);
    assert_eq!(sheet.get_style((7, 2)), &umya_spreadsheet::Style::default());
    assert_eq!(sheet.get_value((6, 2)), "new");
}

#[test]
fn a_run_goes_through_the_stages_in_order() {
    assert_eq!(first_stage(), Stage::Check);
    assert_eq!(next_step(Stage::Check, Ok(())), Action::Go(Stage::Read));
    assert_eq!(next_step(Stage::Read, Ok(())), Action::Go(Stage::Apply));
    assert_eq!(next_step(Stage::Apply, Ok(())), Action::Go(Stage::Write));
    assert_eq!(next_step(Stage::Write, Ok(())), Action::Finish(Ok(())));
}

#[test]
fn a_run_ends_with_the_first_failure() {
    assert_eq!(
        next_step(Stage::Check, source_checked(false)),
        Action::Finish(Err(UpsertError::FileNotFound))
    );
    assert_eq!(
        next_step(Stage::Read, Err(UpsertError::LoadError)),
        Action::Finish(Err(UpsertError::LoadError))
    );
    assert_eq!(
        next_step(Stage::Apply, Err(UpsertError::SheetNotFound)),
        Action::Finish(Err(UpsertError::SheetNotFound))
    );
    assert_eq!(
        next_step(Stage::Apply, Err(UpsertError::EmptyUpdateSet)),
        Action::Finish(Err(UpsertError::EmptyUpdateSet))
    );
    assert_eq!(
        next_step(Stage::Write, Err(UpsertError::PersistError)),
        Action::Finish(Err(UpsertError::PersistError))
    );
    assert_eq!(next_step(Stage::Check, source_checked(true)), Action::Go(Stage::Read));
}
