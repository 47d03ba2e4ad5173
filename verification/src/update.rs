//! What a caller hands to an upsert, and how an upsert can fail.

use umya_spreadsheet::Spreadsheet;
use umya_spreadsheet::XlsxError;
use vstd::prelude::*;

verus! {

/// `umya_spreadsheet::XlsxError`, what reading or writing a workbook fails
/// with, taken as it is.
#[verifier::external_type_specification]
#[verifier::external_body]
pub struct ExXlsxError(XlsxError);

/// One cell to set: the column, counted from 1, and the text to store.
#[derive(Debug, Clone)]
pub struct UpdateCell {
    pub cell: u32,
    pub value: String,
}

impl UpdateCell {
    pub fn new(cell: u32, value: String) -> (update: Self)
        ensures
            update.cell == cell,
            update.value == value,
    {
        UpdateCell { cell, value }
    }
}

/// The ways in which an upsert fails.
#[derive(Debug, Clone, Copy, PartialEq, Eq, Structural)]
pub enum UpsertError {
    /// Nothing exists at the source path.
    FileNotFound,
    /// The source exists but cannot be read as a workbook.
    LoadError,
    /// The workbook has no sheet of the name asked for.
    SheetNotFound,
    /// The caller supplied no cell to set.
    EmptyUpdateSet,
    /// The workbook could not be written back.
    PersistError,
}

/// Updates that can be applied: every column is 1 or more.
pub open spec fn updates_wf(updates: Seq<UpdateCell>) -> bool {
    forall|i: int| 0 <= i < updates.len() ==> (#[trigger] updates[i]).cell >= 1
}

/// Whether some update names column `col`.
pub open spec fn covers(updates: Seq<UpdateCell>, col: u32) -> bool {
    exists|i: int| 0 <= i < updates.len() && (#[trigger] updates[i]).cell == col
}

/// The text that the updates leave in column `col`: that of the last update
/// naming the column.
pub open spec fn last_value(updates: Seq<UpdateCell>, col: u32) -> Seq<char>
    decreases updates.len(),
{
    if updates.len() == 0 {
        Seq::empty()
    } else if updates.last().cell == col {
        updates.last().value@
    } else {
        last_value(updates.drop_last(), col)
    }
}

/// The key that an upsert looks for: the text of the first update.
pub open spec fn key_of(updates: Seq<UpdateCell>) -> Seq<char> {
    updates[0].value@
}

/// Whether every column is 1 or more.
pub fn updates_valid(updates: &Vec<UpdateCell>) -> (valid: bool)
    ensures
        valid == updates_wf(updates@),
{
    let mut i: usize = 0;
    while i < updates.len()
        invariant
            i <= updates.len(),
            forall|j: int| 0 <= j < i ==> (#[trigger] updates@[j]).cell >= 1,
        decreases updates.len() - i,
    {
        if updates[i].cell < 1 {
            return false;
        }
        i = i + 1;
    }
    true
}

/// Whether some update names column `col`.
pub fn names_column(updates: &Vec<UpdateCell>, col: u32) -> (named: bool)
    ensures
        named == covers(updates@, col),
{
    let mut i: usize = 0;
    while i < updates.len()
        invariant
            i <= updates.len(),
            forall|j: int| 0 <= j < i ==> (#[trigger] updates@[j]).cell != col,
        decreases updates.len() - i,
    {
        if updates[i].cell == col {
            return true;
        }
        i = i + 1;
    }
    false
}

/// What reading the workbook came to: the workbook, or `LoadError` whatever
/// the reader's own error was.
pub fn loaded(read: Result<Spreadsheet, XlsxError>) -> (outcome: Result<Spreadsheet, UpsertError>)
    ensures
        match read {
            Ok(book) => outcome == Ok::<Spreadsheet, UpsertError>(book),
            Err(_) => outcome == Err::<Spreadsheet, UpsertError>(UpsertError::LoadError),
        },
{
    match read {
        Ok(book) => Ok(book),
        Err(_) => Err(UpsertError::LoadError),
    }
}

/// What writing the workbook back came to: success, or `PersistError`
/// whatever the writer's own error was.
pub fn persisted(written: Result<(), XlsxError>) -> (outcome: Result<(), UpsertError>)
    ensures
        match written {
            Ok(_) => outcome == Ok::<(), UpsertError>(()),
            Err(_) => outcome == Err::<(), UpsertError>(UpsertError::PersistError),
        },
{
    match written {
        Ok(_) => Ok(()),
        Err(_) => Err(UpsertError::PersistError),
    }
}

} // verus!
