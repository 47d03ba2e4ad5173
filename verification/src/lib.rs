//! Upserting a row into a sheet of an `.xlsx` workbook.
//!
//! An upsert takes a list of cells to set. The text of the first is the
//! key: the first row whose column 1 shows it is overwritten in place, and
//! where no row shows it, a row is appended that takes its styles from the
//! row above and brings down, rewritten for the new row, the formulas of the
//! columns that the list leaves alone.
//!
//! The workbook is `umya_spreadsheet`'s. `sheet` states what the library
//! takes from it, `formula` rewrites the formulas, `upsert` is the engine,
//! and `laws` holds what is proved of every upsert. Reading a workbook from
//! a file and writing it back is left to the caller; `run` settles in what
//! order the caller is to do it.

pub mod formula;
pub mod laws;
pub mod run;
pub mod sheet;
pub mod update;
pub mod upsert;

pub use crate::formula::adjust_formula_references;
pub use crate::update::UpdateCell;
pub use crate::update::UpsertError;
pub use crate::upsert::try_upsert_row;
pub use crate::upsert::upsert_row;
pub use crate::upsert::upsert_sheet;
