//! The order of an upsert on a file.
//!
//! The library touches no file. Whoever drives an upsert on a file does the
//! four stages in turn, hands the outcome of each to `next_step`, and does
//! what it says: go on to a stage, or finish with a result. So the order of
//! the stages, and what each failure ends in, is settled here.

use crate::update::UpsertError;
use vstd::prelude::*;

verus! {

/// The stages of an upsert on a file, in their order: see that the source
/// exists, read the workbook, upsert the row, write the workbook back.
#[derive(Debug, Clone, Copy, PartialEq, Eq)]
pub enum Stage {
    Check,
    Read,
    Apply,
    Write,
}

/// What to do after a stage: go on to another, or finish with the result of
/// the whole.
#[derive(Debug, Clone, Copy, PartialEq, Eq)]
pub enum Action {
    Go(Stage),
    Finish(Result<(), UpsertError>),
}

/// What follows a stage that came to `outcome`: a failure finishes the run
/// with that failure, at once and without another try; a success leads to
/// the next stage, and after the last to the end.
pub open spec fn next_of(stage: Stage, outcome: Result<(), UpsertError>) -> Action {
    match outcome {
        Err(error) => Action::Finish(Err(error)),
        Ok(_) => match stage {
            Stage::Check => Action::Go(Stage::Read),
            Stage::Read => Action::Go(Stage::Apply),
            Stage::Apply => Action::Go(Stage::Write),
            Stage::Write => Action::Finish(Ok(())),
        },
    }
}

/// What the check of the source comes to: `FileNotFound` exactly where
/// nothing exists at the path.
pub open spec fn checked(exists: bool) -> Result<(), UpsertError> {
    if exists {
        Ok(())
    } else {
        Err(UpsertError::FileNotFound)
    }
}

/// The stage that a run begins with.
pub fn first_stage() -> (stage: Stage)
    ensures
        stage == Stage::Check,
{
    Stage::Check
}

/// The first step of an upsert on a file: the source has to exist.
pub fn source_checked(exists: bool) -> (outcome: Result<(), UpsertError>)
    ensures
        outcome == checked(exists),
{
    if exists {
        Ok(())
    } else {
        Err(UpsertError::FileNotFound)
    }
}

/// Says what to do after `stage` has come to `outcome`.
pub fn next_step(stage: Stage, outcome: Result<(), UpsertError>) -> (action: Action)
    ensures
        action == next_of(stage, outcome),
{
    match outcome {
        Err(error) => Action::Finish(Err(error)),
        Ok(_) => match stage {
            Stage::Check => Action::Go(Stage::Read),
            Stage::Read => Action::Go(Stage::Apply),
            Stage::Apply => Action::Go(Stage::Write),
            Stage::Write => Action::Finish(Ok(())),
        },
    }
}

/// A run ends in `FileNotFound` right after the check exactly where nothing
/// exists at the path, and then no stage follows: nothing is read, and
/// nothing is written.
pub proof fn law_missing_source(exists: bool)
    ensures
        next_of(Stage::Check, checked(exists)) == Action::Finish(Err(UpsertError::FileNotFound))
            <==> !exists,
        exists ==> next_of(Stage::Check, checked(exists)) == Action::Go(Stage::Read),
{
}

/// The workbook is written only after the row has been upserted, the
/// upsert only after the workbook has been read, and the workbook read only
/// after the source was found to exist, each having succeeded.
pub proof fn law_stage_order(stage: Stage, outcome: Result<(), UpsertError>)
    ensures
        next_of(stage, outcome) == Action::Go(Stage::Write) <==> stage == Stage::Apply
            && outcome is Ok,
        next_of(stage, outcome) == Action::Go(Stage::Apply) <==> stage == Stage::Read
            && outcome is Ok,
        next_of(stage, outcome) == Action::Go(Stage::Read) <==> stage == Stage::Check
            && outcome is Ok,
        next_of(stage, outcome) != Action::Go(Stage::Check),
        next_of(stage, outcome) == Action::Finish(Ok(())) <==> stage == Stage::Write
            && outcome is Ok,
        outcome matches Err(error) ==> next_of(stage, outcome) == Action::Finish(Err(error)),
{
}

} // verus!
