//! The errors that applying a diff can end in.
use vstd::prelude::*;

verus! {

/// Why a diff could not be applied.
#[derive(Debug)]
pub enum DiffError {
    /// No tier of the search found the SEARCH block; holds its text, trimmed at the end.
    SearchBlockNotFound(String),
    /// The SEARCH block matched before the end of the previous match; holds its text.
    SearchBlockIncorrectMatch(String),
    /// A marker arrived in a state that it cannot follow.
    InvalidStateTransition,
    /// Salvage was asked for with no lines to work on.
    NoLinesAvailable,
    /// A separator arrived outside a block and no SEARCH line could be rewritten.
    InvalidReplaceMarker(usize),
    /// A REPLACE line arrived outside a block and no separator could be rewritten.
    MalformedReplaceBlock(usize),
    /// A block was left open by text before the next SEARCH line.
    MissingReplaceMarker,
    /// The diff ended in the middle of a SEARCH block.
    ProcessingIncomplete,
}

/// What a `DiffError` states, with its text as characters.
pub enum Failure {
    SearchBlockNotFound(Seq<char>),
    SearchBlockIncorrectMatch(Seq<char>),
    InvalidStateTransition,
    NoLinesAvailable,
    InvalidReplaceMarker(usize),
    MalformedReplaceBlock(usize),
    MissingReplaceMarker,
    ProcessingIncomplete,
}

impl View for DiffError {
    type V = Failure;

    open spec fn view(&self) -> Failure {
        match self {
            DiffError::SearchBlockNotFound(s) => Failure::SearchBlockNotFound(s@),
            DiffError::SearchBlockIncorrectMatch(s) => Failure::SearchBlockIncorrectMatch(s@),
            DiffError::InvalidStateTransition => Failure::InvalidStateTransition,
            DiffError::NoLinesAvailable => Failure::NoLinesAvailable,
            DiffError::InvalidReplaceMarker(i) => Failure::InvalidReplaceMarker(*i),
            DiffError::MalformedReplaceBlock(i) => Failure::MalformedReplaceBlock(*i),
            DiffError::MissingReplaceMarker => Failure::MissingReplaceMarker,
            DiffError::ProcessingIncomplete => Failure::ProcessingIncomplete,
        }
    }
}

/// The outcome of applying a diff, as text or as what went wrong.
pub open spec fn outcome(r: Result<String, DiffError>) -> Result<Seq<char>, Failure> {
    match r {
        Ok(s) => Ok(s@),
        Err(e) => Err(e@),
    }
}

} // verus!
