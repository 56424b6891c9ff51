//! The diagnostic record that scanning accumulates: a source line number and
//! a human-readable reason. A value is built once and never mutated.

use vstd::prelude::*;

verus! {

/// What a diagnostic holds, for use in contracts: the line it was recorded
/// on and the reason text.
pub ghost struct ErrorView {
    pub line: int,
    pub reason: Seq<char>,
}

/// A lexical error noticed while scanning. Diagnostics are collected, never
/// thrown: scanning records one and goes on.
#[derive(Debug)]
pub struct Error {
    reason: String,
    line: u128,
}

impl View for Error {
    type V = ErrorView;

    closed spec fn view(&self) -> ErrorView {
        ErrorView { line: self.line as int, reason: self.reason@ }
    }
}

impl Error {
    pub fn new(line: u128, reason: String) -> (r: Self)
        ensures
            r@.line == line as int,
            r@.reason == reason@,
    {
        Error { line, reason }
    }

    /// The line the error was recorded on.
    pub fn line(&self) -> (r: u128)
        ensures
            r as int == self@.line,
    {
        self.line
    }

    /// The reason text.
    pub fn reason(&self) -> (r: &String)
        ensures
            r@ == self@.reason,
    {
        &self.reason
    }
}

/// The views of a whole diagnostic sequence, in order.
pub open spec fn views_of_errors(v: Seq<Error>) -> Seq<ErrorView> {
    v.map_values(|e: Error| e@)
}

pub proof fn lemma_views_of_errors_push(v: Seq<Error>, e: Error)
    ensures
        views_of_errors(v.push(e)) == views_of_errors(v).push(e@),
{
    assert(views_of_errors(v.push(e)) =~= views_of_errors(v).push(e@));
}

} // verus!
