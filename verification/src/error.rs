//! The failures that an operation on the store reports.

use vstd::prelude::*;
use vstd::string::StringExecFns;

verus! {

/// Why an operation did not take place.
#[derive(Debug)]
pub enum JotDeckError {
    /// The store rejected a statement.
    Database(String),
    /// No row carries the identifier that was asked for.
    NotFound(String),
    /// The row is not in a state that allows the operation.
    InvalidOperation(String),
}

/// A [`JotDeckError`] with its text as a sequence of characters.
pub enum ErrorView {
    Database(Seq<char>),
    NotFound(Seq<char>),
    InvalidOperation(Seq<char>),
}

impl View for JotDeckError {
    type V = ErrorView;

    open spec fn view(&self) -> ErrorView {
        match self {
            JotDeckError::Database(m) => ErrorView::Database(m@),
            JotDeckError::NotFound(m) => ErrorView::NotFound(m@),
            JotDeckError::InvalidOperation(m) => ErrorView::InvalidOperation(m@),
        }
    }
}

impl ErrorView {
    /// The text that the error carries.
    pub open spec fn detail(self) -> Seq<char> {
        match self {
            ErrorView::Database(m) => m,
            ErrorView::NotFound(m) => m,
            ErrorView::InvalidOperation(m) => m,
        }
    }

    /// The words that introduce an error of this variant.
    pub open spec fn heading(self) -> Seq<char> {
        match self {
            ErrorView::Database(_) => "Database error: "@,
            ErrorView::NotFound(_) => "Not found: "@,
            ErrorView::InvalidOperation(_) => "Invalid operation: "@,
        }
    }
}

impl JotDeckError {
    /// The error as one line of text: its heading, then its detail.
    pub fn message(&self) -> (text: String)
        ensures
            text@ == self@.heading() + self@.detail(),
    {
        match self {
            JotDeckError::Database(m) => String::from_str("Database error: ").concat(m.as_str()),
            JotDeckError::NotFound(m) => String::from_str("Not found: ").concat(m.as_str()),
            JotDeckError::InvalidOperation(m) => String::from_str("Invalid operation: ").concat(
                m.as_str(),
            ),
        }
    }
}

/// A `NotFound` error whose detail is `what` followed by `id`.
pub fn not_found(what: &str, id: &str) -> (e: JotDeckError)
    ensures
        e@ == ErrorView::NotFound(what@ + id@),
{
    JotDeckError::NotFound(String::from_str(what).concat(id))
}

/// An `InvalidOperation` error with the given detail.
pub fn invalid_operation(detail: &str) -> (e: JotDeckError)
    ensures
        e@ == ErrorView::InvalidOperation(detail@),
{
    JotDeckError::InvalidOperation(String::from_str(detail))
}

/// A `Database` error with the given detail.
pub fn database(detail: &str) -> (e: JotDeckError)
    ensures
        e@ == ErrorView::Database(detail@),
{
    JotDeckError::Database(String::from_str(detail))
}


/// A result with its value and its error taken by their views.
pub open spec fn outcome<T: View>(r: Result<T, JotDeckError>) -> Result<T::V, ErrorView> {
    match r {
        Ok(v) => Ok(v@),
        Err(e) => Err(e@),
    }
}

/// The storage failure of a position that does not fit the table.
pub open spec fn position_out_of_range() -> ErrorView {
    ErrorView::Database("position out of range"@)
}

/// The storage failure of an identifier that a row of the table carries
/// already.
pub open spec fn duplicate_id() -> ErrorView {
    ErrorView::Database("UNIQUE constraint failed: id"@)
}


/// A result that holds rows, with the rows and the error taken by their
/// views.
pub open spec fn outcome_rows<T: View>(r: Result<Vec<T>, JotDeckError>) -> Result<
    Seq<T::V>,
    ErrorView,
> {
    match r {
        Ok(rows) => Ok(rows@.map_values(|row: T| row@)),
        Err(e) => Err(e@),
    }
}

} // verus!
