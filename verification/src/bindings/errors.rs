//! Errors as exceptions.

use vstd::prelude::*;
use vstd::string::StringExecFns;

verus! {

/// The code of an error, for programs to read.
#[derive(Debug, PartialEq, Eq)]
pub struct ErrorCode {
    /// Its name.
    pub name: String,
    /// Whether what failed may be tried again.
    pub retryable: bool,
}

/// Where an error of the database comes from.
#[derive(Debug, Clone, Copy, PartialEq, Eq, Structural)]
pub enum ErrorCategory {
    /// A query.
    Query,
    /// A transaction.
    Transaction,
    /// Anything else.
    Other,
}

/// An error that becomes an exception.
#[derive(Debug, PartialEq, Eq)]
pub enum PyGrafeoError {
    /// An error of the database.
    Database {
        /// What happened.
        message: String,
        /// Its code, if there is one.
        code: Option<ErrorCode>,
    },
    /// An error of a query.
    Query {
        /// What happened.
        message: String,
        /// Its code, if there is one.
        code: Option<ErrorCode>,
    },
    /// A value of the wrong type.
    Type(String),
    /// An error of a transaction.
    Transaction {
        /// What happened.
        message: String,
        /// Its code, if there is one.
        code: Option<ErrorCode>,
    },
    /// An argument that cannot be taken.
    InvalidArgument(String),
}

/// An exception.
#[derive(Debug, PartialEq, Eq)]
pub enum Exception {
    /// A `ValueError`.
    ValueError(String),
    /// A `GrafeoError`, which always has a code.
    GrafeoError {
        /// What happened.
        message: String,
        /// Its code.
        code: ErrorCode,
    },
}

/// The text of an error.
pub open spec fn error_text(e: PyGrafeoError) -> Seq<char> {
    match e {
        PyGrafeoError::Database { message, .. } => "Database error: "@ + message@,
        PyGrafeoError::Query { message, .. } => "Query error: "@ + message@,
        PyGrafeoError::Type(message) => "Type error: "@ + message@,
        PyGrafeoError::Transaction { message, .. } => "Transaction error: "@ + message@,
        PyGrafeoError::InvalidArgument(message) => "Invalid argument: "@ + message@,
    }
}

/// The code of an error, or `internal` if it has none.
pub open spec fn code_or(code: Option<ErrorCode>, internal: ErrorCode) -> ErrorCode {
    match code {
        Some(c) => c,
        None => internal,
    }
}

/// The exception that an error becomes. What the caller did wrong is a `ValueError`,
/// anything else a `GrafeoError`.
pub open spec fn exception_of(e: PyGrafeoError, internal: ErrorCode) -> Exception {
    match e {
        PyGrafeoError::InvalidArgument(message) => Exception::ValueError(message),
        PyGrafeoError::Type(message) => Exception::ValueError(message),
        PyGrafeoError::Database { message, code } => Exception::GrafeoError {
            message,
            code: code_or(code, internal),
        },
        PyGrafeoError::Query { message, code } => Exception::GrafeoError {
            message,
            code: code_or(code, internal),
        },
        PyGrafeoError::Transaction { message, code } => Exception::GrafeoError {
            message,
            code: code_or(code, internal),
        },
    }
}

/// The text of an error says what kind it is of, and what happened.
pub proof fn law_errors_name_their_kind(message: String, code: Option<ErrorCode>)
    ensures
        error_text(PyGrafeoError::Database { message, code }) == "Database error: "@ + message@,
        error_text(PyGrafeoError::Query { message, code }) == "Query error: "@ + message@,
        error_text(PyGrafeoError::Transaction { message, code }) == "Transaction error: "@
            + message@,
        error_text(PyGrafeoError::Type(message)) == "Type error: "@ + message@,
        error_text(PyGrafeoError::InvalidArgument(message)) == "Invalid argument: "@ + message@,
{
}

/// A value of the wrong type and an argument that cannot be taken become a `ValueError`.
/// Every other error becomes a `GrafeoError` with its own code, or the given one if it
/// has none. What happened is told as it is.
pub proof fn law_which_exception_comes(
    e: PyGrafeoError,
    message: String,
    code: ErrorCode,
    internal: ErrorCode,
)
    ensures
        exception_of(e, internal) is ValueError <==> e is Type || e is InvalidArgument,
        exception_of(PyGrafeoError::Type(message), internal) == Exception::ValueError(message),
        exception_of(PyGrafeoError::InvalidArgument(message), internal) == Exception::ValueError(
            message,
        ),
        exception_of(PyGrafeoError::Database { message, code: Some(code) }, internal) == (
        Exception::GrafeoError { message, code }),
        exception_of(PyGrafeoError::Query { message, code: Some(code) }, internal) == (
        Exception::GrafeoError { message, code }),
        exception_of(PyGrafeoError::Transaction { message, code: Some(code) }, internal) == (
        Exception::GrafeoError { message, code }),
        exception_of(PyGrafeoError::Database { message, code: None }, internal) == (
        Exception::GrafeoError { message, code: internal }),
        exception_of(PyGrafeoError::Query { message, code: None }, internal) == (
        Exception::GrafeoError { message, code: internal }),
        exception_of(PyGrafeoError::Transaction { message, code: None }, internal) == (
        Exception::GrafeoError { message, code: internal }),
{
}

/// The code of an error, or `internal` if it has none.
fn code_of(code: Option<ErrorCode>, internal: ErrorCode) -> (r: ErrorCode)
    ensures
        r == code_or(code, internal),
{
    match code {
        Some(c) => c,
        None => internal,
    }
}

impl PyGrafeoError {
    /// An error of the database without a code.
    #[must_use]
    pub fn database(message: String) -> (r: Self)
        ensures
            r == (PyGrafeoError::Database { message, code: None }),
    {
        PyGrafeoError::Database { message, code: None }
    }

    /// An error of a query without a code.
    #[must_use]
    pub fn query(message: String) -> (r: Self)
        ensures
            r == (PyGrafeoError::Query { message, code: None }),
    {
        PyGrafeoError::Query { message, code: None }
    }

    /// An error of a transaction without a code.
    #[must_use]
    pub fn transaction(message: String) -> (r: Self)
        ensures
            r == (PyGrafeoError::Transaction { message, code: None }),
    {
        PyGrafeoError::Transaction { message, code: None }
    }

    /// An error of the engine, by where it comes from.
    #[must_use]
    pub fn classified(category: ErrorCategory, message: String, code: ErrorCode) -> (r: Self)
        ensures
            r == (match category {
                ErrorCategory::Query => PyGrafeoError::Query { message, code: Some(code) },
                ErrorCategory::Transaction => PyGrafeoError::Transaction {
                    message,
                    code: Some(code),
                },
                ErrorCategory::Other => PyGrafeoError::Database { message, code: Some(code) },
            }),
    {
        match category {
            ErrorCategory::Query => PyGrafeoError::Query { message, code: Some(code) },
            ErrorCategory::Transaction => PyGrafeoError::Transaction { message, code: Some(code) },
            ErrorCategory::Other => PyGrafeoError::Database { message, code: Some(code) },
        }
    }

    /// The text of the error.
    #[must_use]
    pub fn message(&self) -> (r: String)
        ensures
            r@ == error_text(*self),
    {
        let mut out: String = String::new();
        match self {
            PyGrafeoError::Database { message, .. } => {
                out.append("Database error: ");
                out.append(message.as_str());
            },
            PyGrafeoError::Query { message, .. } => {
                out.append("Query error: ");
                out.append(message.as_str());
            },
            PyGrafeoError::Type(message) => {
                out.append("Type error: ");
                out.append(message.as_str());
            },
            PyGrafeoError::Transaction { message, .. } => {
                out.append("Transaction error: ");
                out.append(message.as_str());
            },
            PyGrafeoError::InvalidArgument(message) => {
                out.append("Invalid argument: ");
                out.append(message.as_str());
            },
        }
        assert(out@ =~= error_text(*self));
        out
    }

    /// The exception that the error becomes. `internal` is the code of an error that
    /// has none of its own.
    #[must_use]
    pub fn into_exception(self, internal: ErrorCode) -> (r: Exception)
        ensures
            r == exception_of(self, internal),
    {
        match self {
            PyGrafeoError::InvalidArgument(message) => Exception::ValueError(message),
            PyGrafeoError::Type(message) => Exception::ValueError(message),
            PyGrafeoError::Database { message, code } => Exception::GrafeoError {
                message,
                code: code_of(code, internal),
            },
            PyGrafeoError::Query { message, code } => Exception::GrafeoError {
                message,
                code: code_of(code, internal),
            },
            PyGrafeoError::Transaction { message, code } => Exception::GrafeoError {
                message,
                code: code_of(code, internal),
            },
        }
    }
}

} // verus!
