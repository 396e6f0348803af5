use crate::text::concat;
use vstd::prelude::*;

verus! {

/// Errors reported by the database.
///
/// Every variant carries a human-readable message; [`DbError::message`]
/// renders the error with it.
#[derive(Debug, Clone)]
pub enum DbError {
    Io(String),
    Corruption(String),
    TableNotFound(String),
    ColumnNotFound(String),
    TypeMismatch(String),
    InvalidOperation(String),
    InvalidQuery(String),
    Transaction(String),
    Unsupported(String),
    ConstraintViolation(String),
}

/// The kinds of [`DbError`], without their messages.
#[derive(Debug, Clone, Copy, PartialEq, Eq, Structural)]
pub enum ErrorKind {
    Io,
    Corruption,
    TableNotFound,
    ColumnNotFound,
    TypeMismatch,
    InvalidOperation,
    InvalidQuery,
    Transaction,
    Unsupported,
    ConstraintViolation,
}

impl DbError {
    /// The kind of the error.
    pub open spec fn kind(self) -> ErrorKind {
        match self {
            DbError::Io(_) => ErrorKind::Io,
            DbError::Corruption(_) => ErrorKind::Corruption,
            DbError::TableNotFound(_) => ErrorKind::TableNotFound,
            DbError::ColumnNotFound(_) => ErrorKind::ColumnNotFound,
            DbError::TypeMismatch(_) => ErrorKind::TypeMismatch,
            DbError::InvalidOperation(_) => ErrorKind::InvalidOperation,
            DbError::InvalidQuery(_) => ErrorKind::InvalidQuery,
            DbError::Transaction(_) => ErrorKind::Transaction,
            DbError::Unsupported(_) => ErrorKind::Unsupported,
            DbError::ConstraintViolation(_) => ErrorKind::ConstraintViolation,
        }
    }

    /// The kind of the error, at run time.
    pub fn error_kind(&self) -> (r: ErrorKind)
        ensures
            r == self.kind(),
    {
        match self {
            DbError::Io(_) => ErrorKind::Io,
            DbError::Corruption(_) => ErrorKind::Corruption,
            DbError::TableNotFound(_) => ErrorKind::TableNotFound,
            DbError::ColumnNotFound(_) => ErrorKind::ColumnNotFound,
            DbError::TypeMismatch(_) => ErrorKind::TypeMismatch,
            DbError::InvalidOperation(_) => ErrorKind::InvalidOperation,
            DbError::InvalidQuery(_) => ErrorKind::InvalidQuery,
            DbError::Transaction(_) => ErrorKind::Transaction,
            DbError::Unsupported(_) => ErrorKind::Unsupported,
            DbError::ConstraintViolation(_) => ErrorKind::ConstraintViolation,
        }
    }

    pub fn table_not_found(name: &str) -> (r: Self)
        ensures
            r matches DbError::TableNotFound(m) && m@ == name@,
    {
        DbError::TableNotFound(name.to_owned())
    }

    pub fn column_not_found(name: &str) -> (r: Self)
        ensures
            r matches DbError::ColumnNotFound(m) && m@ == name@,
    {
        DbError::ColumnNotFound(name.to_owned())
    }

    pub fn type_mismatch(msg: &str) -> (r: Self)
        ensures
            r matches DbError::TypeMismatch(m) && m@ == msg@,
    {
        DbError::TypeMismatch(msg.to_owned())
    }

    pub fn invalid_operation(msg: &str) -> (r: Self)
        ensures
            r matches DbError::InvalidOperation(m) && m@ == msg@,
    {
        DbError::InvalidOperation(msg.to_owned())
    }

    pub fn invalid_query(msg: &str) -> (r: Self)
        ensures
            r matches DbError::InvalidQuery(m) && m@ == msg@,
    {
        DbError::InvalidQuery(msg.to_owned())
    }

    pub fn unsupported(msg: &str) -> (r: Self)
        ensures
            r matches DbError::Unsupported(m) && m@ == msg@,
    {
        DbError::Unsupported(msg.to_owned())
    }

    /// A corruption error: stored bytes do not describe a valid value.
    pub fn corruption(msg: &str) -> (r: Self)
        ensures
            r matches DbError::Corruption(m) && m@ == msg@,
    {
        DbError::Corruption(msg.to_owned())
    }

    pub fn transaction(msg: &str) -> (r: Self)
        ensures
            r matches DbError::Transaction(m) && m@ == msg@,
    {
        DbError::Transaction(msg.to_owned())
    }

    /// A unique-key violation.
    pub fn constraint_violation(msg: &str) -> (r: Self)
        ensures
            r matches DbError::ConstraintViolation(m) && m@ == msg@,
    {
        DbError::ConstraintViolation(msg.to_owned())
    }

    /// An input/output failure of the underlying device.
    pub fn io(msg: &str) -> (r: Self)
        ensures
            r matches DbError::Io(m) && m@ == msg@,
    {
        DbError::Io(msg.to_owned())
    }

    /// The text the error is shown with: what went wrong, a colon, then the
    /// error's own message.
    pub open spec fn text(self) -> Seq<char> {
        match self {
            DbError::Io(m) => "I/O error: "@ + m@,
            DbError::Corruption(m) => "Data corruption: "@ + m@,
            DbError::TableNotFound(m) => "Table not found: "@ + m@,
            DbError::ColumnNotFound(m) => "Column not found: "@ + m@,
            DbError::TypeMismatch(m) => "Type mismatch: "@ + m@,
            DbError::InvalidOperation(m) => "Invalid operation: "@ + m@,
            DbError::InvalidQuery(m) => "Invalid query: "@ + m@,
            DbError::Transaction(m) => "Transaction error: "@ + m@,
            DbError::Unsupported(m) => "Unsupported: "@ + m@,
            DbError::ConstraintViolation(m) => "Constraint violation: "@ + m@,
        }
    }

    /// Renders the error as text (see [`DbError::text`]).
    pub fn message(&self) -> (r: String)
        ensures
            r@ == self.text(),
    {
        match self {
            DbError::Io(m) => concat("I/O error: ", m.as_str()),
            DbError::Corruption(m) => concat("Data corruption: ", m.as_str()),
            DbError::TableNotFound(m) => concat("Table not found: ", m.as_str()),
            DbError::ColumnNotFound(m) => concat("Column not found: ", m.as_str()),
            DbError::TypeMismatch(m) => concat("Type mismatch: ", m.as_str()),
            DbError::InvalidOperation(m) => concat("Invalid operation: ", m.as_str()),
            DbError::InvalidQuery(m) => concat("Invalid query: ", m.as_str()),
            DbError::Transaction(m) => concat("Transaction error: ", m.as_str()),
            DbError::Unsupported(m) => concat("Unsupported: ", m.as_str()),
            DbError::ConstraintViolation(m) => concat("Constraint violation: ", m.as_str()),
        }
    }
}

} // verus!
