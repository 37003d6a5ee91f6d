use vstd::prelude::*;

verus! {

/// The kinds of failure that the database reports.
#[derive(Debug, Clone, Copy, PartialEq, Eq, Structural)]
pub enum DbError {
    /// A schema or a document failed validation.
    ValidationError,
    /// A query could not be parsed.
    QueryError,
    /// A required migration step is missing.
    MigrationError,
    /// Decryption failed or no password was given.
    EncryptionError,
    /// No document has the requested primary key.
    NotFound,
    /// The backend does not handle this kind of operation.
    UnsupportedOperation,
    /// The backend failed to read or write.
    StorageError,
    /// The constructor arguments are missing or contradictory.
    ConfigurationError,
}

impl DbError {
    /// The name of the error kind.
    pub fn name(&self) -> (r: &'static str) {
        match self {
            DbError::ValidationError => "ValidationError",
            DbError::QueryError => "QueryError",
            DbError::MigrationError => "MigrationError",
            DbError::EncryptionError => "EncryptionError",
            DbError::NotFound => "NotFound",
            DbError::UnsupportedOperation => "UnsupportedOperation",
            DbError::StorageError => "StorageError",
            DbError::ConfigurationError => "ConfigurationError",
        }
    }
}

} // verus!
