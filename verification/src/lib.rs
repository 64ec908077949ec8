//! Reads CQL migration files: their names, their versions, their digests and
//! the statements that they hold.
pub mod text;
pub mod error;
pub mod error_laws;
pub mod cql_file;
pub mod cql_file_laws;
pub mod digest;
pub mod directory;
pub mod directory_laws;
pub mod filename;
pub mod filename_laws;
pub mod statement;
pub mod statement_account;
pub mod statement_laws;
