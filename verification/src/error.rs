//! What can go wrong, and how it is told.
//!
//! The errors of this module are written over the type `S` of the text that
//! they carry: `String` in running code, `Seq<char>` in contracts.
use vstd::prelude::*;
use vstd::string::*;

use crate::text::{append_padded, signed_decimal, zero_padded};

verus! {

/// A file whose statements could not be read.
#[derive(Debug)]
pub enum MigrateError<S = String> {
    CqlFileReadError { filename: S, error: S },
}

impl DeepView for MigrateError<String> {
    type V = MigrateError<Seq<char>>;

    open spec fn deep_view(&self) -> MigrateError<Seq<char>> {
        match self {
            MigrateError::CqlFileReadError { filename, error } => MigrateError::CqlFileReadError {
                filename: filename@,
                error: error@,
            },
        }
    }
}

/// A directory whose files could not be listed.
#[derive(Debug)]
pub enum ScanError<S = String> {
    /// The directory could not be opened.
    DirectoryNotFound { directory: S },
    /// An entry of the directory could not be read.
    UnreadableEntry { error: S },
    /// No file of the directory is a migration.
    NoCqlFiles { directory: S },
}

impl DeepView for ScanError<String> {
    type V = ScanError<Seq<char>>;

    open spec fn deep_view(&self) -> ScanError<Seq<char>> {
        match self {
            ScanError::DirectoryNotFound { directory } => ScanError::DirectoryNotFound {
                directory: directory@,
            },
            ScanError::UnreadableEntry { error } => ScanError::UnreadableEntry { error: error@ },
            ScanError::NoCqlFiles { directory } => ScanError::NoCqlFiles { directory: directory@ },
        }
    }
}

impl ScanError<Seq<char>> {
    /// The text of the error.
    pub open spec fn text(self) -> Seq<char> {
        match self {
            ScanError::DirectoryNotFound { directory } => "could not find directory '"@ + directory
                + "'"@,
            ScanError::UnreadableEntry { error } => error,
            ScanError::NoCqlFiles { directory } => "no cql files found in directory '"@ + directory
                + "'"@,
        }
    }
}

impl ScanError<String> {
    /// The text of the error.
    pub fn message(&self) -> (message: String)
        ensures
            message@ == self.deep_view().text(),
    {
        let mut message: String = String::new();
        match self {
            ScanError::DirectoryNotFound { directory } => {
                message.append("could not find directory '");
                message.append(directory.as_str());
                message.append("'");
            },
            ScanError::UnreadableEntry { error } => {
                message.append(error.as_str());
            },
            ScanError::NoCqlFiles { directory } => {
                message.append("no cql files found in directory '");
                message.append(directory.as_str());
                message.append("'");
            },
        }
        message
    }
}

/// Why a text is not the number that was asked for.
#[derive(Clone, Copy, Debug, PartialEq, Eq)]
pub enum NumberError {
    /// The text is empty.
    Empty,
    /// The text has no digits, or something else than digits.
    InvalidDigit,
    /// The number is too large.
    TooLarge,
    /// The number is too small.
    TooSmall,
}

impl NumberError {
    /// The text of the error.
    pub open spec fn text(self) -> Seq<char> {
        match self {
            NumberError::Empty => "cannot parse integer from empty string"@,
            NumberError::InvalidDigit => "invalid digit found in string"@,
            NumberError::TooLarge => "number too large to fit in target type"@,
            NumberError::TooSmall => "number too small to fit in target type"@,
        }
    }

    /// The text of the error.
    pub fn message(&self) -> (message: String)
        ensures
            message@ == self.text(),
    {
        let mut message: String = String::new();
        match self {
            NumberError::Empty => {
                message.append("cannot parse integer from empty string");
            },
            NumberError::InvalidDigit => {
                message.append("invalid digit found in string");
            },
            NumberError::TooLarge => {
                message.append("number too large to fit in target type");
            },
            NumberError::TooSmall => {
                message.append("number too small to fit in target type");
            },
        }
        message
    }
}

/// What is said of an index below zero.
pub const OUT_OF_RANGE: &'static str = "out of range integral type conversion attempted";

/// A migration that could not be taken up.
#[allow(inconsistent_fields)]
#[derive(Debug)]
pub enum CqlFileError<S = String> {
    /// The name of the file is not that of a migration.
    InvalidFilename { filename: S },
    /// The file could not be read.
    UnreadableFile { filename: S, error: S },
    /// The version in the file's name is not a number.
    InvalidVersion { filename: S, version: S, cause: NumberError },
    /// The directory could not be scanned.
    ScanFailed { cause: ScanError<S> },
    /// The first file repeats a version that no file can have had.
    PreviousIndexInvalid { cause: S },
    /// Two files have the same version.
    RepeatedVersion { previous: S, filename: S, expected: i16 },
    /// No file has the version that is next in turn.
    MissingVersion { filename: S, expected: i16 },
}

impl DeepView for CqlFileError<String> {
    type V = CqlFileError<Seq<char>>;

    open spec fn deep_view(&self) -> CqlFileError<Seq<char>> {
        match self {
            CqlFileError::InvalidFilename { filename } => CqlFileError::InvalidFilename {
                filename: filename@,
            },
            CqlFileError::UnreadableFile { filename, error } => CqlFileError::UnreadableFile {
                filename: filename@,
                error: error@,
            },
            CqlFileError::InvalidVersion { filename, version, cause } =>
                CqlFileError::InvalidVersion {
                filename: filename@,
                version: version@,
                cause: *cause,
            },
            CqlFileError::ScanFailed { cause } => CqlFileError::ScanFailed {
                cause: cause.deep_view(),
            },
            CqlFileError::PreviousIndexInvalid { cause } => CqlFileError::PreviousIndexInvalid {
                cause: cause@,
            },
            CqlFileError::RepeatedVersion { previous, filename, expected } =>
                CqlFileError::RepeatedVersion {
                previous: previous@,
                filename: filename@,
                expected: *expected,
            },
            CqlFileError::MissingVersion { filename, expected } => CqlFileError::MissingVersion {
                filename: filename@,
                expected: *expected,
            },
        }
    }
}

/// A version as errors write it: in decimal, with zeros in front up to three
/// characters.
pub open spec fn version_text(version: i16) -> Seq<char> {
    zero_padded(signed_decimal(version as int), 3)
}

impl CqlFileError<Seq<char>> {
    /// The text of the error.
    pub open spec fn text(self) -> Seq<char> {
        match self {
            CqlFileError::InvalidFilename { filename } => filename
                + " is not a valid cql file name"@,
            CqlFileError::UnreadableFile { filename, error } => "failed reading file "@ + filename
                + ": "@ + error,
            CqlFileError::InvalidVersion { filename, version, cause } => "Migration file `"@
                + filename + "` has invalid version `"@ + version + "`"@,
            CqlFileError::ScanFailed { cause } => "Failed to scan migration directory"@,
            CqlFileError::PreviousIndexInvalid { cause } => "Previous index invalid"@,
            CqlFileError::RepeatedVersion { previous, filename, expected } => previous + " and "@
                + filename + " repeat versions instead of incrementing to v"@ + version_text(
                expected,
            ),
            CqlFileError::MissingVersion { filename, expected } => filename
                + " found without a preceding v"@ + version_text(expected) + " version cql file"@,
        }
    }

    /// The text of what caused the error, if something else did.
    pub open spec fn cause_text(self) -> Option<Seq<char>> {
        match self {
            CqlFileError::InvalidVersion { filename, version, cause } => Some(cause.text()),
            CqlFileError::ScanFailed { cause } => Some(cause.text()),
            CqlFileError::PreviousIndexInvalid { cause } => Some(cause),
            _ => None,
        }
    }
}

impl CqlFileError<String> {
    /// The text of the error.
    pub fn message(&self) -> (message: String)
        ensures
            message@ == self.deep_view().text(),
    {
        let mut message: String = String::new();
        match self {
            CqlFileError::InvalidFilename { filename } => {
                message.append(filename.as_str());
                message.append(" is not a valid cql file name");
            },
            CqlFileError::UnreadableFile { filename, error } => {
                message.append("failed reading file ");
                message.append(filename.as_str());
                message.append(": ");
                message.append(error.as_str());
            },
            CqlFileError::InvalidVersion { filename, version, cause } => {
                message.append("Migration file `");
                message.append(filename.as_str());
                message.append("` has invalid version `");
                message.append(version.as_str());
                message.append("`");
            },
            CqlFileError::ScanFailed { cause } => {
                message.append("Failed to scan migration directory");
            },
            CqlFileError::PreviousIndexInvalid { cause } => {
                message.append("Previous index invalid");
            },
            CqlFileError::RepeatedVersion { previous, filename, expected } => {
                message.append(previous.as_str());
                message.append(" and ");
                message.append(filename.as_str());
                message.append(" repeat versions instead of incrementing to v");
                append_padded(&mut message, *expected);
            },
            CqlFileError::MissingVersion { filename, expected } => {
                message.append(filename.as_str());
                message.append(" found without a preceding v");
                append_padded(&mut message, *expected);
                message.append(" version cql file");
            },
        }
        message
    }

    /// The text of what caused the error, if something else did.
    pub fn cause_message(&self) -> (message: Option<String>)
        ensures
            message.deep_view() == self.deep_view().cause_text(),
    {
        match self {
            CqlFileError::InvalidVersion { filename, version, cause } => Some(cause.message()),
            CqlFileError::ScanFailed { cause } => Some(cause.message()),
            CqlFileError::PreviousIndexInvalid { cause } => Some(cause.clone()),
            _ => None,
        }
    }
}

/// What an outcome says, whether it is a success or a failure.
pub open spec fn outcome<T: DeepView, E: DeepView>(result: Result<T, E>) -> Result<T::V, E::V> {
    match result {
        Ok(value) => Ok(value.deep_view()),
        Err(error) => Err(error.deep_view()),
    }
}

} // verus!
