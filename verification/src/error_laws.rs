//! What every error says.
use vstd::prelude::*;

use crate::error::{version_text, CqlFileError, MigrateError, NumberError, ScanError};

verus! {

/// What is told of a scan that failed names the directory, or is the text of the
/// error that came up.
pub proof fn law_texts_of_scan_errors(directory: Seq<char>, error: Seq<char>)
    ensures
        (ScanError::DirectoryNotFound { directory }).text() == "could not find directory '"@
            + directory + "'"@,
        (ScanError::UnreadableEntry { error }).text() == error,
        (ScanError::NoCqlFiles { directory }).text() == "no cql files found in directory '"@
            + directory + "'"@,
{
}

/// What is told of a text that is no number.
pub proof fn law_texts_of_number_errors()
    ensures
        NumberError::Empty.text() == "cannot parse integer from empty string"@,
        NumberError::InvalidDigit.text() == "invalid digit found in string"@,
        NumberError::TooLarge.text() == "number too large to fit in target type"@,
        NumberError::TooSmall.text() == "number too small to fit in target type"@,
{
}

/// What is told of a file names the file, and what is wrong with it.
pub proof fn law_texts_of_file_errors(
    filename: Seq<char>,
    error: Seq<char>,
    version: Seq<char>,
    cause: NumberError,
)
    ensures
        (CqlFileError::InvalidFilename { filename }).text() == filename
            + " is not a valid cql file name"@,
        (CqlFileError::InvalidFilename { filename }).cause_text() is None,
        (CqlFileError::UnreadableFile { filename, error }).text() == "failed reading file "@
            + filename + ": "@ + error,
        (CqlFileError::UnreadableFile { filename, error }).cause_text() is None,
        (CqlFileError::InvalidVersion { filename, version, cause }).text() == "Migration file `"@
            + filename + "` has invalid version `"@ + version + "`"@,
        (CqlFileError::InvalidVersion { filename, version, cause }).cause_text() == Some(
            cause.text(),
        ),
{
}

/// What is told of a directory names the files that are out of turn and the
/// version that was expected, or is caused by what went wrong before.
pub proof fn law_texts_of_directory_errors(
    previous: Seq<char>,
    filename: Seq<char>,
    expected: i16,
    scan: ScanError<Seq<char>>,
    cause: Seq<char>,
)
    ensures
        (CqlFileError::RepeatedVersion { previous, filename, expected }).text() == previous
            + " and "@ + filename + " repeat versions instead of incrementing to v"@ + version_text(
            expected,
        ),
        (CqlFileError::RepeatedVersion { previous, filename, expected }).cause_text() is None,
        (CqlFileError::<Seq<char>>::MissingVersion { filename, expected }).text() == filename
            + " found without a preceding v"@ + version_text(expected) + " version cql file"@,
        (CqlFileError::<Seq<char>>::MissingVersion { filename, expected }).cause_text() is None,
        (CqlFileError::ScanFailed { cause: scan }).text() == "Failed to scan migration directory"@,
        (CqlFileError::ScanFailed { cause: scan }).cause_text() == Some(scan.text()),
        (CqlFileError::PreviousIndexInvalid { cause }).text() == "Previous index invalid"@,
        (CqlFileError::PreviousIndexInvalid { cause }).cause_text() == Some(cause),
{
}

/// What is said of an error is said of what it holds.
pub proof fn law_an_error_is_what_is_said_of_it(
    file: CqlFileError,
    scan: ScanError,
    statements: MigrateError,
)
    ensures
        match file {
            CqlFileError::InvalidFilename { filename } => file.deep_view() == (
            CqlFileError::InvalidFilename { filename: filename@ }),
            CqlFileError::UnreadableFile { filename, error } => file.deep_view() == (
            CqlFileError::UnreadableFile { filename: filename@, error: error@ }),
            CqlFileError::InvalidVersion { filename, version, cause } => file.deep_view() == (
            CqlFileError::InvalidVersion { filename: filename@, version: version@, cause }),
            CqlFileError::ScanFailed { cause } => file.deep_view() == (CqlFileError::ScanFailed {
                cause: cause.deep_view(),
            }),
            CqlFileError::PreviousIndexInvalid { cause } => file.deep_view() == (
            CqlFileError::PreviousIndexInvalid { cause: cause@ }),
            CqlFileError::RepeatedVersion { previous, filename, expected } => file.deep_view() == (
            CqlFileError::RepeatedVersion {
                previous: previous@,
                filename: filename@,
                expected,
            }),
            CqlFileError::MissingVersion { filename, expected } => file.deep_view() == (
            CqlFileError::<Seq<char>>::MissingVersion { filename: filename@, expected }),
        },
        match scan {
            ScanError::DirectoryNotFound { directory } => scan.deep_view() == (
            ScanError::DirectoryNotFound { directory: directory@ }),
            ScanError::UnreadableEntry { error } => scan.deep_view() == (
            ScanError::UnreadableEntry { error: error@ }),
            ScanError::NoCqlFiles { directory } => scan.deep_view() == (ScanError::NoCqlFiles {
                directory: directory@,
            }),
        },
        match statements {
            MigrateError::CqlFileReadError { filename, error } => statements.deep_view() == (
            MigrateError::CqlFileReadError { filename: filename@, error: error@ }),
        },
{
}

} // verus!
