//! Migration files: what is recorded of each, and the statements that it holds.
use vstd::prelude::*;
use vstd::string::*;
use vstd::utf8::{decode_utf8, is_ascii_chars, valid_utf8};

use crate::digest::{content_hash, hash_content};
use crate::error::{outcome, CqlFileError, MigrateError, NumberError};
use crate::filename::{
    all_digits, ascii_version, decimal_value, digits_end, find_version, lemma_digits_end,
    may_be_digit, number_in, parse_number, version_in,
};
use crate::statement::{parse_statements, statements_of, CqlStatement, Statement};

verus! {

/// A migration file.
#[derive(Debug)]
pub struct CqlFile {
    /// The name of the file.
    pub filename: String,
    /// The MD5 digest of the file's content, in hexadecimal.
    pub hash: String,
    /// The path of the file.
    pub path: String,
    /// The version in the file's name.
    pub version: i16,
}

impl Clone for CqlFile {
    fn clone(&self) -> (copy: Self)
        ensures
            copy == *self,
    {
        CqlFile {
            filename: self.filename.clone(),
            hash: self.hash.clone(),
            path: self.path.clone(),
            version: self.version,
        }
    }
}

/// What a [`CqlFile`] says.
pub struct FileRecord {
    pub filename: Seq<char>,
    pub hash: Seq<char>,
    pub path: Seq<char>,
    pub version: i16,
}

impl DeepView for CqlFile {
    type V = FileRecord;

    open spec fn deep_view(&self) -> FileRecord {
        FileRecord {
            filename: self.filename@,
            hash: self.hash@,
            path: self.path@,
            version: self.version,
        }
    }
}

/// What reading a file gave: its bytes, or the text of the error.
pub open spec fn read_outcome(content: Result<Vec<u8>, String>) -> Result<Seq<u8>, Seq<char>> {
    match content {
        Ok(bytes) => Ok(bytes@),
        Err(error) => Err(error@),
    }
}

/// What becomes of a file, given the version that was found in its name and what
/// reading the file gave.
pub open spec fn file_outcome(
    path: Seq<char>,
    filename: Seq<char>,
    version: Option<Seq<char>>,
    content: Result<Seq<u8>, Seq<char>>,
) -> Result<FileRecord, CqlFileError<Seq<char>>> {
    match (version, content) {
        (None, _) => Err(CqlFileError::InvalidFilename { filename }),
        (Some(_), Err(error)) => Err(CqlFileError::UnreadableFile { filename, error }),
        (Some(digits), Ok(bytes)) => match number_in(digits) {
            Err(cause) => Err(CqlFileError::InvalidVersion { filename, version: digits, cause }),
            Ok(version) => Ok(
                FileRecord { filename, hash: content_hash(bytes), path, version },
            ),
        },
    }
}

impl CqlFile {
    /// Records the file at `path`, whose name is `filename`, given the version
    /// that was found in the name and what reading the file gave.
    pub fn from_parts(
        path: String,
        filename: String,
        version: Option<String>,
        content: Result<Vec<u8>, String>,
    ) -> (file: Result<CqlFile, CqlFileError>)
        ensures
            outcome(file) == file_outcome(
                path@,
                filename@,
                version.deep_view(),
                read_outcome(content),
            ),
            file matches Ok(f) ==> f.hash@.len() == 32,
    {
        let digits: String = match version {
            None => {
                return Err(CqlFileError::InvalidFilename { filename });
            },
            Some(digits) => digits,
        };
        let bytes: Vec<u8> = match content {
            Err(error) => {
                return Err(CqlFileError::UnreadableFile { filename, error });
            },
            Ok(bytes) => bytes,
        };
        let hash: String = hash_content(&bytes);
        match parse_number(digits.as_str()) {
            Err(cause) => Err(CqlFileError::InvalidVersion { filename, version: digits, cause }),
            Ok(version) => Ok(CqlFile { filename, hash, path, version }),
        }
    }

    /// Records the file at `path`, whose name is `filename`, given what reading
    /// the file gave.
    pub fn from_path(path: String, filename: String, content: Result<Vec<u8>, String>) -> (file:
        Result<CqlFile, CqlFileError>)
        ensures
            outcome(file) == file_outcome(
                path@,
                filename@,
                version_in(filename@),
                read_outcome(content),
            ),
            is_ascii_chars(filename@) ==> outcome(file) == file_outcome(
                path@,
                filename@,
                ascii_version(filename@),
                read_outcome(content),
            ),
            file matches Ok(f) ==> {
                &&& f.hash@.len() == 32
                &&& 0 <= f.version <= 999
                &&& f.version == decimal_value(filename@.subrange(1, 4))
            },
            file matches Err(CqlFileError::InvalidVersion { cause, .. }) ==> cause
                == NumberError::InvalidDigit,
    {
        let version: Option<String> = find_version(filename.as_str());
        proof {
            if let Some(digits) = version_in(filename@) {
                let digit = |c: char| may_be_digit(c);
                assert(digit(filename@[1]));
                lemma_three_characters(digits);
            }
        }
        CqlFile::from_parts(path, filename, version, content)
    }

    /// The name of the file.
    pub fn to_string(&self) -> (name: String)
        ensures
            name@ == self.filename@,
    {
        self.filename.clone()
    }
}

proof fn lemma_decimal_value(digits: Seq<char>)
    requires
        all_digits(digits),
    ensures
        digits.len() == 0 ==> decimal_value(digits) == 0,
        digits.len() == 1 ==> decimal_value(digits) <= 9,
        digits.len() == 2 ==> decimal_value(digits) <= 99,
        digits.len() == 3 ==> decimal_value(digits) <= 999,
    decreases digits.len(),
{
    if digits.len() > 0 {
        lemma_decimal_value(digits.drop_last());
    }
}

/// Three characters without a sign in front are a number between 0 and 999, or
/// one of them is no digit.
proof fn lemma_three_characters(text: Seq<char>)
    requires
        text.len() == 3,
        may_be_digit(text[0]),
    ensures
        match number_in(text) {
            Ok(number) => 0 <= number <= 999 && number == decimal_value(text),
            Err(error) => error == NumberError::InvalidDigit,
        },
{
    lemma_digits_end(text, 0);
    lemma_decimal_value(text.take(digits_end(text, 0)));
    assert(text.take(3) == text);
}

// ---------------------------------------------------------------------------
// The statements of a file
// ---------------------------------------------------------------------------

/// The text of the error that `String::from_utf8` gives on bytes that are not
/// UTF-8.
pub uninterp spec fn utf8_error_text(bytes: Seq<u8>) -> Seq<char>;

/// Calls `String::from_utf8`: bytes that are UTF-8 give the text that they
/// encode, others an error. The error is handed out as the text that it
/// displays, which depends on the bytes alone and is left to the standard
/// library.
#[verifier::external_body]
fn decode(bytes: Vec<u8>) -> (text: Result<String, String>)
    ensures
        match text {
            Ok(t) => valid_utf8(bytes@) && t@ == decode_utf8(bytes@),
            Err(e) => !valid_utf8(bytes@) && e@ == utf8_error_text(bytes@),
        },
{
    String::from_utf8(bytes).map_err(|e| e.to_string())
}

/// What is said of a file that is not UTF-8, in front of the error itself.
pub const INVALID_UTF8: &'static str = "CQL file contains invalid UTF-8 sequence: ";

/// What is said of a file without a single character.
pub const EMPTY_FILE: &'static str =
    "Unable to parse migration file: Parsing Error: Error { input: LocatedSpan { offset: 0, line: 1, fragment: \"\", extra: () }, code: Eof }";

/// The statements of a file at `path`, given what reading the file gave.
pub open spec fn statements_outcome(path: Seq<char>, content: Result<Seq<u8>, Seq<char>>) -> Result<
    Seq<Statement>,
    MigrateError<Seq<char>>,
> {
    match content {
        Err(error) => Err(MigrateError::CqlFileReadError { filename: path, error }),
        Ok(bytes) => if !valid_utf8(bytes) {
            Err(
                MigrateError::CqlFileReadError {
                    filename: path,
                    error: INVALID_UTF8@ + utf8_error_text(bytes),
                },
            )
        } else if bytes.len() == 0 {
            Err(MigrateError::CqlFileReadError { filename: path, error: EMPTY_FILE@ })
        } else {
            Ok(statements_of(decode_utf8(bytes)))
        },
    }
}

impl CqlFile {
    /// Reads the statements of the file, given what reading the file gave.
    pub fn read_statements(&self, content: Result<Vec<u8>, String>) -> (statements: Result<
        Vec<CqlStatement>,
        MigrateError,
    >)
        ensures
            outcome(statements) == statements_outcome(self.path@, read_outcome(content)),
    {
        let bytes: Vec<u8> = match content {
            Err(error) => {
                return Err(MigrateError::CqlFileReadError { filename: self.path.clone(), error });
            },
            Ok(bytes) => bytes,
        };
        let empty: bool = bytes.len() == 0;
        match decode(bytes) {
            Err(text) => {
                let mut error: String = String::new();
                error.append(INVALID_UTF8);
                error.append(text.as_str());
                Err(MigrateError::CqlFileReadError { filename: self.path.clone(), error })
            },
            Ok(text) => if empty {
                let mut error: String = String::new();
                error.append(EMPTY_FILE);
                Err(MigrateError::CqlFileReadError { filename: self.path.clone(), error })
            } else {
                Ok(parse_statements(text.as_str()))
            },
        }
    }
}

} // verus!
