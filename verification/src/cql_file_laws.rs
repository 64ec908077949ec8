//! What holds of every migration file: of its record, its digest and the
//! statements that are read from it.
use vstd::prelude::*;
use vstd::utf8::{
    decode_utf8, decode_utf8_encode_utf8, encode_scalar, encode_utf8, encode_utf8_decode_utf8,
    valid_utf8, valid_utf8_concat,
};

use crate::cql_file::{
    file_outcome, read_outcome, statements_outcome, utf8_error_text, CqlFile,
};
use crate::digest::{content_hash, hex, hex_digit, md5_digest};
use crate::error::{outcome, CqlFileError, MigrateError, NumberError};
use crate::filename::number_in;
use crate::filename_laws::law_three_digits_are_a_number;
use crate::statement::{statements_of, CqlStatement, Statement};
use crate::statement_account::{
    closed_behind, ends_at, endings, law_each_semicolon_ends_one_statement, law_two_texts_in_a_row,
    leaves_block_open, line_feeds,
};
use crate::statement_laws::moved_down;

verus! {

// ---------------------------------------------------------------------------
// The digest
// ---------------------------------------------------------------------------

/// What a lower-case hexadecimal digit stands for; below zero for any other
/// character.
pub open spec fn hex_value(c: char) -> int {
    if '0' <= c <= '9' {
        c as int - '0' as int
    } else if 'a' <= c <= 'f' {
        c as int - 'a' as int + 10
    } else {
        -1
    }
}

/// `text` writes `bytes`: each byte as two lower-case hexadecimal digits, the
/// higher one first.
pub open spec fn writes_in_hex(text: Seq<char>, bytes: Seq<u8>) -> bool {
    &&& text.len() == 2 * bytes.len()
    &&& forall|i: int|
        0 <= i < bytes.len() ==> {
            &&& 0 <= hex_value(text[2 * i]) < 16
            &&& 0 <= hex_value(text[2 * i + 1]) < 16
            &&& 16 * hex_value(text[2 * i]) + hex_value(text[2 * i + 1]) == #[trigger] bytes[i]
        }
}

proof fn lemma_hex_digit(n: int)
    requires
        0 <= n < 16,
    ensures
        hex_value(hex_digit(n)) == n,
{
}

/// Bytes in hexadecimal are two digits for each byte, which write the byte.
pub proof fn law_hex_writes_the_bytes(bytes: Seq<u8>)
    ensures
        writes_in_hex(hex(bytes), bytes),
{
    let text = hex(bytes);
    assert forall|i: int| 0 <= i < bytes.len() implies {
        &&& 0 <= hex_value(text[2 * i]) < 16
        &&& 0 <= hex_value(text[2 * i + 1]) < 16
        &&& 16 * hex_value(text[2 * i]) + hex_value(text[2 * i + 1]) == #[trigger] bytes[i]
    } by {
        assert((2 * i) / 2 == i && (2 * i) % 2 == 0);
        assert((2 * i + 1) / 2 == i && (2 * i + 1) % 2 == 1);
        lemma_hex_digit(bytes[i] as int / 16);
        lemma_hex_digit(bytes[i] as int % 16);
    }
}

/// The recorded digest of a content of any length writes, in hexadecimal, the MD5
/// digest of that very content.
pub proof fn law_hash_writes_the_digest(content: Seq<u8>)
    ensures
        writes_in_hex(content_hash(content), md5_digest(content)),
{
    law_hex_writes_the_bytes(md5_digest(content));
}

/// Two contents are recorded with the same digest only if MD5 gives the same for
/// both.
pub proof fn law_same_hash_same_digest(a: Seq<u8>, b: Seq<u8>)
    ensures
        content_hash(a) == content_hash(b) <==> md5_digest(a) == md5_digest(b),
{
    law_hash_writes_the_digest(a);
    law_hash_writes_the_digest(b);
    if content_hash(a) == content_hash(b) {
        assert(md5_digest(a) =~= md5_digest(b));
    }
}

// ---------------------------------------------------------------------------
// The record
// ---------------------------------------------------------------------------

/// A file whose name holds three digits as its version and that can be read is
/// recorded: with the path and the name as they are given, the number that the
/// three digits write and the digest of its whole content.
pub proof fn law_what_is_recorded(
    path: Seq<char>,
    filename: Seq<char>,
    digits: Seq<char>,
    content: Seq<u8>,
)
    requires
        digits.len() == 3,
        forall|k: int| 0 <= k < 3 ==> '0' <= #[trigger] digits[k] <= '9',
    ensures
        file_outcome(path, filename, Some(digits), Ok(content)) matches Ok(file) && {
            &&& file.path == path
            &&& file.filename == filename
            &&& file.version == 100 * (digits[0] as int - '0' as int) + 10 * (digits[1] as int
                - '0' as int) + (digits[2] as int - '0' as int)
            &&& writes_in_hex(file.hash, md5_digest(content))
        },
{
    law_three_digits_are_a_number(digits);
    law_hash_writes_the_digest(content);
}

/// A file is recorded only if a version was found in its name, the version is a
/// number and the file can be read; then the record holds what was given. If not,
/// the error says which of these failed, in this order: the name, the reading, the
/// version.
pub proof fn law_when_a_file_is_recorded(
    path: Seq<char>,
    filename: Seq<char>,
    version: Option<Seq<char>>,
    content: Result<Seq<u8>, Seq<char>>,
)
    ensures
        match file_outcome(path, filename, version, content) {
            Ok(file) => {
                &&& version is Some && number_in(version->0) is Ok && content is Ok
                &&& file.path == path
                &&& file.filename == filename
                &&& file.version == number_in(version->0)->Ok_0
                &&& writes_in_hex(file.hash, md5_digest(content->Ok_0))
            },
            Err(CqlFileError::InvalidFilename { filename: name }) => version is None && name
                == filename,
            Err(CqlFileError::UnreadableFile { filename: name, error }) => {
                &&& version is Some && content is Err
                &&& name == filename
                &&& error == content->Err_0
            },
            Err(CqlFileError::InvalidVersion { filename: name, version: digits, cause }) => {
                &&& version is Some && content is Ok && number_in(version->0) is Err
                &&& name == filename
                &&& digits == version->0
                &&& cause == number_in(version->0)->Err_0
            },
            Err(_) => false,
        },
{
    if let Ok(bytes) = content {
        law_hash_writes_the_digest(bytes);
    }
}

/// What is said of a record, or of the error in its place, is said of the record
/// itself.
pub proof fn law_a_record_is_what_is_said_of_it(
    file: Result<CqlFile, CqlFileError>,
    path: Seq<char>,
    filename: Seq<char>,
    version: Option<Seq<char>>,
    content: Result<Vec<u8>, String>,
)
    requires
        outcome(file) == file_outcome(path, filename, version, read_outcome(content)),
    ensures
        match file {
            Ok(f) => {
                &&& f.path@ == path
                &&& f.filename@ == filename
                &&& version is Some && number_in(version->0)
                    == Ok::<i16, NumberError>(f.version)
                &&& content matches Ok(bytes) && writes_in_hex(f.hash@, md5_digest(bytes@))
            },
            Err(CqlFileError::InvalidFilename { filename: name }) => version is None && name@
                == filename,
            Err(CqlFileError::UnreadableFile { filename: name, error }) => {
                &&& version is Some
                &&& name@ == filename
                &&& content matches Err(text) && error@ == text@
            },
            Err(CqlFileError::InvalidVersion { filename: name, version: digits, cause }) => {
                &&& version is Some && content is Ok
                &&& number_in(version->0) == Err::<i16, NumberError>(cause)
                &&& name@ == filename
                &&& digits@ == version->0
            },
            Err(_) => false,
        },
{
    law_when_a_file_is_recorded(path, filename, version, read_outcome(content));
}

// ---------------------------------------------------------------------------
// The statements
// ---------------------------------------------------------------------------

/// Reading a file that holds at least one character, all of it UTF-8, gives every
/// statement of its text: as many as it holds `;` outside of comments, each with
/// its text and its lines, in their order.
pub proof fn law_all_statements_are_read(
    path: Seq<char>,
    content: Result<Vec<u8>, String>,
    statements: Result<Vec<CqlStatement>, MigrateError>,
)
    requires
        outcome(statements) == statements_outcome(path, read_outcome(content)),
        content matches Ok(bytes) && bytes@.len() > 0 && valid_utf8(bytes@),
    ensures
        ({
            let text = decode_utf8(content->Ok_0@);
            &&& statements matches Ok(read)
            &&& read@.len() == endings(text, text.len() as int)
            &&& read@.len() == statements_of(text).len()
            &&& forall|k: int|
                0 <= k < read@.len() ==> {
                    &&& (#[trigger] read@[k]).cql@ == statements_of(text)[k].cql
                    &&& read@[k].lines.0 == statements_of(text)[k].lines.0
                    &&& read@[k].lines.1 == statements_of(text)[k].lines.1
                }
        }),
{
    let text = decode_utf8(content->Ok_0@);
    law_each_semicolon_ends_one_statement(text);
    let read = statements->Ok_0;
    assert(read.deep_view() == statements_of(text));
    assert forall|k: int| 0 <= k < read@.len() implies (#[trigger] read@[k]).deep_view()
        == statements_of(text)[k] by {
        assert(read.deep_view()[k] == read@[k].deep_view());
    }
}

/// No statements are read only from a file that cannot be read, that is not UTF-8
/// or that is empty; the error names the file and tells which.
pub proof fn law_when_no_statements_are_read(
    path: Seq<char>,
    content: Result<Vec<u8>, String>,
    statements: Result<Vec<CqlStatement>, MigrateError>,
)
    requires
        outcome(statements) == statements_outcome(path, read_outcome(content)),
    ensures
        statements is Err <==> (content matches Ok(bytes) ==> bytes@.len() == 0 || !valid_utf8(
            bytes@,
        )),
        statements matches Err(MigrateError::CqlFileReadError { filename, error }) ==> {
            &&& filename@ == path
            &&& match content {
                Err(text) => error@ == text@,
                Ok(bytes) => if bytes@.len() == 0 {
                    error@
                        == "Unable to parse migration file: Parsing Error: Error { input: LocatedSpan { offset: 0, line: 1, fragment: \"\", extra: () }, code: Eof }"@
                } else {
                    error@ == "CQL file contains invalid UTF-8 sequence: "@ + utf8_error_text(
                        bytes@,
                    )
                },
            }
        },
{
    if let Ok(bytes) = content {
        if bytes@.len() == 0 {
            assert(valid_utf8(bytes@));
        }
    }
}

proof fn lemma_encode_concat(a: Seq<char>, b: Seq<char>)
    ensures
        encode_utf8(a + b) == encode_utf8(a) + encode_utf8(b),
    decreases a.len(),
{
    if a.len() == 0 {
        assert(a + b =~= b);
        assert(encode_utf8(a) + encode_utf8(b) =~= encode_utf8(b));
    } else {
        lemma_encode_concat(a.drop_first(), b);
        assert((a + b).drop_first() =~= a.drop_first() + b);
        assert(encode_utf8(a + b) =~= encode_scalar(a[0] as u32) + (encode_utf8(a.drop_first())
            + encode_utf8(b)));
        assert(encode_utf8(a) + encode_utf8(b) =~= encode_scalar(a[0] as u32) + (encode_utf8(
            a.drop_first(),
        ) + encode_utf8(b)));
    }
}

proof fn lemma_decode_concat(a: Seq<u8>, b: Seq<u8>)
    requires
        valid_utf8(a),
        valid_utf8(b),
    ensures
        valid_utf8(a + b),
        decode_utf8(a + b) == decode_utf8(a) + decode_utf8(b),
{
    valid_utf8_concat(a, b);
    decode_utf8_encode_utf8(a);
    decode_utf8_encode_utf8(b);
    lemma_encode_concat(decode_utf8(a), decode_utf8(b));
    encode_utf8_decode_utf8(decode_utf8(a) + decode_utf8(b));
}

/// Reading a content that is two contents in a row, the first of which ends with
/// the `;` of a statement, gives the statements of both, whatever their number:
/// those of the second further down by the lines of the first. The second content
/// must not close a `/*` that the first leaves open.
pub proof fn law_two_contents_in_a_row(path: Seq<char>, a: Seq<u8>, b: Seq<u8>)
    requires
        valid_utf8(a),
        valid_utf8(b),
        decode_utf8(a).len() > 0,
        b.len() > 0,
        ends_at(decode_utf8(a), decode_utf8(a).len() - 1),
        leaves_block_open(decode_utf8(a)) ==> !closed_behind(decode_utf8(b), 0),
    ensures
        ({
            let down = line_feeds(decode_utf8(a), decode_utf8(a).len() as int) as int;
            &&& statements_outcome(path, Ok(a)) matches Ok(first)
            &&& statements_outcome(path, Ok(b)) matches Ok(second)
            &&& statements_outcome(path, Ok(a + b)) == Ok::<
                Seq<Statement>,
                MigrateError<Seq<char>>,
            >(first + moved_down(second, down))
        }),
{
    assert(a.len() > 0);
    lemma_decode_concat(a, b);
    law_two_texts_in_a_row(decode_utf8(a), decode_utf8(b));
}

} // verus!
