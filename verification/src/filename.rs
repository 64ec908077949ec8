//! The names of migration files.
//!
//! A migration is named `v` or `V`, then three digits, then any letters,
//! digits, `-` and `_`, then `.cql`.
use vstd::prelude::*;
use vstd::utf8::is_ascii_chars;

use crate::error::NumberError;
use crate::text::chars_of;

verus! {

/// The pattern that the name of a migration matches.
pub const FILENAME_PATTERN: &'static str =
    r"^[Vv](?P<version>[\d]{3})(?:[-_\da-zA-Z]*)?.cql$";

/// The group of [`FILENAME_PATTERN`] that holds the version.
pub const VERSION_GROUP: &'static str = "version";

/// What `regex` captures: the text of the group of that name in the first match
/// of the pattern in the haystack. `None` where the pattern does not compile or
/// does not match, or where the match has no such group.
pub uninterp spec fn regex_capture(
    pattern: Seq<char>,
    group: Seq<char>,
    haystack: Seq<char>,
) -> Option<Seq<char>>;

pub open spec fn is_ascii_digit(c: char) -> bool {
    '0' <= c <= '9'
}

pub open spec fn is_ascii_letter(c: char) -> bool {
    'a' <= c <= 'z' || 'A' <= c <= 'Z'
}

/// An ASCII digit, or a character outside of ASCII: of those, some are digits
/// of other scripts.
pub open spec fn may_be_digit(c: char) -> bool {
    is_ascii_digit(c) || c as u32 >= 128
}

/// `name` has the form that [`FILENAME_PATTERN`] asks for, if `digit` says which
/// characters are digits. The dot of the pattern stands for any character but a
/// line break.
pub open spec fn has_form(name: Seq<char>, digit: spec_fn(char) -> bool) -> bool {
    let n = name.len() as int;
    &&& n >= 8
    &&& name[0] == 'V' || name[0] == 'v'
    &&& forall|k: int| 1 <= k < 4 ==> digit(#[trigger] name[k])
    &&& forall|k: int|
        4 <= k < n - 4 ==> {
            ||| #[trigger] name[k] == '-'
            ||| name[k] == '_'
            ||| is_ascii_letter(name[k])
            ||| digit(name[k])
        }
    &&& name[n - 4] != '\n'
    &&& name[n - 3] == 'c'
    &&& name[n - 2] == 'q'
    &&& name[n - 1] == 'l'
}

/// Compiles `pattern` with `regex::Regex::new`, searches `haystack` with
/// `Regex::captures` and takes the text of `group` with `Captures::name`.
///
/// Of [`FILENAME_PATTERN`] the meaning is stated: a name that matches has the
/// form of the pattern and its version stands behind the first letter; a name
/// that has that form with ASCII digits matches. `\d` also stands for the decimal
/// digits of other scripts; which characters those are is left to Unicode.
#[verifier::external_body]
fn capture(pattern: &str, group: &str, haystack: &str) -> (text: Option<String>)
    ensures
        text.deep_view() == regex_capture(pattern@, group@, haystack@),
        pattern@ == FILENAME_PATTERN@ && group@ == VERSION_GROUP@ ==> (text matches Some(t) ==> {
            &&& has_form(haystack@, |c: char| may_be_digit(c))
            &&& t@ == haystack@.subrange(1, 4)
        }),
        pattern@ == FILENAME_PATTERN@ && group@ == VERSION_GROUP@ && has_form(
            haystack@,
            |c: char| is_ascii_digit(c),
        ) ==> text is Some,
{
    let found = regex::Regex::new(pattern).ok()?.captures(haystack)?;
    found.name(group).map(|m| m.as_str().to_string())
}

/// The version in a name made of ASCII characters alone.
pub open spec fn ascii_version(name: Seq<char>) -> Option<Seq<char>> {
    if has_form(name, |c: char| is_ascii_digit(c)) {
        Some(name.subrange(1, 4))
    } else {
        None
    }
}

/// The version in the name of a migration; `None` for the name of another file.
pub open spec fn version_in(filename: Seq<char>) -> Option<Seq<char>> {
    regex_capture(FILENAME_PATTERN@, VERSION_GROUP@, filename)
}

/// Finds the version in the name of a migration.
pub fn find_version(filename: &str) -> (version: Option<String>)
    ensures
        version.deep_view() == version_in(filename@),
        version matches Some(v) ==> has_form(filename@, |c: char| may_be_digit(c)) && v@
            == filename@.subrange(1, 4),
        has_form(filename@, |c: char| is_ascii_digit(c)) ==> version is Some,
        is_ascii_chars(filename@) ==> version.deep_view() == ascii_version(filename@),
{
    capture(FILENAME_PATTERN, VERSION_GROUP, filename)
}

/// Is `filename` the name of a migration?
pub fn is_cql_filename(filename: &str) -> (yes: bool)
    ensures
        yes == (version_in(filename@) is Some),
        is_ascii_chars(filename@) ==> yes == (ascii_version(filename@) is Some),
{
    find_version(filename).is_some()
}

/// The number that a row of decimal digits writes.
pub open spec fn decimal_value(digits: Seq<char>) -> nat
    decreases digits.len(),
{
    if digits.len() == 0 {
        0
    } else {
        10 * decimal_value(digits.drop_last()) + (digits.last() as u32 - '0' as u32) as nat
    }
}

/// `s` holds decimal digits alone.
pub open spec fn all_digits(s: Seq<char>) -> bool {
    forall|k: int| 0 <= k < s.len() ==> is_ascii_digit(#[trigger] s[k])
}

/// The position of the first character at or behind `i` that is no decimal digit,
/// or the end of the text where there is none.
pub open spec fn digits_end(s: Seq<char>, i: int) -> int
    decreases s.len() - i,
{
    if i >= s.len() {
        s.len() as int
    } else if is_ascii_digit(s[i]) {
        digits_end(s, i + 1)
    } else {
        i
    }
}

pub proof fn lemma_digits_end(s: Seq<char>, i: int)
    requires
        0 <= i <= s.len(),
    ensures
        i <= digits_end(s, i) <= s.len(),
        forall|k: int| i <= k < digits_end(s, i) ==> is_ascii_digit(#[trigger] s[k]),
        all_digits(s) ==> digits_end(s, i) == s.len(),
    decreases s.len() - i,
{
    if i < s.len() && is_ascii_digit(s[i]) {
        lemma_digits_end(s, i + 1);
    }
}

/// The number that `text` writes: a `+`, a `-` or nothing, then one or more
/// decimal digits.
///
/// The text is read from the front: digits that write a number which an `i16`
/// cannot hold are an error of their own, whatever stands behind them.
pub open spec fn number_in(text: Seq<char>) -> Result<i16, NumberError> {
    let signed = text.len() > 0 && (text[0] == '-' || text[0] == '+');
    let digits = if signed {
        text.drop_first()
    } else {
        text
    };
    let end = digits_end(digits, 0);
    let value = if signed && text[0] == '-' {
        -decimal_value(digits.take(end))
    } else {
        decimal_value(digits.take(end)) as int
    };
    if text.len() == 0 {
        Err(NumberError::Empty)
    } else if value > i16::MAX {
        Err(NumberError::TooLarge)
    } else if value < i16::MIN {
        Err(NumberError::TooSmall)
    } else if end == 0 || end < digits.len() {
        Err(NumberError::InvalidDigit)
    } else {
        Ok(value as i16)
    }
}

/// Reads the number that `text` writes.
pub fn parse_number(text: &str) -> (number: Result<i16, NumberError>)
    ensures
        number == number_in(text@),
{
    let chars: Vec<char> = chars_of(text);
    if chars.len() == 0 {
        return Err(NumberError::Empty);
    }
    let negative: bool = chars[0] == '-';
    let start: usize = if negative || chars[0] == '+' {
        1
    } else {
        0
    };
    let ghost digits = if start == 1 {
        text@.drop_first()
    } else {
        text@
    };
    // A value from here on is too large for an `i16` and only grows.
    let limit: u32 = 40000;
    let mut value: u32 = 0;
    let mut i: usize = start;
    while i < chars.len() && '0' <= chars[i] && chars[i] <= '9'
        invariant
            start <= i <= chars@.len(),
            limit == 40000,
            value < 400000,
            digits.len() == chars@.len() - start,
            forall|k: int| 0 <= k < digits.len() ==> #[trigger] digits[k] == chars@[k + start],
            digits_end(digits, 0) == digits_end(digits, i - start),
            value < limit ==> value == decimal_value(digits.take(i - start)),
            value >= limit ==> decimal_value(digits.take(i - start)) >= limit,
        decreases chars@.len() - i,
    {
        assert(is_ascii_digit(digits[i - start]));
        assert(digits.take(i + 1 - start).drop_last() == digits.take(i - start));
        if value < limit {
            value = value * 10 + (chars[i] as u32 - 48);
        }
        i += 1;
    }
    assert(i < chars@.len() ==> !is_ascii_digit(digits[i - start]));
    assert(digits_end(digits, 0) == i - start);
    if negative && value > 32768 {
        Err(NumberError::TooSmall)
    } else if !negative && value > 32767 {
        Err(NumberError::TooLarge)
    } else if i == start || i < chars.len() {
        Err(NumberError::InvalidDigit)
    } else if negative {
        Ok((-(value as i32)) as i16)
    } else {
        Ok(value as i16)
    }
}

} // verus!
