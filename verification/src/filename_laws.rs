//! What holds of the names of migrations.
use vstd::prelude::*;

use crate::error::{version_text, NumberError};
use crate::filename::{
    all_digits, ascii_version, decimal_value, digits_end, has_form, is_ascii_digit,
    is_ascii_letter, lemma_digits_end, number_in, regex_capture, version_in,
};
use crate::text::{decimal, digit_char};

verus! {

proof fn lemma_three_digits(digits: Seq<char>)
    requires
        digits.len() == 3,
        all_digits(digits),
    ensures
        decimal_value(digits) == 100 * (digits[0] as u32 - '0' as u32) + 10 * (digits[1] as u32
            - '0' as u32) + (digits[2] as u32 - '0' as u32),
        number_in(digits) == Ok::<i16, NumberError>(decimal_value(digits) as i16),
{
    let two = digits.drop_last();
    let one = two.drop_last();
    assert(is_ascii_digit(digits[0]) && is_ascii_digit(digits[1]) && is_ascii_digit(digits[2]));
    assert(two.last() == digits[1] && one.last() == digits[0]);
    assert(one.drop_last().len() == 0);
    assert(decimal_value(one.drop_last()) == 0);
    assert(decimal_value(one) == digits[0] as u32 - '0' as u32);
    lemma_digits_end(digits, 0);
    assert(digits.take(3) == digits);
    assert(decimal_value(two) == 10 * decimal_value(one) + (digits[1] as u32 - '0' as u32));
}

/// Three decimal digits are always a number: the one that they write.
pub proof fn law_three_digits_are_a_number(digits: Seq<char>)
    requires
        digits.len() == 3,
        forall|k: int| 0 <= k < 3 ==> '0' <= #[trigger] digits[k] <= '9',
    ensures
        number_in(digits) == Ok::<i16, NumberError>(
            (100 * (digits[0] as int - '0' as int) + 10 * (digits[1] as int - '0' as int) + (
            digits[2] as int - '0' as int)) as i16,
        ),
{
    assert(all_digits(digits));
    lemma_three_digits(digits);
}

/// The version of a migration whose name is made of ASCII characters is always a
/// number: the one that the three digits behind the first letter write.
pub proof fn law_version_is_the_three_digits(name: Seq<char>)
    requires
        ascii_version(name) is Some,
    ensures
        number_in(ascii_version(name)->0) == Ok::<i16, NumberError>(
            (100 * (name[1] as u32 - '0' as u32) + 10 * (name[2] as u32 - '0' as u32) + (
            name[3] as u32 - '0' as u32)) as i16,
        ),
        0 <= number_in(ascii_version(name)->0)->Ok_0 <= 999,
{
    let digits = name.subrange(1, 4);
    let digit = |c: char| is_ascii_digit(c);
    assert(digit(name[1]) && digit(name[2]) && digit(name[3]));
    assert forall|k: int| 0 <= k < 3 implies is_ascii_digit(#[trigger] digits[k]) by {
        assert(digit(name[k + 1]));
    }
    lemma_three_digits(digits);
}

/// A version that a file name can hold, written as errors write it, has three
/// digits, and they write the version.
pub proof fn law_version_text_is_read_back(version: i16)
    requires
        0 <= version <= 999,
    ensures
        version_text(version).len() == 3,
        number_in(version_text(version)) == Ok::<i16, NumberError>(version),
{
    let n = version as nat;
    let text = version_text(version);
    reveal_with_fuel(decimal, 3);
    let a = n / 100;
    let b = (n / 10) % 10;
    let c = n % 10;
    assert(n == 100 * a + 10 * b + c);
    assert(text =~= seq![digit_char(a), digit_char(b), digit_char(c)]);
    assert forall|k: int| 0 <= k < 3 implies is_ascii_digit(#[trigger] text[k]) by {}
    lemma_three_digits(text);
}

// ---------------------------------------------------------------------------
// Numbers
// ---------------------------------------------------------------------------

proof fn lemma_digits_end_push(s: Seq<char>, c: char, i: int)
    requires
        0 <= i <= s.len(),
    ensures
        digits_end(s.push(c), i) == if digits_end(s, i) < s.len() {
            digits_end(s, i)
        } else if is_ascii_digit(c) {
            s.len() as int + 1
        } else {
            s.len() as int
        },
    decreases s.len() - i,
{
    lemma_digits_end(s, i);
    if i < s.len() {
        assert(s.push(c)[i] == s[i]);
        if is_ascii_digit(s[i]) {
            lemma_digits_end_push(s, c, i + 1);
        }
    } else {
        assert(s.push(c)[i] == c);
        if is_ascii_digit(c) {
            assert(digits_end(s.push(c), i + 1) == s.len() + 1);
        }
    }
}

/// `text` is a sign and nothing else.
pub open spec fn is_lone_sign(text: Seq<char>) -> bool {
    text.len() == 1 && (text[0] == '+' || text[0] == '-')
}

/// No text at all is no number. A single character is a number if it is a decimal
/// digit.
pub proof fn law_number_of_one_character(c: char)
    ensures
        number_in(Seq::<char>::empty()) == Err::<i16, NumberError>(NumberError::Empty),
        number_in(seq![c]) == if '0' <= c <= '9' {
            Ok::<i16, NumberError>((c as int - '0' as int) as i16)
        } else {
            Err(NumberError::InvalidDigit)
        },
{
    let s = seq![c];
    reveal_with_fuel(digits_end, 2);
    reveal_with_fuel(decimal_value, 2);
    if is_ascii_digit(c) {
        assert(s.take(1) =~= s);
        assert(s.drop_last() =~= Seq::<char>::empty());
        assert(decimal_value(s) == c as int - '0' as int);
    } else if c == '-' || c == '+' {
        assert(s.drop_first() =~= Seq::<char>::empty());
        assert(s.drop_first().take(0) =~= Seq::<char>::empty());
    } else {
        assert(s.take(0) =~= Seq::<char>::empty());
    }
}

/// One more digit makes ten times the number and the digit, further away from zero
/// where a `-` stands in front; a number that an `i16` cannot hold is an error. One
/// more of any other character is an error. A text that is no number does not
/// become one, unless it is a sign that still waits for its digits.
pub proof fn law_number_of_one_more_character(text: Seq<char>, c: char)
    requires
        text.len() > 0,
    ensures
        !is_lone_sign(text) && number_in(text) is Err ==> number_in(text.push(c)) == number_in(
            text,
        ),
        is_lone_sign(text) || number_in(text) is Ok ==> number_in(text.push(c)) == ({
            let n = if is_lone_sign(text) {
                0
            } else {
                number_in(text)->Ok_0 as int
            };
            let d = c as int - '0' as int;
            let m = if text[0] == '-' {
                10 * n - d
            } else {
                10 * n + d
            };
            if !('0' <= c <= '9') {
                Err::<i16, NumberError>(NumberError::InvalidDigit)
            } else if m > 32767 {
                Err(NumberError::TooLarge)
            } else if m < -32768 {
                Err(NumberError::TooSmall)
            } else {
                Ok(m as i16)
            }
        }),
{
    let signed = text[0] == '-' || text[0] == '+';
    let digits = if signed {
        text.drop_first()
    } else {
        text
    };
    let more = text.push(c);
    let more_digits = digits.push(c);
    assert(more[0] == text[0]);
    if signed {
        assert(more.drop_first() =~= more_digits);
    }
    let end = digits_end(digits, 0);
    lemma_digits_end(digits, 0);
    lemma_digits_end_push(digits, c, 0);
    if end < digits.len() || !is_ascii_digit(c) {
        assert(more_digits.take(end) =~= digits.take(end));
    } else {
        assert(digits.take(end) =~= digits);
        assert(more_digits.take(end + 1) =~= more_digits);
        assert(more_digits.drop_last() =~= digits);
        assert(decimal_value(more_digits) == 10 * decimal_value(digits) + (c as int - '0' as int));
    }
    if digits.len() == 0 {
        assert(digits.take(0) =~= digits);
        assert(decimal_value(digits) == 0);
    }
}

proof fn lemma_decimal_is_read(n: nat)
    requires
        n <= 32767,
    ensures
        number_in(decimal(n)) == Ok::<i16, NumberError>(n as i16),
        '0' <= decimal(n)[0] <= '9',
        n > 0 ==> decimal(n)[0] != '0',
        decimal(n).len() > 0,
        decimal(n).len() >= 2 <==> n >= 10,
        decimal(n).len() >= 3 <==> n >= 100,
        decimal(n).len() >= 4 <==> n >= 1000,
    decreases n,
{
    if n < 10 {
        law_number_of_one_character(decimal(n)[0]);
        assert(decimal(n) =~= seq![decimal(n)[0]]);
    } else {
        let front = decimal(n / 10);
        lemma_decimal_is_read(n / 10);
        assert(decimal(n) == front.push(digit_char(n % 10)));
        law_number_of_one_more_character(front, digit_char(n % 10));
    }
}

/// A version as errors write it has at least three characters. They write the
/// version, without a zero in front where there are more than three.
pub proof fn law_version_text_writes_the_version(version: i16)
    requires
        0 <= version,
    ensures
        version_text(version).len() >= 3,
        number_in(version_text(version)) == Ok::<i16, NumberError>(version),
        version_text(version).len() > 3 ==> version_text(version)[0] != '0',
        version_text(version).len() == 3 <==> version <= 999,
{
    lemma_decimal_is_read(version as nat);
    if version <= 999 {
        law_version_text_is_read_back(version);
    }
}

// ---------------------------------------------------------------------------
// The form of a name
// ---------------------------------------------------------------------------

/// A character that may stand between the version and the dot: a letter, a digit,
/// `-` or `_`.
pub open spec fn is_name_char(c: char) -> bool {
    'a' <= c <= 'z' || 'A' <= c <= 'Z' || '0' <= c <= '9' || c == '-' || c == '_'
}

/// A name made of `v` or `V`, three digits, any letters, digits, `-` and `_`, one
/// character that is no line feed, and `cql`, has its three digits as version.
pub proof fn law_version_of_a_name(first: char, digits: Seq<char>, middle: Seq<char>, dot: char)
    requires
        first == 'v' || first == 'V',
        digits.len() == 3,
        forall|k: int| 0 <= k < 3 ==> '0' <= #[trigger] digits[k] <= '9',
        forall|k: int| 0 <= k < middle.len() ==> is_name_char(#[trigger] middle[k]),
        dot != '\n',
    ensures
        ascii_version(seq![first] + digits + middle + seq![dot, 'c', 'q', 'l']) == Some(digits),
{
    let name = seq![first] + digits + middle + seq![dot, 'c', 'q', 'l'];
    let n = name.len() as int;
    let digit = |c: char| is_ascii_digit(c);
    assert forall|k: int| 1 <= k < 4 implies digit(#[trigger] name[k]) by {
        assert(name[k] == digits[k - 1]);
    }
    assert forall|k: int| 4 <= k < n - 4 implies {
        ||| #[trigger] name[k] == '-'
        ||| name[k] == '_'
        ||| is_ascii_letter(name[k])
        ||| digit(name[k])
    } by {
        assert(name[k] == middle[k - 4]);
        assert(is_name_char(middle[k - 4]));
    }
    assert(has_form(name, digit));
    assert(name.subrange(1, 4) =~= digits);
}

/// A name that has a version is made in that way, and its version is its three
/// digits.
pub proof fn law_name_with_a_version(name: Seq<char>)
    requires
        ascii_version(name) is Some,
    ensures
        name.len() >= 8,
        ascii_version(name) == Some(name.subrange(1, 4)),
        name[0] == 'v' || name[0] == 'V',
        forall|k: int| 1 <= k < 4 ==> '0' <= #[trigger] name[k] <= '9',
        forall|k: int| 4 <= k < name.len() - 4 ==> is_name_char(#[trigger] name[k]),
        name[name.len() - 4] != '\n',
        name.subrange(name.len() - 3, name.len() as int) == seq!['c', 'q', 'l'],
{
    let n = name.len() as int;
    let digit = |c: char| is_ascii_digit(c);
    assert(has_form(name, digit));
    assert forall|k: int| 1 <= k < 4 implies '0' <= #[trigger] name[k] <= '9' by {
        assert(digit(name[k]));
    }
    assert forall|k: int| 4 <= k < n - 4 implies is_name_char(#[trigger] name[k]) by {
        assert(name[k] == '-' || name[k] == '_' || is_ascii_letter(name[k]) || digit(name[k]));
    }
    assert(name.subrange(n - 3, n) =~= seq!['c', 'q', 'l']);
}

/// The version in a name is what the pattern captures of that very name.
pub proof fn law_version_is_captured(name: Seq<char>)
    ensures
        version_in(name) == regex_capture(
            r"^[Vv](?P<version>[\d]{3})(?:[-_\da-zA-Z]*)?.cql$"@,
            "version"@,
            name,
        ),
{
}

} // verus!
