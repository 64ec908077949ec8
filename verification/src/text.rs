//! Moving between strings and the characters that they hold.
use vstd::prelude::*;

verus! {

/// `String::push` appends the given character to the end of the string.
pub assume_specification[ String::push ](s: &mut String, ch: char)
    ensures
        final(s)@ == old(s)@.push(ch),
;

/// The characters of `text`, in order.
pub fn chars_of(text: &str) -> (chars: Vec<char>)
    ensures
        chars@ == text@,
{
    let mut chars: Vec<char> = Vec::new();
    for c in it: text.chars()
        invariant
            it.seq() == text@,
            chars@ == it.seq().take(it.index() as int),
    {
        chars.push(c);
    }
    chars
}

/// Appends the characters of `chars` from `from` up to `to` to `out`.
pub fn append_range(out: &mut String, chars: &Vec<char>, from: usize, to: usize)
    requires
        from <= to <= chars@.len(),
    ensures
        final(out)@ == old(out)@ + chars@.subrange(from as int, to as int),
{
    let mut i: usize = from;
    while i < to
        invariant
            from <= i <= to <= chars@.len(),
            out@ == old(out)@ + chars@.subrange(from as int, i as int),
        decreases to - i,
    {
        out.push(chars[i]);
        i += 1;
    }
}

/// The decimal digit of `n`, which is below ten.
pub open spec fn digit_char(n: nat) -> char {
    ('0' as u32 + n) as char
}

/// `n` in decimal, without leading zeros.
pub open spec fn decimal(n: nat) -> Seq<char>
    decreases n,
{
    if n < 10 {
        seq![digit_char(n)]
    } else {
        decimal(n / 10).push(digit_char(n % 10))
    }
}

/// `n` in decimal, with a `-` in front of a negative number.
pub open spec fn signed_decimal(n: int) -> Seq<char> {
    if n < 0 {
        seq!['-'] + decimal((-n) as nat)
    } else {
        decimal(n as nat)
    }
}

/// `s`, with as many zeros in front as make it `width` characters long.
pub open spec fn zero_padded(s: Seq<char>, width: nat) -> Seq<char> {
    if s.len() < width {
        Seq::new((width - s.len()) as nat, |i: int| '0') + s
    } else {
        s
    }
}

/// The decimal digits of `n`.
pub fn decimal_chars(n: u32) -> (chars: Vec<char>)
    ensures
        chars@ == decimal(n as nat),
    decreases n,
{
    if n < 10 {
        let mut chars: Vec<char> = Vec::new();
        chars.push((48u8 + n as u8) as char);
        chars
    } else {
        let mut chars: Vec<char> = decimal_chars(n / 10);
        chars.push((48u8 + (n % 10) as u8) as char);
        chars
    }
}

/// Appends `n` in decimal to `out`, padded with zeros to three characters.
pub fn append_padded(out: &mut String, n: i16)
    ensures
        final(out)@ == old(out)@ + zero_padded(signed_decimal(n as int), 3),
{
    let mut chars: Vec<char> = Vec::new();
    if n < 0 {
        chars.push('-');
        let mut digits: Vec<char> = decimal_chars((-(n as i32)) as u32);
        chars.append(&mut digits);
    } else {
        chars = decimal_chars(n as u32);
    }
    assert(chars@ == signed_decimal(n as int));
    let mut len: usize = chars.len();
    while len < 3
        invariant
            chars@.len() <= len,
            len <= 3 || len == chars@.len(),
            out@ == old(out)@ + Seq::new((len - chars@.len()) as nat, |i: int| '0'),
        decreases 3 - len,
    {
        out.push('0');
        len += 1;
    }
    append_range(out, &chars, 0, chars.len());
}

} // verus!
