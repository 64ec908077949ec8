//! The digest by which a migration is known again.
use vstd::prelude::*;

verus! {

/// What `md5::compute` makes of the given bytes: their MD5 digest.
pub uninterp spec fn md5_digest(data: Seq<u8>) -> Seq<u8>;

/// Calls `md5::compute` and hands out the sixteen bytes of the digest. The
/// digest depends on the data alone; what it is, is left to MD5.
#[verifier::external_body]
fn compute_md5(data: &Vec<u8>) -> (digest: Vec<u8>)
    ensures
        digest@ == md5_digest(data@),
        digest@.len() == 16,
{
    md5::compute(data).0.to_vec()
}

/// The hexadecimal digit of `n`, which is below sixteen.
pub open spec fn hex_digit(n: int) -> char {
    if n < 10 {
        ('0' as u32 + n) as char
    } else {
        ('a' as u32 + n - 10) as char
    }
}

/// `bytes` in hexadecimal, two lower-case digits for each byte.
pub open spec fn hex(bytes: Seq<u8>) -> Seq<char> {
    Seq::new(
        2 * bytes.len(),
        |i: int|
            if i % 2 == 0 {
                hex_digit(bytes[i / 2] as int / 16)
            } else {
                hex_digit(bytes[i / 2] as int % 16)
            },
    )
}

fn to_hex_digit(n: u8) -> (c: char)
    requires
        n < 16,
    ensures
        c == hex_digit(n as int),
{
    if n < 10 {
        (48u8 + n) as char
    } else {
        (97u8 + (n - 10)) as char
    }
}

/// Writes `bytes` in hexadecimal.
pub fn to_hex(bytes: &Vec<u8>) -> (text: String)
    ensures
        text@ == hex(bytes@),
{
    let mut text: String = String::new();
    let mut i: usize = 0;
    while i < bytes.len()
        invariant
            i <= bytes@.len(),
            text@ == hex(bytes@.take(i as int)),
        decreases bytes@.len() - i,
    {
        let byte: u8 = bytes[i];
        let ghost before = text@;
        text.push(to_hex_digit(byte / 16));
        text.push(to_hex_digit(byte % 16));
        i += 1;
        assert(text@ =~= hex(bytes@.take(i as int))) by {
            assert forall|k: int| 0 <= k < 2 * i implies text@[k] == hex(bytes@.take(i as int))[k] by {
                if k < 2 * (i - 1) {
                    assert(bytes@.take(i as int)[k / 2] == bytes@.take(i - 1)[k / 2]);
                    assert(text@[k] == before[k]);
                }
            }
        }
    }
    assert(bytes@.take(i as int) == bytes@);
    text
}

/// The digest of a file's content, as it is recorded.
pub open spec fn content_hash(content: Seq<u8>) -> Seq<char> {
    hex(md5_digest(content))
}

/// The MD5 digest of `content`, in hexadecimal.
pub fn hash_content(content: &Vec<u8>) -> (hash: String)
    ensures
        hash@ == content_hash(content@),
        hash@.len() == 32,
{
    let digest: Vec<u8> = compute_md5(content);
    to_hex(&digest)
}

} // verus!
