//! Lowercase hexadecimal text of byte strings, as stored in the voting-power
//! tables and compared against configured policy ids.
use vstd::prelude::*;

verus! {

/// The digit that stands for `n` (below 16), in lowercase.
pub open spec fn hex_digit(n: int) -> char {
    if n < 10 {
        ('0' as int + n) as char
    } else {
        ('a' as int + n - 10) as char
    }
}

/// Two lowercase digits per byte, most significant nibble first.
pub open spec fn hex_of(b: Seq<u8>) -> Seq<char>
    decreases b.len(),
{
    if b.len() == 0 {
        Seq::empty()
    } else {
        hex_of(b.drop_last()) + seq![hex_digit(b.last() as int / 16), hex_digit(b.last() as int % 16)]
    }
}

/// The value of one hex digit of either case, if `c` is one.
pub open spec fn digit_value(c: char) -> Option<u8> {
    if '0' <= c && c <= '9' {
        Some((c as int - '0' as int) as u8)
    } else if 'a' <= c && c <= 'f' {
        Some((c as int - 'a' as int + 10) as u8)
    } else if 'A' <= c && c <= 'F' {
        Some((c as int - 'A' as int + 10) as u8)
    } else {
        None
    }
}

/// The bytes that an even-length string of hex digits (of either case)
/// stands for; `None` for any other string.
pub open spec fn unhex(s: Seq<char>) -> Option<Seq<u8>>
    decreases s.len(),
{
    if s.len() == 0 {
        Some(Seq::empty())
    } else if s.len() == 1 {
        None
    } else {
        let hi = digit_value(s[s.len() - 2]);
        let lo = digit_value(s[s.len() - 1]);
        match (unhex(s.subrange(0, s.len() - 2)), hi, lo) {
            (Some(prefix), Some(h), Some(l)) => Some(prefix.push((h * 16 + l) as u8)),
            _ => None,
        }
    }
}

/// Reading back the text of any byte string gives that byte string.
pub proof fn lemma_unhex_hex_of(b: Seq<u8>)
    ensures
        unhex(hex_of(b)) == Some(b),
    decreases b.len(),
{
    if b.len() > 0 {
        let s = hex_of(b);
        let last = b.last() as int;
        lemma_unhex_hex_of(b.drop_last());
        lemma_hex_of_len(b.drop_last());
        assert(s.subrange(0, s.len() - 2) =~= hex_of(b.drop_last()));
        assert(s[s.len() - 2] == hex_digit(last / 16));
        assert(s[s.len() - 1] == hex_digit(last % 16));
        lemma_digit_value_hex_digit(last / 16);
        lemma_digit_value_hex_digit(last % 16);
        assert((last / 16) * 16 + last % 16 == last);
        assert(b.drop_last().push(b.last()) =~= b);
    }
}

pub proof fn lemma_hex_of_len(b: Seq<u8>)
    ensures
        hex_of(b).len() == 2 * b.len(),
    decreases b.len(),
{
    if b.len() > 0 {
        lemma_hex_of_len(b.drop_last());
    }
}

proof fn lemma_digit_value_hex_digit(n: int)
    requires
        0 <= n < 16,
    ensures
        digit_value(hex_digit(n)) == Some(n as u8),
{
}

/// Relies on hex::encode: two lowercase digits per byte, in order.
#[verifier::external_body]
pub(crate) fn hex_encode(b: &[u8]) -> (r: String)
    ensures
        r@ == hex_of(b@),
{
    hex::encode(b)
}

/// The error that hex::decode reports.
#[verifier::external_type_specification]
#[verifier::external_body]
pub struct ExFromHexError(hex::FromHexError);

/// Relies on hex::decode: digits of either case, two per byte, and an error
/// for an odd length or any other character.
#[verifier::external_body]
pub(crate) fn hex_decode(s: &str) -> (r: Result<Vec<u8>, hex::FromHexError>)
    ensures
        match r {
            Ok(v) => unhex(s@) == Some(v@),
            Err(_) => unhex(s@) is None,
        },
{
    hex::decode(s)
}

} // verus!
