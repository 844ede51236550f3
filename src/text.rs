use crate::bencode::{int_digits, nat_digits, push_nat_digits};
use vstd::prelude::*;
use vstd::utf8::{
    decode_utf8, encode_utf8, encode_utf8_decode_utf8, encode_utf8_valid_utf8, is_ascii_chars,
    is_ascii_chars_encode_utf8, valid_utf8,
};

verus! {

/// The characters that ASCII bytes stand for.
pub open spec fn ascii_chars(b: Seq<u8>) -> Seq<char> {
    Seq::new(b.len(), |i: int| b[i] as char)
}

/// Decimal text of an integer, with a leading `-` when it is negative.
pub open spec fn decimal_text(n: int) -> Seq<char> {
    ascii_chars(int_digits(n))
}

/// Relies on `String::from_utf8`: it accepts exactly the valid UTF-8 byte
/// strings and keeps the characters they encode.
#[verifier::external_body]
pub(crate) fn text_from_bytes(b: &[u8]) -> (r: Option<String>)
    ensures
        r is Some <==> valid_utf8(b@),
        r matches Some(s) ==> s@ == decode_utf8(b@),
{
    String::from_utf8(b.to_vec()).ok()
}

/// The text of ASCII bytes.
pub fn ascii_text(b: &[u8]) -> (r: String)
    requires
        forall|i: int| 0 <= i < b@.len() ==> #[trigger] b@[i] < 128,
    ensures
        r@ == ascii_chars(b@),
{
    let ghost c = ascii_chars(b@);
    proof {
        assert(is_ascii_chars(c));
        is_ascii_chars_encode_utf8(c);
        assert(encode_utf8(c) =~= b@);
        encode_utf8_valid_utf8(c);
        encode_utf8_decode_utf8(c);
    }
    match text_from_bytes(b) {
        Some(s) => s,
        None => {
            proof {
                assert(false);
            }
            String::new()
        },
    }
}

proof fn lemma_nat_digits_ascii(n: nat)
    ensures
        forall|i: int| 0 <= i < nat_digits(n).len() ==> #[trigger] nat_digits(n)[i] < 128,
    decreases n,
{
    if n >= 10 {
        lemma_nat_digits_ascii(n / 10);
        assert forall|i: int| 0 <= i < nat_digits(n).len() implies #[trigger] nat_digits(n)[i]
            < 128 by {
            if i < nat_digits(n).len() - 1 {
                assert(nat_digits(n)[i] == nat_digits(n / 10)[i]);
            }
        }
    }
}

/// Decimal text of an unsigned number.
pub fn unsigned_text(n: u64) -> (r: String)
    ensures
        r@ == decimal_text(n as int),
{
    let mut digits: Vec<u8> = Vec::new();
    push_nat_digits(&mut digits, n);
    proof {
        assert(digits@ =~= nat_digits(n as nat));
        lemma_nat_digits_ascii(n as nat);
    }
    ascii_text(digits.as_slice())
}

/// Decimal text of a signed number.
pub fn signed_text(n: i64) -> (r: String)
    ensures
        r@ == decimal_text(n as int),
{
    let mut digits: Vec<u8> = Vec::new();
    let m: u64 = if n < 0 {
        digits.push(45);
        (0i128 - (n as i128)) as u64
    } else {
        n as u64
    };
    push_nat_digits(&mut digits, m);
    proof {
        assert(digits@ =~= int_digits(n as int));
        lemma_nat_digits_ascii(m as nat);
    }
    ascii_text(digits.as_slice())
}

} // verus!
