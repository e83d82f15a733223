use vstd::prelude::*;
use vstd::utf8::{decode_utf8, valid_utf8, encode_utf8, is_ascii_chars};

use crate::errors::FixSerializeError;

verus! {

/// The byte between a tag and its value (`=`).
pub const FIX_EQUALS: u8 = 0x3d;

/// The byte that ends every field (SOH).
pub const FIX_DELIMETR: u8 = 0x1;

/// The byte that stands for the field terminator in the display form (`|`).
pub const FIX_DISPLAY_DELIMETR: u8 = 0x7c;

/// The wire form of one field: the tag, `=`, the value, and the terminator.
pub open spec fn chunk(tag: Seq<u8>, value: Seq<u8>) -> Seq<u8> {
    tag + seq![FIX_EQUALS] + value + seq![FIX_DELIMETR]
}

/// Unpadded decimal digits of a natural number, as ASCII bytes.
pub open spec fn decimal(n: nat) -> Seq<u8>
    decreases n,
{
    if n < 10 {
        seq![(48 + n) as u8]
    } else {
        decimal(n / 10).push((48 + n % 10) as u8)
    }
}

/// Decimal form of an integer: a leading `-` for a negative one.
pub open spec fn signed_decimal(i: int) -> Seq<u8> {
    if i < 0 {
        seq![0x2du8] + decimal((-i) as nat)
    } else {
        decimal(i as nat)
    }
}

/// Sum of all bytes, without wraparound.
pub open spec fn byte_sum(b: Seq<u8>) -> nat
    decreases b.len(),
{
    if b.len() == 0 {
        0
    } else {
        byte_sum(b.drop_last()) + b.last() as nat
    }
}

/// The checksum of a byte string: its byte sum modulo 256, as three decimal digits.
pub open spec fn check_sum_digits(b: Seq<u8>) -> Seq<u8> {
    let s = byte_sum(b) % 256;
    seq![(48 + s / 100) as u8, (48 + (s / 10) % 10) as u8, (48 + s % 10) as u8]
}

/// Bytes read as characters one for one (the text of an ASCII byte string).
pub open spec fn ascii_text(b: Seq<u8>) -> Seq<char> {
    b.map_values(|x: u8| x as char)
}

/// The display form of a byte string: each terminator shown as `|`.
pub open spec fn display_bytes(b: Seq<u8>) -> Seq<u8> {
    b.map_values(|x: u8| if x == FIX_DELIMETR { FIX_DISPLAY_DELIMETR } else { x })
}

pub open spec fn is_digit(x: u8) -> bool {
    48 <= x <= 57
}

pub open spec fn all_digits(b: Seq<u8>) -> bool {
    forall|i: int| 0 <= i < b.len() ==> is_digit(#[trigger] b[i])
}

pub proof fn lemma_decimal_digits(n: nat)
    ensures
        all_digits(decimal(n)),
        decimal(n).len() >= 1,
    decreases n,
{
    if n >= 10 {
        lemma_decimal_digits(n / 10);
    }
}

pub proof fn lemma_ascii_text_utf8(b: Seq<u8>)
    requires
        forall|i: int| 0 <= i < b.len() ==> #[trigger] b[i] < 128,
    ensures
        valid_utf8(b),
        decode_utf8(b) == ascii_text(b),
{
    let c = ascii_text(b);
    assert(is_ascii_chars(c));
    vstd::utf8::is_ascii_chars_encode_utf8(c);
    assert(encode_utf8(c) =~= b);
    vstd::utf8::encode_utf8_valid_utf8(c);
    vstd::utf8::encode_utf8_decode_utf8(c);
}

/// Relies on `String::from_utf8`: it succeeds exactly when the bytes are valid UTF-8,
/// and the string then holds the characters that the bytes encode.
#[verifier::external_body]
pub(crate) fn text_from_bytes(b: Vec<u8>) -> (r: Option<String>)
    ensures
        match r {
            Some(s) => valid_utf8(b@) && s@ == decode_utf8(b@),
            None => !valid_utf8(b@),
        },
{
    String::from_utf8(b).ok()
}

/// Decimal digits of `n`, most significant first, without padding.
pub fn decimal_digits(n: u64) -> (r: Vec<u8>)
    ensures
        r@ == decimal(n as nat),
    decreases n,
{
    if n < 10 {
        vec![(48 + n) as u8]
    } else {
        let mut r = decimal_digits(n / 10);
        r.push((48 + n % 10) as u8);
        r
    }
}

/// Decimal form of `i`, as `i32`'s `to_string` writes it.
pub fn signed_decimal_digits(i: i32) -> (r: Vec<u8>)
    ensures
        r@ == signed_decimal(i as int),
{
    if i < 0 {
        let mut r = vec![0x2du8];
        let mut m = decimal_digits((-(i as i64)) as u64);
        r.append(&mut m);
        r
    } else {
        decimal_digits(i as u64)
    }
}

/// The three checksum digits of `body`, as bytes.
pub fn check_sum_bytes(body: &[u8]) -> (r: Vec<u8>)
    ensures
        r@ == check_sum_digits(body@),
{
    let mut sum: u8 = 0;
    let mut i: usize = 0;
    while i < body.len()
        invariant
            i <= body@.len(),
            sum as nat == byte_sum(body@.subrange(0, i as int)) % 256,
        decreases body@.len() - i,
    {
        assert(body@.subrange(0, i as int + 1).drop_last() =~= body@.subrange(0, i as int));
        sum = sum.wrapping_add(body[i]);
        i += 1;
    }
    assert(body@.subrange(0, i as int) =~= body@);
    vec![48 + sum / 100, 48 + (sum / 10) % 10, 48 + sum % 10]
}

/// The checksum of `body`: its bytes summed with wraparound at 256, as three decimal digits.
pub fn calculate_check_sum(body: &[u8]) -> (r: String)
    ensures
        r@ == ascii_text(check_sum_digits(body@)),
        r@.len() == 3,
        forall|i: int| 0 <= i < 3 ==> '0' <= #[trigger] r@[i] <= '9',
{
    let b = check_sum_bytes(body);
    proof {
        lemma_ascii_text_utf8(b@);
    }
    match text_from_bytes(b) {
        Some(s) => s,
        None => String::new(),
    }
}

/// The wire form of one field: `key`, `=`, `value`, then the terminator.
pub fn compile_fix_chunk(key: &[u8], value: &[u8]) -> (r: Vec<u8>)
    ensures
        r@ == chunk(key@, value@),
{
    let mut result: Vec<u8> = Vec::new();
    result.extend_from_slice(key);
    result.push(FIX_EQUALS);
    result.extend_from_slice(value);
    result.push(FIX_DELIMETR);
    result
}

/// The display form of `data` (each terminator shown as `|`), as text.
/// Fails with `InvalidEncoding` when that form is not valid UTF-8.
pub fn bytes_to_fix_string(data: &[u8]) -> (r: Result<String, FixSerializeError>)
    ensures
        match r {
            Ok(s) => valid_utf8(display_bytes(data@)) && s@ == decode_utf8(display_bytes(data@)),
            Err(e) => !valid_utf8(display_bytes(data@)) && e == FixSerializeError::InvalidEncoding,
        },
{
    let mut shown: Vec<u8> = Vec::new();
    let mut i: usize = 0;
    while i < data.len()
        invariant
            i <= data@.len(),
            shown@ == display_bytes(data@.subrange(0, i as int)),
        decreases data@.len() - i,
    {
        if data[i] == FIX_DELIMETR {
            shown.push(FIX_DISPLAY_DELIMETR);
        } else {
            shown.push(data[i]);
        }
        i += 1;
        assert(shown@ =~= display_bytes(data@.subrange(0, i as int)));
    }
    assert(data@.subrange(0, i as int) =~= data@);
    match text_from_bytes(shown) {
        Some(s) => Ok(s),
        None => Err(FixSerializeError::InvalidEncoding),
    }
}

} // verus!
