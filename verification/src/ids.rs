use vstd::prelude::*;
use crate::text::{hex_char, hex_digits, hex_lower};

verus! {

/// Fills `buf` with bytes from the operating system's random source, through
/// `rand::rngs::OsRng` and `RngCore::try_fill_bytes`; false when the source reports an error
/// (which it returns rather than panics). Nothing is stated of the bytes.
#[verifier::external_body]
fn os_fill(buf: &mut Vec<u8>) -> (ok: bool)
    ensures
        final(buf)@.len() == old(buf)@.len(),
{
    rand::RngCore::try_fill_bytes(&mut rand::rngs::OsRng, buf.as_mut_slice()).is_ok()
}

/// The bytes `b` read as a big-endian number.
pub open spec fn be_value(b: Seq<u8>) -> nat
    decreases b.len(),
{
    if b.len() == 0 {
        0
    } else {
        be_value(b.drop_last()) * 256 + b.last() as nat
    }
}

/// The version-4 UUID made of the random bytes `b`: their big-endian value with the version
/// nibble (bits 76 to 79) set to 4 and the two variant bits (62 and 63) set to `10`.
pub open spec fn uuid_v4_value(b: Seq<u8>) -> u128 {
    ((be_value(b) as u128) & 0xFFFF_FFFF_FFFF_0FFF_3FFF_FFFF_FFFF_FFFFu128) | 0x0000_0000_0000_4000_8000_0000_0000_0000u128
}

/// The UUID that `uuid::Builder::from_random_bytes` makes of 16 random bytes, read with
/// `Uuid::as_u128`. In the version of the crate used here the builder sets the RFC 4122
/// variant (byte 8 becomes `(b & 0x3f) | 0x80`) and version 4 (byte 6 becomes
/// `(b & 0x0f) | 0x40`), and `as_u128` reads the bytes big-endian.
#[verifier::external_body]
fn uuid_from_random_bytes(bytes: &Vec<u8>) -> (bits: u128)
    requires
        bytes@.len() == 16,
    ensures
        bits == uuid_v4_value(bytes@),
{
    let mut a = [0u8; 16];
    a.copy_from_slice(bytes.as_slice());
    uuid::Builder::from_random_bytes(a).into_uuid().as_u128()
}

/// `n` zero bytes.
fn zeros(n: usize) -> (v: Vec<u8>)
    ensures
        v@.len() == n,
{
    let mut v: Vec<u8> = Vec::new();
    let mut i: usize = 0;
    while i < n
        invariant
            i <= n,
            v@.len() == i,
        decreases n - i,
    {
        v.push(0u8);
        i = i + 1;
    }
    v
}

/// A fresh random version-4 UUID as a 128-bit number; `None` when the operating system's
/// random source fails.
pub(crate) fn fresh_uuid() -> (r: Option<u128>)
    ensures
        r matches Some(bits) ==> (bits >> 76u128) & 0xfu128 == 4 && (bits >> 62u128) & 3u128 == 2,
{
    let mut buf = zeros(16);
    if !os_fill(&mut buf) {
        return None;
    }
    let bits = uuid_from_random_bytes(&buf);
    let ghost x: u128 = be_value(buf@) as u128;
    assert((bits >> 76u128) & 0xfu128 == 4 && (bits >> 62u128) & 3u128 == 2) by (bit_vector)
        requires
            bits == (x & 0xFFFF_FFFF_FFFF_0FFF_3FFF_FFFF_FFFF_FFFFu128) | 0x0000_0000_0000_4000_8000_0000_0000_0000u128,
    ;
    Some(bits)
}

/// A random 32-bit number made of four bytes of the operating system's random source;
/// `None` when the source fails. Nothing is stated of the value.
pub(crate) fn random_u32() -> (r: Option<u32>) {
    let mut buf = zeros(4);
    if !os_fill(&mut buf) {
        return None;
    }
    let b0 = buf[0] as u32;
    let b1 = buf[1] as u32;
    let b2 = buf[2] as u32;
    let b3 = buf[3] as u32;
    Some(b0 + 256 * b1 + 65536 * b2 + 16777216 * b3)
}

/// The short identifier made from a UUID: the first 16 of the 32 lower-case hexadecimal
/// digits of its simple form, that is, the digits of its upper 64 bits.
pub open spec fn short_id(bits: u128) -> Seq<char> {
    hex_digits((bits >> 64u128) as nat, 16)
}

/// A lower-case hexadecimal digit.
pub open spec fn is_hex_char(c: char) -> bool {
    ('0' <= c && c <= '9') || ('a' <= c && c <= 'f')
}

/// Every hexadecimal rendering has the requested length and only hexadecimal digits.
pub proof fn lemma_hex_digits_shape(x: nat, n: nat)
    ensures
        hex_digits(x, n).len() == n,
        forall|i: int| 0 <= i < n ==> is_hex_char(#[trigger] hex_digits(x, n)[i]),
    decreases n,
{
    if n > 0 {
        lemma_hex_digits_shape(x / 16, (n - 1) as nat);
        let d = (x % 16) as int;
        assert(is_hex_char(hex_char(d)));
    }
}

/// Renders the short identifier of the UUID `bits`.
pub fn short_id_of(bits: u128) -> (s: String)
    ensures
        s@ == short_id(bits),
{
    hex_lower(bits >> 64u128, 16)
}

/// A fresh short identifier (16 lower-case hexadecimal digits of a random UUID), as used
/// for task and request ids; `None` when the random source fails.
pub fn new_short_id() -> (s: Option<String>)
    ensures
        s matches Some(t) ==> t@.len() == 16 && forall|i: int| 0 <= i < 16 ==> is_hex_char(#[trigger] t@[i]),
{
    let bits = fresh_uuid()?;
    proof {
        lemma_hex_digits_shape((bits >> 64u128) as nat, 16);
    }
    Some(short_id_of(bits))
}

/// The eight-digit hexadecimal suffix given to generated proxy names (`{:08x}`).
pub open spec fn name_suffix(r: u32) -> Seq<char> {
    hex_digits(r as nat, 8)
}

/// Renders `name_suffix(r)`.
pub fn name_suffix_of(r: u32) -> (s: String)
    ensures
        s@ == name_suffix(r),
{
    hex_lower(r as u128, 8)
}

} // verus!
