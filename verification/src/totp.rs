//! One-time codes: HOTP (RFC 4226) over HMAC-SHA1 and TOTP (RFC 6238).

use vstd::prelude::*;
use vstd::utf8::encode_utf8;
use crate::number::{all_ascii_digits, decimal, lemma_decimal_shape, lemma_zero_pad_digits, pow10, zero_pad, zero_padded_text};
use crate::secret::{base32_decodable, base32_failure, base32_decoded, decode_failure_text, decode_base32_nopad, failure_view, DecodeFailure, DecodeFailureKind};
use crate::clock::now_secs;
use hmac::Mac;

verus! {

#[verifier::external_type_specification]
#[verifier::external_body]
pub struct ExInvalidLength(hmac::digest::InvalidLength);

/// What HMAC-SHA1 (RFC 2104) of `message` under `key` is.
pub uninterp spec fn hmac_sha1_tag(key: Seq<u8>, message: Seq<u8>) -> Seq<u8>;

/// HMAC-SHA1 with the `hmac` and `sha1` crates (`Hmac::<Sha1>::new_from_slice`,
/// `update`, `finalize`). Trusted: the tag is `hmac_sha1_tag(key, message)` and
/// has SHA-1's 20 bytes; HMAC takes keys of every length, so the key is never
/// refused (`new_from_slice` of `Hmac` always returns `Ok`).
#[verifier::external_body]
fn hmac_sha1(key: &[u8], message: &[u8]) -> (res: Result<Vec<u8>, hmac::digest::InvalidLength>)
    ensures
        res is Ok,
        res.unwrap()@ == hmac_sha1_tag(key@, message@),
        res.unwrap()@.len() == 20,
{
    let mut mac = <hmac::Hmac<sha1::Sha1> as Mac>::new_from_slice(key)?;
    mac.update(message);
    Ok(mac.finalize().into_bytes().to_vec())
}

/// The 8-byte big-endian encoding of a counter (`u64::to_be_bytes`).
pub open spec fn counter_bytes(c: u64) -> Seq<u8> {
    seq![
        ((c >> 56u64) & 0xff) as u8,
        ((c >> 48u64) & 0xff) as u8,
        ((c >> 40u64) & 0xff) as u8,
        ((c >> 32u64) & 0xff) as u8,
        ((c >> 24u64) & 0xff) as u8,
        ((c >> 16u64) & 0xff) as u8,
        ((c >> 8u64) & 0xff) as u8,
        (c & 0xff) as u8,
    ]
}

/// `c.to_be_bytes()`.
pub fn be_bytes(c: u64) -> (v: Vec<u8>)
    ensures
        v@ == counter_bytes(c),
{
    let mut v: Vec<u8> = Vec::new();
    v.push(((c >> 56u64) & 0xff) as u8);
    v.push(((c >> 48u64) & 0xff) as u8);
    v.push(((c >> 40u64) & 0xff) as u8);
    v.push(((c >> 32u64) & 0xff) as u8);
    v.push(((c >> 24u64) & 0xff) as u8);
    v.push(((c >> 16u64) & 0xff) as u8);
    v.push(((c >> 8u64) & 0xff) as u8);
    v.push((c & 0xff) as u8);
    assert(v@ =~= counter_bytes(c));
    v
}

/// RFC 4226 dynamic truncation: the 31-bit number read big-endian from the four
/// bytes at the offset given by the low nibble of byte 19.
pub open spec fn truncated_value(h: Seq<u8>) -> int {
    let off = (h[19] & 0x0f) as int;
    ((h[off] & 0x7f) as int) * 0x1000000 + (h[off + 1] as int) * 0x10000 + (h[off + 2] as int)
        * 0x100 + (h[off + 3] as int)
}

/// The code for an HMAC value: the truncated value modulo `10^digits`, written in
/// decimal and left-padded with zeros to `digits` characters.
pub open spec fn hotp_text(h: Seq<u8>, digits: nat) -> Seq<char> {
    zero_pad(decimal((truncated_value(h) % (pow10(digits) as int)) as nat), digits)
}

/// A code has exactly `digits` characters, all ASCII digits (`digits >= 1`).
pub proof fn lemma_code_shape(h: Seq<u8>, digits: nat)
    requires
        digits >= 1,
    ensures
        hotp_text(h, digits).len() == digits,
        all_ascii_digits(hotp_text(h, digits)),
{
    lemma_pow10_mono(0, digits);
    let v = (truncated_value(h) % (pow10(digits) as int)) as nat;
    lemma_decimal_shape(v, digits);
    lemma_zero_pad_digits(decimal(v), digits);
}

/// Powers of ten grow with the exponent.
pub proof fn lemma_pow10_mono(i: nat, j: nat)
    requires
        i <= j,
    ensures
        1 <= pow10(i) <= pow10(j),
    decreases j,
{
    if j == 0 {
    } else if i == j {
        lemma_pow10_mono((j - 1) as nat, (j - 1) as nat);
    } else {
        lemma_pow10_mono(i, (j - 1) as nat);
    }
}

/// `10u32.pow(digits)`.
fn pow10_u32(digits: u32) -> (m: u32)
    requires
        digits <= 9,
    ensures
        m as nat == pow10(digits as nat),
{
    let mut m: u32 = 1;
    let mut i: u32 = 0;
    while i < digits
        invariant
            i <= digits <= 9,
            m as nat == pow10(i as nat),
        decreases digits - i,
    {
        proof {
            lemma_pow10_mono(i as nat, 8);
            reveal_with_fuel(pow10, 9);
            assert(pow10(8) == 100000000);
        }
        m = m * 10;
        i += 1;
    }
    m
}

/// The code for an HMAC-SHA1 value `h` (RFC 4226, section 5.3).
pub fn code_from_hmac(h: &[u8], digits: u32) -> (code: String)
    requires
        h@.len() >= 20,
        digits <= 9,
    ensures
        code@ == hotp_text(h@, digits as nat),
{
    let last = h[19];
    assert(last & 0x0f <= 15) by (bit_vector);
    let off = (last & 0x0f) as usize;
    let a = h[off];
    let b = h[off + 1];
    let c = h[off + 2];
    let d = h[off + 3];
    let bin: u32 = ((a as u32 & 0x7f) << 24u32) | ((b as u32) << 16u32) | ((c as u32) << 8u32) | (
    d as u32);
    assert(bin == ((a & 0x7f) as u32) * 0x1000000u32 + (b as u32) * 0x10000u32 + (c as u32)
        * 0x100u32 + (d as u32)) by (bit_vector)
        requires
            bin == ((a as u32 & 0x7f) << 24u32) | ((b as u32) << 16u32) | ((c as u32) << 8u32) | (
            d as u32),
    ;
    assert((a as u32 & 0x7f) == (a & 0x7f) as u32) by (bit_vector);
    let m = pow10_u32(digits);
    proof {
        lemma_pow10_mono(0, digits as nat);
    }
    let otp = bin % m;
    zero_padded_text(otp as u64, digits as usize)
}

/// HOTP value of `counter` under `key` (RFC 4226).
pub open spec fn hotp_spec(key: Seq<u8>, counter: u64, digits: nat) -> Seq<char> {
    hotp_text(hmac_sha1_tag(key, counter_bytes(counter)), digits)
}

/// The code of `key` for the 8-byte counter `counter`.
pub fn hotp(key: &[u8], counter: u64, digits: u32) -> (code: String)
    requires
        digits <= 9,
    ensures
        code@ == hotp_spec(key@, counter, digits as nat),
{
    let msg = be_bytes(counter);
    let tag = hmac_sha1(key, msg.as_slice()).unwrap();
    code_from_hmac(tag.as_slice(), digits)
}

/// Why a code could not be computed.
#[derive(Clone, Debug)]
pub enum TotpError {
    /// The stored secret is not valid unpadded base32.
    BadBase32(DecodeFailure),
}

impl TotpError {
    /// The text shown to the user for this error.
    pub fn message(&self) -> (m: String)
        ensures
            m@ == match self {
                TotpError::BadBase32(f) => "Bad base32: "@ + f.text@,
            },
    {
        match self {
            TotpError::BadBase32(f) => String::from_str("Bad base32: ").concat(f.text.as_str()),
        }
    }
}

/// The TOTP code of a base32 secret at Unix time `now`: the HOTP code of the
/// decoded key for the counter `now / period`.
pub open spec fn totp_spec(secret: Seq<char>, digits: nat, period: nat, now: nat) -> Result<
    Seq<char>,
    (usize, DecodeFailureKind, Seq<char>),
> {
    let bytes = encode_utf8(secret);
    if base32_decodable(bytes) {
        Ok(hotp_spec(base32_decoded(bytes), (now / period) as u64, digits))
    } else {
        let (position, kind) = base32_failure(bytes);
        Err((position, kind, decode_failure_text(kind, position)))
    }
}

/// Two instants in the same time step give the same code (or the same refusal).
pub proof fn lemma_totp_same_step(secret: Seq<char>, digits: nat, period: nat, t1: nat, t2: nat)
    requires
        period > 0,
        t1 / period == t2 / period,
    ensures
        totp_spec(secret, digits, period, t1) == totp_spec(secret, digits, period, t2),
{
}

/// A result of `totp_at` as plain values: the code's text, or the decoding
/// failure.
pub open spec fn totp_outcome(r: Result<String, TotpError>) -> Result<
    Seq<char>,
    (usize, DecodeFailureKind, Seq<char>),
> {
    match r {
        Ok(s) => Ok(s@),
        Err(TotpError::BadBase32(f)) => Err(failure_view(f)),
    }
}

/// The TOTP code of `secret_b32` at Unix time `now` (seconds).
pub fn totp_at(secret_b32: &str, digits: u32, period: u32, now: u64) -> (res: Result<String, TotpError>)
    requires
        period > 0,
        digits <= 9,
        encode_utf8(secret_b32@).len() <= usize::MAX / 8,
    ensures
        totp_outcome(res) == totp_spec(secret_b32@, digits as nat, period as nat, now as nat),
        digits >= 1 ==> (res matches Ok(c) ==> c@.len() == digits && all_ascii_digits(c@)),
{
    let key = match decode_base32_nopad(secret_b32.as_bytes()) {
        Ok(k) => k,
        Err(f) => return Err(TotpError::BadBase32(f)),
    };
    let counter = now / (period as u64);
    let code = hotp(key.as_slice(), counter, digits);
    proof {
        if digits >= 1 {
            lemma_code_shape(hmac_sha1_tag(key@, counter_bytes(counter)), digits as nat);
        }
    }
    Ok(code)
}

/// The TOTP code of `secret_b32` now, by the system clock.
pub fn totp(secret_b32: &str, digits: u32, period: u32) -> (res: Result<String, TotpError>)
    requires
        period > 0,
        digits <= 9,
        encode_utf8(secret_b32@).len() <= usize::MAX / 8,
    ensures
        exists|t: u64| totp_outcome(res) == totp_spec(secret_b32@, digits as nat, period as nat, t as nat),
        digits >= 1 ==> (res matches Ok(c) ==> c@.len() == digits && all_ascii_digits(c@)),
{
    let now = now_secs();
    totp_at(secret_b32, digits, period, now)
}

} // verus!
