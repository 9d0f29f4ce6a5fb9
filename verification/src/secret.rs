//! Base32 shared secrets: normalising what a user typed, and recognising text
//! that looks like a secret.

use vstd::prelude::*;
use vstd::utf8::{encode_utf8, encode_scalar, is_ascii_chars};
use vstd::arithmetic::power2::pow2;
use crate::number::decimal;
use crate::text::{chars_of, is_white_space, string_of, strip_white_space, without_white_space};

verus! {

/// Why a base32 decoding failed (`data_encoding::DecodeKind`).
#[derive(Clone, Copy, Debug, PartialEq, Eq, Structural)]
pub enum DecodeFailureKind {
    Length,
    Symbol,
    Trailing,
    Padding,
}

/// A failed base32 decoding: the first offending input position, its kind,
/// and the decoder's own description of it (`"invalid symbol at 3"`).
#[derive(Clone, Debug)]
pub struct DecodeFailure {
    pub position: usize,
    pub kind: DecodeFailureKind,
    pub text: String,
}

pub open spec fn failure_view(f: DecodeFailure) -> (usize, DecodeFailureKind, Seq<char>) {
    (f.position, f.kind, f.text@)
}

/// A symbol of the RFC 4648 base32 alphabet `A..Z2..7`, as a byte.
pub open spec fn is_base32_symbol_byte(b: u8) -> bool {
    (65 <= b <= 90) || (50 <= b <= 55)
}

/// The 5-bit value of a base32 symbol: `A..Z` are 0 to 25, `2..7` are 26 to 31.
pub open spec fn base32_symbol_value(b: u8) -> int {
    if 65 <= b <= 90 {
        b - 65
    } else {
        b - 24
    }
}

/// Unpadded base32 text of `n` symbols can be decoded as far as its length goes:
/// `n % 8` is 0, 2, 4, 5 or 7 (the others leave a whole symbol over).
pub open spec fn base32_length_ok(n: nat) -> bool {
    let r = n % 8;
    r == 0 || r == 2 || r == 4 || r == 5 || r == 7
}

pub open spec fn all_base32_symbols(input: Seq<u8>) -> bool {
    forall|i: int| 0 <= i < input.len() ==> is_base32_symbol_byte(#[trigger] input[i])
}

/// The bits of the last symbol that do not fill a whole byte are zero: of `n`
/// symbols, `5 * n % 8` bits are over, the low bits of the last symbol.
pub open spec fn base32_trailing_ok(input: Seq<u8>) -> bool {
    input.len() == 0 || base32_symbol_value(input.last()) % (pow2(((5 * input.len()) % 8) as nat) as int) == 0
}

/// `input` is valid unpadded base32: right length, base32 symbols only, no
/// non-zero trailing bits.
pub open spec fn base32_decodable(input: Seq<u8>) -> bool {
    &&& base32_length_ok(input.len())
    &&& all_base32_symbols(input)
    &&& base32_trailing_ok(input)
}

/// `i` is the position of the first byte of `input` that is not a base32 symbol.
pub open spec fn is_first_bad_symbol(input: Seq<u8>, i: int) -> bool {
    &&& 0 <= i < input.len()
    &&& !is_base32_symbol_byte(input[i])
    &&& forall|k: int| 0 <= k < i ==> is_base32_symbol_byte(#[trigger] input[k])
}

/// Where and why decoding `input` fails: a bad length is reported at the last
/// byte, otherwise the first byte that is not a symbol, otherwise non-zero
/// trailing bits at the last byte.
pub open spec fn base32_failure(input: Seq<u8>) -> (usize, DecodeFailureKind) {
    if !base32_length_ok(input.len()) {
        ((input.len() - 1) as usize, DecodeFailureKind::Length)
    } else if !all_base32_symbols(input) {
        ((choose|i: int| is_first_bad_symbol(input, i)) as usize, DecodeFailureKind::Symbol)
    } else {
        ((input.len() - 1) as usize, DecodeFailureKind::Trailing)
    }
}

/// Bit `j` of the symbols of `input`, five bits to a symbol, most significant
/// first.
pub open spec fn base32_bit(input: Seq<u8>, j: int) -> int {
    (base32_symbol_value(input[j / 5]) / (pow2((4 - j % 5) as nat) as int)) % 2
}

/// The number written by the `count` bits of `input` from bit `j` on, the first
/// the most significant.
pub open spec fn base32_bits_value(input: Seq<u8>, j: int, count: nat) -> int
    decreases count,
{
    if count == 0 {
        0
    } else {
        base32_bits_value(input, j, (count - 1) as nat) * 2 + base32_bit(input, j + count - 1)
    }
}

/// The bytes that valid unpadded base32 `input` stands for: its bits taken eight
/// at a time, the trailing bits that fill no byte left out.
pub open spec fn base32_decoded(input: Seq<u8>) -> Seq<u8> {
    Seq::new(((5 * input.len()) / 8) as nat, |k: int| base32_bits_value(input, 8 * k, 8) as u8)
}

/// How `DecodeKind` describes itself.
pub open spec fn decode_kind_text(kind: DecodeFailureKind) -> Seq<char> {
    match kind {
        DecodeFailureKind::Length => "invalid length"@,
        DecodeFailureKind::Symbol => "invalid symbol"@,
        DecodeFailureKind::Trailing => "non-zero trailing bits"@,
        DecodeFailureKind::Padding => "invalid padding length"@,
    }
}

/// How `DecodeError` describes itself: `"<kind> at <position>"`.
pub open spec fn decode_failure_text(kind: DecodeFailureKind, position: usize) -> Seq<char> {
    decode_kind_text(kind) + " at "@ + decimal(position as nat)
}

/// What `data_encoding::BASE32_NOPAD.decode` returns for the given input bytes:
/// the decoded bytes, or the failure as (position, kind, description).
pub open spec fn base32_decode_result(input: Seq<u8>) -> Result<
    Seq<u8>,
    (usize, DecodeFailureKind, Seq<char>),
> {
    if base32_decodable(input) {
        Ok(base32_decoded(input))
    } else {
        let (position, kind) = base32_failure(input);
        Err((position, kind, decode_failure_text(kind, position)))
    }
}

/// Decodes unpadded RFC 4648 base32 with `data_encoding::BASE32_NOPAD.decode`.
/// Trusted: the result is `base32_decode_result(input)`. It succeeds exactly on
/// valid input (`base32_decodable`: the length check of `decode_len`, the symbol
/// table of `BASE32_NOPAD`, in which every other byte is an invalid symbol, and
/// `check_trail`) with the bits of the symbols, most significant first, cut
/// into bytes (`decode_block`); a failure has the position and kind
/// `base32_failure` gives and the text of `DecodeError`'s `Display`. The crate
/// asserts that the input length is at most `usize::MAX / 8`, hence the
/// `requires`.
#[verifier::external_body]
pub(crate) fn decode_base32_nopad(input: &[u8]) -> (res: Result<Vec<u8>, DecodeFailure>)
    requires
        input@.len() <= usize::MAX / 8,
    ensures
        match res {
            Ok(v) => base32_decode_result(input@) == Ok::<Seq<u8>, (usize, DecodeFailureKind, Seq<char>)>(v@),
            Err(f) => base32_decode_result(input@) == Err::<Seq<u8>, (usize, DecodeFailureKind, Seq<char>)>(failure_view(f)),
        },
{
    match data_encoding::BASE32_NOPAD.decode(input) {
        Ok(v) => Ok(v),
        Err(e) => Err(DecodeFailure {
            position: e.position,
            kind: match e.kind {
                data_encoding::DecodeKind::Length => DecodeFailureKind::Length,
                data_encoding::DecodeKind::Symbol => DecodeFailureKind::Symbol,
                data_encoding::DecodeKind::Trailing => DecodeFailureKind::Trailing,
                data_encoding::DecodeKind::Padding => DecodeFailureKind::Padding,
            },
            text: e.to_string(),
        }),
    }
}

pub open spec fn is_ascii_char(c: char) -> bool {
    (c as int) < 128
}

/// `char::to_ascii_uppercase`.
pub open spec fn ascii_upper(c: char) -> char {
    if 'a' <= c && c <= 'z' {
        ((c as int) - 32) as char
    } else {
        c
    }
}

/// What `str::to_uppercase` returns: the Unicode upper-case mapping of the text.
pub uninterp spec fn unicode_uppercase(s: Seq<char>) -> Seq<char>;

/// `str::to_uppercase`. Trusted: the result is `unicode_uppercase(s)`, and on pure
/// ASCII text the Unicode mapping is the ASCII one (`a..z` to `A..Z`, all else kept).
#[verifier::external_body]
pub(crate) fn to_uppercase(s: &str) -> (r: String)
    ensures
        r@ == unicode_uppercase(s@),
        (forall|i: int| 0 <= i < s@.len() ==> is_ascii_char(#[trigger] s@[i])) ==> r@ == s@.map_values(
            |c: char| ascii_upper(c),
        ),
{
    s.to_uppercase()
}

/// `str::to_uppercase` of `s`: the ASCII mapping on ASCII text, the Unicode
/// mapping otherwise.
pub open spec fn uppercase_of(s: Seq<char>) -> Seq<char> {
    if forall|i: int| 0 <= i < s.len() ==> is_ascii_char(#[trigger] s[i]) {
        s.map_values(|c: char| ascii_upper(c))
    } else {
        unicode_uppercase(s)
    }
}

/// Why a typed secret was refused.
#[derive(Clone, Debug)]
pub enum SecretError {
    /// Nothing but white space was given.
    Empty,
    /// The normalised secret is longer than the base32 decoder accepts
    /// (`usize::MAX / 8` bytes).
    TooLong,
    /// The normalised secret is not valid unpadded base32.
    InvalidBase32(DecodeFailure),
}

/// The outcome of normalising a typed secret, as a mathematical value.
pub enum SecretCheck {
    Valid(Seq<char>),
    Empty,
    TooLong,
    Invalid((usize, DecodeFailureKind, Seq<char>)),
}

/// Normalisation of a typed secret: white space removed, upper-cased, and
/// accepted only when non-empty and decodable as unpadded base32.
pub open spec fn check_secret(raw: Seq<char>) -> SecretCheck {
    let clean = uppercase_of(strip_white_space(raw));
    let bytes = encode_utf8(clean);
    if clean.len() == 0 {
        SecretCheck::Empty
    } else if bytes.len() > usize::MAX / 8 {
        SecretCheck::TooLong
    } else {
        if base32_decodable(bytes) {
            SecretCheck::Valid(clean)
        } else {
            let (position, kind) = base32_failure(bytes);
            SecretCheck::Invalid((position, kind, decode_failure_text(kind, position)))
        }
    }
}

/// The refusal `e` as a `SecretCheck`.
pub open spec fn error_check(e: SecretError) -> SecretCheck {
    match e {
        SecretError::Empty => SecretCheck::Empty,
        SecretError::TooLong => SecretCheck::TooLong,
        SecretError::InvalidBase32(f) => SecretCheck::Invalid(failure_view(f)),
    }
}

pub open spec fn secret_outcome(r: Result<String, SecretError>) -> SecretCheck {
    match r {
        Ok(s) => SecretCheck::Valid(s@),
        Err(e) => error_check(e),
    }
}

/// Strips white space from a base32 secret and upper-cases it; refuses it when
/// nothing is left or when it does not decode as unpadded base32.
///
/// A normalised secret is made of base32 symbols only, and normalising it again
/// gives it back unchanged.
pub fn clean_secret(raw: &str) -> (res: Result<String, SecretError>)
    ensures
        secret_outcome(res) == check_secret(raw@),
        res matches Ok(c) ==> forall|i: int| 0 <= i < c@.len() ==> is_base32_symbol(#[trigger] c@[i]),
        res matches Ok(c) ==> check_secret(c@) == SecretCheck::Valid(c@),
{
    let chars = chars_of(raw);
    let stripped = string_of(without_white_space(chars.as_slice()).as_slice());
    let clean = to_uppercase(stripped.as_str());
    if clean.as_str().unicode_len() == 0 {
        return Err(SecretError::Empty);
    }
    let bytes = clean.as_str().as_bytes();
    if bytes.len() > usize::MAX / 8 {
        return Err(SecretError::TooLong);
    }
    match decode_base32_nopad(bytes) {
        Ok(_) => {
            proof {
                lemma_normalised_secret(clean@);
            }
            Ok(clean)
        },
        Err(f) => Err(SecretError::InvalidBase32(f)),
    }
}

/// A text that decodes as base32 is made of base32 symbols, and normalising it
/// gives it back.
proof fn lemma_normalised_secret(clean: Seq<char>)
    requires
        clean.len() > 0,
        encode_utf8(clean).len() <= usize::MAX / 8,
        base32_decodable(encode_utf8(clean)),
    ensures
        forall|i: int| 0 <= i < clean.len() ==> is_base32_symbol(#[trigger] clean[i]),
        check_secret(clean) == SecretCheck::Valid(clean),
{
    let bytes = encode_utf8(clean);
    assert forall|i: int| 0 <= i < bytes.len() implies #[trigger] bytes[i] < 128 by {
        assert(is_base32_symbol_byte(bytes[i]));
    }
    lemma_ascii_bytes_ascii_chars(clean);
    vstd::utf8::is_ascii_chars_encode_utf8(clean);
    assert forall|i: int| 0 <= i < clean.len() implies is_base32_symbol(#[trigger] clean[i]) by {
        assert(is_base32_symbol_byte(bytes[i]));
        assert(clean[i] as u8 == bytes[i]);
        assert('\0' <= clean[i] <= '\u{7f}');
    }
    assert forall|i: int| 0 <= i < clean.len() implies !is_white_space(#[trigger] clean[i]) by {
        assert(is_base32_symbol(clean[i]));
    }
    lemma_strip_no_white_space(clean);
    assert forall|i: int| 0 <= i < clean.len() implies is_ascii_char(#[trigger] clean[i]) by {
        assert(is_base32_symbol(clean[i]));
    }
    assert(clean.map_values(|c: char| ascii_upper(c)) =~= clean) by {
        assert forall|i: int| 0 <= i < clean.len() implies ascii_upper(clean[i]) == clean[i] by {
            assert(is_base32_symbol(clean[i]));
        }
    }
    assert(uppercase_of(strip_white_space(clean)) == clean);
}

impl SecretError {
    pub open spec fn message_text(self) -> Seq<char> {
        match self {
            SecretError::Empty => "Secret is empty"@,
            SecretError::TooLong => "Secret is too long"@,
            SecretError::InvalidBase32(f) => "Invalid base32 secret: "@ + f.text@,
        }
    }

    /// The text shown to the user for this error.
    pub fn message(&self) -> (m: String)
        ensures
            m@ == self.message_text(),
    {
        match self {
            SecretError::Empty => String::from_str("Secret is empty"),
            SecretError::TooLong => String::from_str("Secret is too long"),
            SecretError::InvalidBase32(f) => String::from_str("Invalid base32 secret: ").concat(
                f.text.as_str(),
            ),
        }
    }
}

/// Accepted by the secret check of `looks_like_secret`, after ASCII upper-casing:
/// a letter `A..Z` or a digit `2..7`.
pub open spec fn is_secret_symbol(c: char) -> bool {
    let u = ascii_upper(c);
    ('A' <= u && u <= 'Z') || ('2' <= u && u <= '7')
}

/// Text that looks like a base32 secret: without its white space it is at least
/// 16 bytes long and made only of base32 symbols (either case).
pub open spec fn looks_like_secret_spec(s: Seq<char>) -> bool {
    let clean = strip_white_space(s);
    &&& encode_utf8(clean).len() >= 16
    &&& forall|i: int| 0 <= i < clean.len() ==> is_secret_symbol(#[trigger] clean[i])
}

fn secret_symbol(c: char) -> (b: bool)
    ensures
        b == is_secret_symbol(c),
{
    ('A' <= c && c <= 'Z') || ('a' <= c && c <= 'z') || ('2' <= c && c <= '7')
}

/// Whether `raw` looks like a base32 secret (see `looks_like_secret_spec`).
pub fn looks_like_secret(raw: &str) -> (b: bool)
    ensures
        b == looks_like_secret_spec(raw@),
{
    let chars = chars_of(raw);
    let kept = without_white_space(chars.as_slice());
    let clean = string_of(kept.as_slice());
    let text = clean.as_str();
    let byte_len = text.as_bytes().len();
    if byte_len < 16 {
        return false;
    }
    let mut i: usize = 0;
    while i < kept.len()
        invariant
            i <= kept@.len(),
            kept@ == strip_white_space(raw@),
            encode_utf8(kept@).len() >= 16,
            forall|j: int| 0 <= j < i ==> is_secret_symbol(#[trigger] kept@[j]),
        decreases kept@.len() - i,
    {
        if !secret_symbol(kept[i]) {
            return false;
        }
        i += 1;
    }
    true
}

/// A character of the base32 alphabet `A..Z2..7`.
pub open spec fn is_base32_symbol(c: char) -> bool {
    ('A' <= c && c <= 'Z') || ('2' <= c && c <= '7')
}

proof fn lemma_width_1_when_ascii_byte(c: u32)
    requires
        vstd::utf8::is_scalar(c),
        encode_scalar(c)[0] < 128,
    ensures
        c < 128,
{
    if 0x80 <= c <= 0x7FF {
        let b = ((c >> 6) & 0x1F) as u8;
        assert(0xC0u8 | b >= 0xC0u8) by (bit_vector);
    } else if 0x800 <= c <= 0xFFFF && !(0xD800 <= c <= 0xDFFF) {
        let b = ((c >> 12) & 0x0F) as u8;
        assert(0xE0u8 | b >= 0xE0u8) by (bit_vector);
    } else if 0x10000 <= c <= 0x10FFFF {
        let b = ((c >> 18) & 0x7) as u8;
        assert(0xF0u8 | b >= 0xF0u8) by (bit_vector);
    }
}

proof fn lemma_char_below_128(x: char)
    requires
        (x as u32) < 128,
    ensures
        '\0' <= x <= '\u{7f}',
{
}

/// Text whose UTF-8 encoding has only bytes below 128 is ASCII.
proof fn lemma_ascii_bytes_ascii_chars(cs: Seq<char>)
    requires
        forall|i: int| 0 <= i < encode_utf8(cs).len() ==> #[trigger] encode_utf8(cs)[i] < 128,
    ensures
        is_ascii_chars(cs),
    decreases cs.len(),
{
    if cs.len() > 0 {
        let c = cs[0] as u32;
        vstd::utf8::char_is_scalar(cs[0]);
        let first = encode_scalar(c);
        let rest = encode_utf8(cs.drop_first());
        assert(encode_utf8(cs) == first + rest);
        assert(first.len() >= 1);
        assert(encode_utf8(cs)[0] == first[0]);
        lemma_width_1_when_ascii_byte(c);
        assert forall|i: int| 0 <= i < rest.len() implies #[trigger] rest[i] < 128 by {
            assert(rest[i] == encode_utf8(cs)[first.len() + i]);
        }
        lemma_ascii_bytes_ascii_chars(cs.drop_first());
        lemma_char_below_128(cs[0]);
        assert forall|i: int| 0 <= i < cs.len() implies '\0' <= #[trigger] cs[i] <= '\u{7f}' by {
            if i > 0 {
                assert(cs[i] == cs.drop_first()[i - 1]);
            }
        }
    }
}

proof fn lemma_strip_no_white_space(s: Seq<char>)
    requires
        forall|i: int| 0 <= i < s.len() ==> !is_white_space(#[trigger] s[i]),
    ensures
        strip_white_space(s) == s,
    decreases s.len(),
{
    if s.len() > 0 {
        lemma_strip_no_white_space(s.drop_last());
        assert(s.drop_last().push(s.last()) =~= s);
    }
}

/// A normalised secret is made of base32 symbols only, and normalising it again
/// gives it back unchanged.
pub proof fn lemma_check_secret_idempotent(raw: Seq<char>)
    requires
        check_secret(raw) is Valid,
    ensures
        forall|i: int| 0 <= i < check_secret(raw)->Valid_0.len() ==> is_base32_symbol(#[trigger] check_secret(raw)->Valid_0[i]),
        check_secret(check_secret(raw)->Valid_0) == check_secret(raw),
{
    lemma_normalised_secret(check_secret(raw)->Valid_0);
}

/// A character passes the symbol check of `looks_like_secret` exactly when its
/// ASCII upper case is a base32 symbol: every base32 symbol does, in either case.
pub proof fn lemma_secret_symbol_is_base32(c: char)
    ensures
        is_secret_symbol(c) <==> is_base32_symbol(ascii_upper(c)),
        is_base32_symbol(c) ==> is_secret_symbol(c),
{
}

/// Stripping white space from ASCII text leaves ASCII text.
proof fn lemma_strip_ascii(s: Seq<char>)
    requires
        is_ascii_chars(s),
    ensures
        is_ascii_chars(strip_white_space(s)),
    decreases s.len(),
{
    if s.len() > 0 {
        assert(is_ascii_chars(s.drop_last())) by {
            assert forall|i: int| 0 <= i < s.drop_last().len() implies '\0' <= #[trigger] s.drop_last()[i] <= '\u{7f}' by {
                assert(s.drop_last()[i] == s[i]);
            }
        }
        lemma_strip_ascii(s.drop_last());
        let r = strip_white_space(s.drop_last());
        if !is_white_space(s.last()) {
            assert forall|i: int| 0 <= i < r.push(s.last()).len() implies '\0' <= #[trigger] r.push(s.last())[i] <= '\u{7f}' by {
                if i < r.len() {
                    assert(r.push(s.last())[i] == r[i]);
                } else {
                    assert(s.last() == s[s.len() - 1]);
                }
            }
        }
    }
}

/// ASCII text that normalises to a valid secret of at least 16 symbols looks like
/// a secret, whatever the case of its letters and the white space in it: a line
/// `name:secret` is read with that secret.
pub proof fn lemma_valid_secret_looks_like_secret(raw: Seq<char>)
    requires
        is_ascii_chars(raw),
        check_secret(raw) is Valid,
        check_secret(raw)->Valid_0.len() >= 16,
    ensures
        looks_like_secret_spec(raw),
{
    let c = check_secret(raw)->Valid_0;
    let t = strip_white_space(raw);
    lemma_normalised_secret(c);
    lemma_strip_ascii(raw);
    assert(c == t.map_values(|x: char| ascii_upper(x)));
    vstd::utf8::is_ascii_chars_encode_utf8(t);
    assert forall|i: int| 0 <= i < t.len() implies is_secret_symbol(#[trigger] t[i]) by {
        assert(c[i] == ascii_upper(t[i]));
        assert(is_base32_symbol(c[i]));
    }
}

} // verus!
