//! What the account list shows: each account with its current code.

use vstd::prelude::*;
use vstd::utf8::{decode_utf8, encode_utf8, is_char_boundary};
use crate::text::{chars_of, is_blank, is_blank_text};
use crate::number::{all_ascii_digits, decimal, is_ascii_digit, lemma_decimal_len_exact, lemma_decimal_shape, lemma_digits_value_decimal, lemma_zero_pad_digits, parse_i64, parse_i64_chars, pow10, zero_pad};
use crate::clock::id_text;
use vstd::utf8::is_ascii_chars;
use crate::totp::{totp, totp_spec};
use crate::clock::now_secs;
use crate::account::{Account, AppState};

verus! {

/// An account as shown, with its current code.
#[derive(Debug)]
pub struct AccountCode {
    pub id: String,
    pub issuer: String,
    pub name: String,
    pub password: String,
    pub code: String,
    pub has_code: bool,
    pub digits: u32,
    pub period: u32,
    pub remaining: u32,
    pub created_at: i64,
}

/// The first 13 bytes of an identifier (all of it when shorter) split at a
/// character boundary, so that `&id[..13]` does not panic.
pub open spec fn id_prefix_readable(id: Seq<char>) -> bool {
    let bytes = encode_utf8(id);
    bytes.len() <= 13 || is_char_boundary(bytes, 13)
}

/// The creation time in an identifier: its first 13 bytes (all of it when
/// shorter) parsed as an `i64`, or 0 when they do not parse.
pub open spec fn created_at_of(id: Seq<char>) -> i64 {
    let bytes = encode_utf8(id);
    let k = if bytes.len() < 13 {
        bytes.len() as int
    } else {
        13
    };
    match parse_i64(decode_utf8(bytes.subrange(0, k))) {
        Some(v) => v,
        None => 0,
    }
}

/// The creation time recorded at the start of an identifier.
pub fn created_at(id: &str) -> (t: i64)
    requires
        id_prefix_readable(id@),
    ensures
        t == created_at_of(id@),
{
    let n = id.as_bytes().len();
    let k: usize = if n < 13 {
        n
    } else {
        13
    };
    proof {
        vstd::utf8::encode_utf8_valid_utf8(id@);
        vstd::utf8::is_char_boundary_start_end_of_seq(encode_utf8(id@));
    }
    let (head, _) = id.split_at(k);
    proof {
        vstd::utf8::encode_utf8_decode_utf8(head@);
    }
    let cs = chars_of(head);
    match parse_i64_chars(cs.as_slice()) {
        Some(v) => v,
        None => 0,
    }
}

/// A code can be shown for `a` without a panic: an account with a secret has a
/// non-zero period, at most 9 digits and a secret the decoder accepts in length,
/// and its identifier can be cut after 13 bytes.
pub open spec fn code_computable(a: Account) -> bool {
    &&& !is_blank(a.secret@) ==> {
        &&& a.period > 0
        &&& a.digits <= 9
        &&& encode_utf8(a.secret@).len() <= usize::MAX / 8
    }
    &&& id_prefix_readable(a.id@)
}

/// The code shown for `a` at time `t`: its TOTP code, or six dashes when the
/// secret does not decode.
pub open spec fn shown_code(a: Account, t: u64) -> Seq<char> {
    match totp_spec(a.secret@, a.digits as nat, a.period as nat, t as nat) {
        Ok(c) => c,
        Err(_) => "------"@,
    }
}

/// `c` shows account `a` at time `now`: the same texts, whether it has a secret,
/// the code of some instant (the code is computed with its own reading of the
/// clock), the seconds left in the current period and the creation time.
pub open spec fn shows(a: Account, now: u64, c: AccountCode) -> bool {
    let has = !is_blank(a.secret@);
    &&& c.id == a.id
    &&& c.issuer == a.issuer
    &&& c.name == a.name
    &&& c.password == a.password
    &&& c.has_code == has
    &&& c.digits == a.digits
    &&& c.period == a.period
    &&& c.remaining == (if has {
        (a.period - (now % (a.period as u64))) as u32
    } else {
        0u32
    })
    &&& c.created_at == created_at_of(a.id@)
    &&& if has {
        exists|t: u64| c.code@ == shown_code(a, t)
    } else {
        c.code@ == Seq::<char>::empty()
    }
}

/// `codes` shows `accounts`, one for one, at time `now`.
pub open spec fn shows_all(accounts: Seq<Account>, now: u64, codes: Seq<AccountCode>) -> bool {
    &&& codes.len() == accounts.len()
    &&& forall|i: int| 0 <= i < codes.len() ==> shows(accounts[i], now, #[trigger] codes[i])
}

/// The account `a` as shown at time `now`.
pub fn account_code(a: &Account, now: u64) -> (c: AccountCode)
    requires
        code_computable(*a),
    ensures
        shows(*a, now, c),
{
    let has_code = !is_blank_text(a.secret.as_str());
    let code = if has_code {
        let r = totp(a.secret.as_str(), a.digits, a.period);
        let ghost t = choose|t: u64| crate::totp::totp_outcome(r) == totp_spec(a.secret@, a.digits as nat, a.period as nat, t as nat);
        let c = match r {
            Ok(c) => c,
            Err(_) => String::from_str("------"),
        };
        assert(c@ == shown_code(*a, t));
        c
    } else {
        String::new()
    };
    let remaining: u32 = if has_code {
        a.period - ((now % (a.period as u64)) as u32)
    } else {
        0
    };
    AccountCode {
        id: a.id.clone(),
        issuer: a.issuer.clone(),
        name: a.name.clone(),
        password: a.password.clone(),
        code,
        has_code,
        digits: a.digits,
        period: a.period,
        remaining,
        created_at: created_at(a.id.as_str()),
    }
}

impl AppState {
    /// Every account with its current code, in order; the seconds left are
    /// counted from one reading of the clock.
    pub fn get_accounts(&self) -> (v: Vec<AccountCode>)
        requires
            forall|i: int| 0 <= i < self.accounts@.len() ==> code_computable(#[trigger] self.accounts@[i]),
        ensures
            exists|now: u64| #[trigger] shows_all(self.accounts@, now, v@),
    {
        let now = now_secs();
        let mut v: Vec<AccountCode> = Vec::new();
        let mut i: usize = 0;
        while i < self.accounts.len()
            invariant
                i <= self.accounts@.len(),
                v@.len() == i,
                forall|k: int| 0 <= k < self.accounts@.len() ==> code_computable(#[trigger] self.accounts@[k]),
                forall|k: int| 0 <= k < i ==> shows(self.accounts@[k], now, #[trigger] v@[k]),
            decreases self.accounts@.len() - i,
        {
            v.push(account_code(&self.accounts[i], now));
            i += 1;
        }
        assert(shows_all(self.accounts@, now, v@));
        v
    }
}

/// With a secret, the seconds left in the period are between 1 and the period.
pub proof fn lemma_remaining_in_period(a: Account, now: u64, c: AccountCode)
    requires
        shows(a, now, c),
        !is_blank(a.secret@),
        a.period > 0,
    ensures
        1 <= c.remaining <= c.period,
{
}

proof fn lemma_digit_is_ascii(x: char)
    requires
        is_ascii_digit(x),
    ensures
        '\0' <= x <= '\u{7f}',
        (x as u8) < 0x80,
        x != '-',
        x != '+',
{
}

/// The creation time read from an identifier made at a millisecond time with 13
/// decimal digits (from 2001-09-09 to 2286-11-20) is that time.
pub proof fn lemma_created_at_of_generated_id(millis: i64, r: u16)
    requires
        1_000_000_000_000 <= millis < 10_000_000_000_000,
    ensures
        id_prefix_readable(id_text(millis, r)),
        created_at_of(id_text(millis, r)) == millis,
{
    let m = millis as nat;
    let a = decimal(m);
    let b = zero_pad(decimal((r % 10000) as nat), 4);
    let id = id_text(millis, r);
    assert(id == a + b);
    reveal_with_fuel(pow10, 14);
    lemma_decimal_len_exact(m, 12);
    lemma_decimal_shape(m, 0);
    lemma_decimal_shape((r % 10000) as nat, 0);
    lemma_zero_pad_digits(decimal((r % 10000) as nat), 4);
    assert(all_ascii_digits(id)) by {
        assert forall|i: int| 0 <= i < id.len() implies is_ascii_digit(#[trigger] id[i]) by {
            if i < a.len() {
                assert(id[i] == a[i]);
            } else {
                assert(id[i] == b[i - a.len()]);
            }
        }
    }
    assert(is_ascii_chars(id)) by {
        assert forall|i: int| 0 <= i < id.len() implies '\0' <= #[trigger] id[i] <= '\u{7f}' by {
            lemma_digit_is_ascii(id[i]);
        }
    }
    assert(is_ascii_chars(a)) by {
        assert forall|i: int| 0 <= i < a.len() implies '\0' <= #[trigger] a[i] <= '\u{7f}' by {
            assert(a[i] == id[i]);
            lemma_digit_is_ascii(id[i]);
        }
    }
    vstd::utf8::is_ascii_chars_encode_utf8(id);
    vstd::utf8::is_ascii_chars_encode_utf8(a);
    vstd::utf8::encode_utf8_valid_utf8(id);
    let bytes = encode_utf8(id);
    assert(bytes.len() > 13);
    lemma_digit_is_ascii(id[13]);
    assert(bytes[13] == id[13] as u8);
    vstd::utf8::is_char_boundary_iff_not_is_continuation_byte(bytes, 13);
    assert(bytes.subrange(0, 13) =~= encode_utf8(a)) by {
        assert forall|i: int| 0 <= i < 13 implies bytes.subrange(0, 13)[i] == encode_utf8(a)[i] by {
            assert(a[i] == id[i]);
            assert(bytes[i] == id[i] as u8);
            assert(encode_utf8(a)[i] == a[i] as u8);
        }
    }
    vstd::utf8::encode_utf8_decode_utf8(a);
    lemma_digit_is_ascii(a[0]);
    lemma_digits_value_decimal(m);
}

} // verus!
