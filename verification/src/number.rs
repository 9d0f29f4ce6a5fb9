//! Decimal text of integers and parsing of `i64` from text.

use vstd::prelude::*;
use crate::text::{digit_char, digit_to_char, push_char};

verus! {

/// Decimal digits of `n`, without leading zeros (`0` is `"0"`).
pub open spec fn decimal(n: nat) -> Seq<char>
    decreases n,
{
    if n < 10 {
        seq![digit_char(n as int)]
    } else {
        decimal(n / 10).push(digit_char((n % 10) as int))
    }
}

/// Decimal text of a signed integer, as `format!("{}", n)` writes it.
pub open spec fn signed_decimal(n: int) -> Seq<char> {
    if n < 0 {
        seq!['-'] + decimal((-n) as nat)
    } else {
        decimal(n as nat)
    }
}

/// `s` padded on the left with `'0'` up to `width` characters (`{:0>width}`).
pub open spec fn zero_pad(s: Seq<char>, width: nat) -> Seq<char> {
    if s.len() >= width {
        s
    } else {
        Seq::new((width - s.len()) as nat, |i: int| '0') + s
    }
}

pub open spec fn pow10(e: nat) -> nat
    decreases e,
{
    if e == 0 {
        1
    } else {
        10 * pow10((e - 1) as nat)
    }
}

fn push_decimal(out: &mut String, n: u64)
    ensures
        final(out)@ == old(out)@ + decimal(n as nat),
    decreases n,
{
    if n >= 10 {
        push_decimal(out, n / 10);
    }
    push_char(out, digit_to_char((n % 10) as u8));
    proof {
        if n < 10 {
            assert(decimal(n as nat) =~= seq![digit_char(n as int)]);
        }
    }
}

/// `n.to_string()`.
pub fn u64_text(n: u64) -> (s: String)
    ensures
        s@ == decimal(n as nat),
{
    let mut s = String::new();
    push_decimal(&mut s, n);
    s
}

/// `n.to_string()` for a signed `n`.
pub fn i64_text(n: i64) -> (s: String)
    ensures
        s@ == signed_decimal(n as int),
{
    let mut s = String::new();
    if n < 0 {
        push_char(&mut s, '-');
        let m: u64 = ((-(n + 1)) as u64) + 1;
        push_decimal(&mut s, m);
    } else {
        push_decimal(&mut s, n as u64);
    }
    s
}

/// `format!("{:0>width$}", n)`.
pub fn zero_padded_text(n: u64, width: usize) -> (s: String)
    ensures
        s@ == zero_pad(decimal(n as nat), width as nat),
{
    let digits = u64_text(n);
    let len = digits.as_str().unicode_len();
    let mut s = String::new();
    let mut k: usize = len;
    while k < width
        invariant
            len <= k <= width || (k == len && len >= width),
            len == decimal(n as nat).len(),
            s@ == Seq::new((k - len) as nat, |i: int| '0'),
        decreases width - k,
    {
        push_char(&mut s, '0');
        k += 1;
        assert(s@ =~= Seq::new((k - len) as nat, |i: int| '0'));
    }
    s.append(digits.as_str());
    proof {
        if len >= width {
            assert(s@ =~= decimal(n as nat));
        } else {
            assert(s@ =~= zero_pad(decimal(n as nat), width as nat));
        }
    }
    s
}

pub open spec fn is_ascii_digit(c: char) -> bool {
    '0' <= c && c <= '9'
}

pub open spec fn digit_value(c: char) -> int {
    (c as int) - ('0' as int)
}

pub open spec fn all_ascii_digits(s: Seq<char>) -> bool {
    forall|i: int| 0 <= i < s.len() ==> is_ascii_digit(#[trigger] s[i])
}

/// The number written by the decimal digits `s` (leading zeros allowed).
pub open spec fn digits_value(s: Seq<char>) -> int
    decreases s.len(),
{
    if s.len() == 0 {
        0
    } else {
        10 * digits_value(s.drop_last()) + digit_value(s.last())
    }
}

/// `str::parse::<i64>`: an optional `+` or `-`, then one or more ASCII digits,
/// the value within `i64`'s range.
pub open spec fn parse_i64(s: Seq<char>) -> Option<i64> {
    if s.len() == 0 {
        None
    } else {
        let neg = s[0] == '-';
        let body = if s[0] == '-' || s[0] == '+' {
            s.drop_first()
        } else {
            s
        };
        if body.len() == 0 || !all_ascii_digits(body) {
            None
        } else {
            let v = if neg {
                -digits_value(body)
            } else {
                digits_value(body)
            };
            if i64::MIN <= v <= i64::MAX {
                Some(v as i64)
            } else {
                None
            }
        }
    }
}

proof fn lemma_digits_value_nonneg(s: Seq<char>)
    requires
        all_ascii_digits(s),
    ensures
        digits_value(s) >= 0,
    decreases s.len(),
{
    if s.len() > 0 {
        assert(is_ascii_digit(s[s.len() - 1]));
        lemma_digits_value_nonneg(s.drop_last());
    }
}

proof fn lemma_digits_value_prefix(s: Seq<char>, k: int)
    requires
        all_ascii_digits(s),
        0 <= k <= s.len(),
    ensures
        digits_value(s.take(k)) <= digits_value(s),
    decreases s.len(),
{
    if k < s.len() {
        assert(s.drop_last().take(k) =~= s.take(k));
        lemma_digits_value_prefix(s.drop_last(), k);
        lemma_digits_value_nonneg(s.drop_last());
        assert(is_ascii_digit(s[s.len() - 1]));
    } else {
        assert(s.take(k) =~= s);
    }
}

fn ascii_digit(c: char) -> (r: Option<u8>)
    ensures
        r is Some <==> is_ascii_digit(c),
        r matches Some(d) ==> d as int == digit_value(c) && d < 10,
{
    if '0' <= c && c <= '9' {
        Some(((c as u32) - ('0' as u32)) as u8)
    } else {
        None
    }
}

/// Parses the characters `cs` as `str::parse::<i64>` does.
pub fn parse_i64_chars(cs: &[char]) -> (r: Option<i64>)
    ensures
        r == parse_i64(cs@),
{
    let len = cs.len();
    if len == 0 {
        return None;
    }
    let neg = cs[0] == '-';
    let start: usize = if cs[0] == '-' || cs[0] == '+' {
        1
    } else {
        0
    };
    let ghost body = if cs@[0] == '-' || cs@[0] == '+' {
        cs@.drop_first()
    } else {
        cs@
    };
    assert(body =~= cs@.subrange(start as int, len as int));
    if start == len {
        return None;
    }
    let mut acc: i64 = 0;
    let mut i: usize = start;
    while i < len
        invariant
            start <= i <= len == cs@.len(),
            body == cs@.subrange(start as int, len as int),
            neg == (cs@[0] == '-'),
            start == (if cs@[0] == '-' || cs@[0] == '+' { 1usize } else { 0usize }),
            cs@.len() > 0,
            body == (if cs@[0] == '-' || cs@[0] == '+' { cs@.drop_first() } else { cs@ }),
            all_ascii_digits(body.take(i - start)),
            acc as int == if neg {
                -digits_value(body.take(i - start))
            } else {
                digits_value(body.take(i - start))
            },
        decreases len - i,
    {
        let ghost pre = body.take(i - start);
        let ghost next = body.take(i - start + 1);
        assert(next.drop_last() =~= pre);
        assert(next.last() == cs@[i as int]);
        match ascii_digit(cs[i]) {
            None => {
                assert(!is_ascii_digit(body[i - start]));
                return None;
            },
            Some(d) => {
                assert forall|j: int| 0 <= j < next.len() implies is_ascii_digit(
                    #[trigger] next[j],
                ) by {
                    if j < pre.len() {
                        assert(next[j] == pre[j]);
                    }
                }
                let t = acc.checked_mul(10);
                let stepped = match t {
                    None => None,
                    Some(t) => if neg {
                        t.checked_sub(d as i64)
                    } else {
                        t.checked_add(d as i64)
                    },
                };
                match stepped {
                    None => {
                        proof {
                            lemma_digits_value_nonneg(pre);
                            assert(digits_value(next) == 10 * digits_value(pre) + d);
                            if neg {
                                assert(-digits_value(next) < i64::MIN);
                            } else {
                                assert(digits_value(next) > i64::MAX);
                            }
                            if all_ascii_digits(body) {
                                lemma_digits_value_prefix(body, i - start + 1);
                                assert(digits_value(body) >= digits_value(next));
                            }
                        }
                        return None;
                    },
                    Some(v) => {
                        acc = v;
                    },
                }
            },
        }
        i += 1;
    }
    assert(body.take(len - start) =~= body);
    Some(acc)
}

/// The digit character of `d` is an ASCII digit whose value is `d`.
pub proof fn lemma_digit_char(d: int)
    requires
        0 <= d < 10,
    ensures
        is_ascii_digit(digit_char(d)),
        digit_value(digit_char(d)) == d,
{
}

/// The decimal text of `n` is made of ASCII digits, and has at most `w` of them
/// when `n < 10^w` (`w >= 1`).
pub proof fn lemma_decimal_shape(n: nat, w: nat)
    ensures
        all_ascii_digits(decimal(n)),
        decimal(n).len() >= 1,
        w >= 1 && n < pow10(w) ==> decimal(n).len() <= w,
    decreases n,
{
    if n < 10 {
        lemma_digit_char(n as int);
    } else {
        lemma_digit_char((n % 10) as int);
        if w >= 1 {
            lemma_decimal_shape(n / 10, (w - 1) as nat);
        } else {
            lemma_decimal_shape(n / 10, 0);
        }
        let d = decimal(n);
        assert forall|i: int| 0 <= i < d.len() implies is_ascii_digit(#[trigger] d[i]) by {
            if i < d.len() - 1 {
                assert(d[i] == decimal(n / 10)[i]);
            }
        }
        if w >= 1 && n < pow10(w) {
            if w == 1 {
                assert(pow10(1) == 10 * pow10(0));
            }
        }
    }
}

/// Zero-padding decimal digits keeps them digits and gives at least `w` of them.
pub proof fn lemma_zero_pad_digits(s: Seq<char>, w: nat)
    requires
        all_ascii_digits(s),
    ensures
        all_ascii_digits(zero_pad(s, w)),
        zero_pad(s, w).len() == if s.len() >= w {
            s.len()
        } else {
            w
        },
{
    let p = zero_pad(s, w);
    if s.len() < w {
        assert forall|i: int| 0 <= i < p.len() implies is_ascii_digit(#[trigger] p[i]) by {
            if i >= w - s.len() {
                assert(p[i] == s[i - (w - s.len())]);
            }
        }
    }
}

/// `n` has exactly `k + 1` decimal digits when `10^k <= n < 10^(k+1)`.
pub proof fn lemma_decimal_len_exact(n: nat, k: nat)
    requires
        pow10(k) <= n < pow10(k + 1),
    ensures
        decimal(n).len() == k + 1,
    decreases k,
{
    if k > 0 {
        assert(pow10(k + 1) == 10 * pow10(k));
        assert(pow10(k) == 10 * pow10((k - 1) as nat));
        lemma_pow10_pos((k - 1) as nat);
        assert(n >= 10);
        assert(pow10((k - 1) as nat) <= n / 10 < pow10(k));
        lemma_decimal_len_exact(n / 10, (k - 1) as nat);
    } else {
        assert(pow10(1) == 10 * pow10(0));
    }
}

/// Powers of ten are positive.
pub proof fn lemma_pow10_pos(k: nat)
    ensures
        pow10(k) >= 1,
    decreases k,
{
    if k > 0 {
        lemma_pow10_pos((k - 1) as nat);
    }
}

/// Reading back the decimal text of `n` gives `n`.
pub proof fn lemma_digits_value_decimal(n: nat)
    ensures
        digits_value(decimal(n)) == n,
    decreases n,
{
    lemma_digit_char((n % 10) as int);
    let d = decimal(n);
    if n < 10 {
        assert(d.drop_last() =~= Seq::<char>::empty());
        assert(digits_value(d.drop_last()) == 0);
        assert(d.last() == digit_char(n as int));
        assert(digits_value(d) == 10 * digits_value(d.drop_last()) + digit_value(d.last()));
    } else {
        lemma_digits_value_decimal(n / 10);
        assert(d.drop_last() =~= decimal(n / 10));
        assert(d.last() == digit_char((n % 10) as int));
        assert(digits_value(d) == 10 * digits_value(d.drop_last()) + digit_value(d.last()));
    }
}

} // verus!
