//! Decimal text: specification-level decimal representations and verified
//! formatting / parsing of the integer fields that appear in log lines and
//! manifests.

use vstd::prelude::*;
use vstd::arithmetic::div_mod::{lemma_fundamental_div_mod, lemma_fundamental_div_mod_converse};
use vstd::string::*;

verus! {

/// The character for one decimal digit value.
pub open spec fn digit_char(d: int) -> char {
    if d == 0 {
        '0'
    } else if d == 1 {
        '1'
    } else if d == 2 {
        '2'
    } else if d == 3 {
        '3'
    } else if d == 4 {
        '4'
    } else if d == 5 {
        '5'
    } else if d == 6 {
        '6'
    } else if d == 7 {
        '7'
    } else {
        if d == 8 {
            '8'
        } else {
            '9'
        }
    }
}

pub open spec fn is_dec_digit(c: char) -> bool {
    48 <= c as int <= 57
}

pub open spec fn digit_val(c: char) -> int {
    c as int - 48
}

/// The canonical decimal representation of a natural number (no sign, no
/// leading zeros except for the single digit `0`).
pub open spec fn dec_rep(n: nat) -> Seq<char>
    decreases n,
{
    if n < 10 {
        seq![digit_char(n as int)]
    } else {
        dec_rep(n / 10).push(digit_char((n % 10) as int))
    }
}

/// The decimal representation of a signed number: a `-` before the magnitude
/// when it is negative.
pub open spec fn int_rep(n: int) -> Seq<char> {
    if n < 0 {
        seq!['-'] + dec_rep((-n) as nat)
    } else {
        dec_rep(n as nat)
    }
}

pub open spec fn all_dec_digits(s: Seq<char>) -> bool {
    forall|i: int| 0 <= i < s.len() ==> is_dec_digit(#[trigger] s[i])
}

/// The numeric value of a digit string, most significant digit first.
pub open spec fn dec_val(s: Seq<char>) -> int
    decreases s.len(),
{
    if s.len() == 0 {
        0
    } else {
        dec_val(s.drop_last()) * 10 + digit_val(s.last())
    }
}

/// A digit string that denotes a value representable as `u64`.
pub open spec fn valid_u64_dec(s: Seq<char>) -> bool {
    s.len() > 0 && all_dec_digits(s) && dec_val(s) <= u64::MAX
}

/// The text with one leading `+` removed, if present: unsigned and signed
/// number fields both tolerate the explicit plus sign.
pub open spec fn strip_plus(s: Seq<char>) -> Seq<char> {
    if s.len() > 0 && s[0] == '+' {
        s.skip(1)
    } else {
        s
    }
}

/// An unsigned number field: a digit string, optionally after one `+`, whose
/// value fits in `u64`.
pub open spec fn valid_u64_field(s: Seq<char>) -> bool {
    valid_u64_dec(strip_plus(s))
}

pub open spec fn u64_field_val(s: Seq<char>) -> int {
    dec_val(strip_plus(s))
}

/// A signed number field: a digit string, optionally after one `-` or `+`,
/// whose value fits in `i64`.
pub open spec fn valid_i64_dec(s: Seq<char>) -> bool {
    if s.len() > 0 && s[0] == '-' {
        let mag = s.skip(1);
        mag.len() > 0 && all_dec_digits(mag) && dec_val(mag) <= 0x8000_0000_0000_0000
    } else {
        let mag = strip_plus(s);
        mag.len() > 0 && all_dec_digits(mag) && dec_val(mag) <= i64::MAX
    }
}

pub open spec fn i64_dec_val(s: Seq<char>) -> int {
    if s.len() > 0 && s[0] == '-' {
        -dec_val(s.skip(1))
    } else {
        dec_val(strip_plus(s))
    }
}

pub proof fn lemma_digit_char_val(d: int)
    requires
        0 <= d < 10,
    ensures
        is_dec_digit(digit_char(d)),
        digit_val(digit_char(d)) == d,
{
}

pub proof fn lemma_dec_rep_digits(n: nat)
    ensures
        dec_rep(n).len() >= 1,
        all_dec_digits(dec_rep(n)),
    decreases n,
{
    if n < 10 {
        lemma_digit_char_val(n as int);
    } else {
        lemma_dec_rep_digits(n / 10);
        lemma_digit_char_val((n % 10) as int);
    }
}

pub proof fn lemma_dec_rep_val(n: nat)
    ensures
        dec_val(dec_rep(n)) == n,
    decreases n,
{
    if n < 10 {
        lemma_digit_char_val(n as int);
        assert(dec_rep(n).drop_last() =~= Seq::<char>::empty());
        assert(dec_val(Seq::<char>::empty()) == 0);
        assert(dec_rep(n).last() == digit_char(n as int));
    } else {
        lemma_dec_rep_val(n / 10);
        lemma_digit_char_val((n % 10) as int);
        lemma_dec_rep_digits(n / 10);
        assert(dec_rep(n) == dec_rep(n / 10).push(digit_char((n % 10) as int)));
        assert(dec_rep(n).drop_last() =~= dec_rep(n / 10));
        assert(dec_rep(n).last() == digit_char((n % 10) as int));
        assert(dec_val(dec_rep(n)) == dec_val(dec_rep(n / 10)) * 10 + (n % 10));
        assert(dec_val(dec_rep(n)) == (n / 10) * 10 + (n % 10));
        lemma_fundamental_div_mod(n as int, 10);
        assert(n as int == 10 * (n as int / 10) + (n as int % 10));
        assert(n as int / 10 == (n / 10) as int);
        assert(n as int % 10 == (n % 10) as int);
    }
}

pub proof fn lemma_dec_val_nonneg(s: Seq<char>)
    requires
        all_dec_digits(s),
    ensures
        dec_val(s) >= 0,
    decreases s.len(),
{
    if s.len() > 0 {
        assert(all_dec_digits(s.drop_last()));
        lemma_dec_val_nonneg(s.drop_last());
    }
}

/// The value of a digit string is at least the value of any of its prefixes.
pub proof fn lemma_dec_val_prefix(s: Seq<char>, i: int)
    requires
        all_dec_digits(s),
        0 <= i <= s.len(),
    ensures
        dec_val(s.take(i)) <= dec_val(s),
    decreases s.len(),
{
    if i == s.len() {
        assert(s.take(i) =~= s);
    } else {
        assert(all_dec_digits(s.drop_last()));
        assert(s.take(i) =~= s.drop_last().take(i));
        lemma_dec_val_prefix(s.drop_last(), i);
        lemma_dec_val_nonneg(s.drop_last());
    }
}

pub fn digit_str(d: u64) -> (r: &'static str)
    requires
        d < 10,
    ensures
        r@ =~= seq![digit_char(d as int)],
{
    let r: &'static str = match d {
        0 => "0",
        1 => "1",
        2 => "2",
        3 => "3",
        4 => "4",
        5 => "5",
        6 => "6",
        7 => "7",
        8 => "8",
        _ => "9",
    };
    proof {
        reveal_strlit("0");
        reveal_strlit("1");
        reveal_strlit("2");
        reveal_strlit("3");
        reveal_strlit("4");
        reveal_strlit("5");
        reveal_strlit("6");
        reveal_strlit("7");
        reveal_strlit("8");
        reveal_strlit("9");
    }
    r
}

/// Formats a `u64` in decimal.
pub fn u64_to_dec(n: u64) -> (r: String)
    ensures
        r@ == dec_rep(n as nat),
    decreases n,
{
    if n < 10 {
        String::from_str(digit_str(n))
    } else {
        let mut s = u64_to_dec(n / 10);
        s.append(digit_str(n % 10));
        proof {
            assert(s@ =~= dec_rep(n as nat));
        }
        s
    }
}

/// Formats an `i64` in decimal, with a leading `-` when negative.
pub fn i64_to_dec(n: i64) -> (r: String)
    ensures
        r@ == int_rep(n as int),
{
    if n >= 0 {
        let s = u64_to_dec(n as u64);
        proof {
            assert(s@ =~= int_rep(n as int));
        }
        s
    } else {
        let m: u64 = (-(n as i128)) as u64;
        let mut s = String::from_str("-");
        let mag = u64_to_dec(m);
        s.append(mag.as_str());
        proof {
            reveal_strlit("-");
            assert(s@ =~= int_rep(n as int));
        }
        s
    }
}

/// Parses a decimal digit string into a `u64`; `None` exactly when the text
/// is not a digit string or its value does not fit.
pub fn parse_u64(s: &str) -> (r: Option<u64>)
    ensures
        match r {
            Some(v) => valid_u64_dec(s@) && v as int == dec_val(s@),
            None => !valid_u64_dec(s@),
        },
{
    let n = s.unicode_len();
    if n == 0 {
        return None;
    }
    let mut v: u128 = 0;
    let mut i: usize = 0;
    while i < n
        invariant
            0 <= i <= n,
            n == s@.len(),
            all_dec_digits(s@.take(i as int)),
            v == dec_val(s@.take(i as int)),
            v <= u64::MAX,
        decreases n - i,
    {
        let c = s.get_char(i);
        let code = c as u32;
        if code < 48 || code > 57 {
            proof {
                assert(!is_dec_digit(s@[i as int]));
            }
            return None;
        }
        let d: u128 = (code - 48) as u128;
        proof {
            assert(s@.take(i as int + 1).drop_last() =~= s@.take(i as int));
            assert(s@.take(i as int + 1).last() == s@[i as int]);
        }
        let nv: u128 = v * 10 + d;
        if nv > u64::MAX as u128 {
            proof {
                if all_dec_digits(s@) {
                    lemma_dec_val_prefix(s@, i as int + 1);
                }
            }
            return None;
        }
        v = nv;
        i = i + 1;
    }
    proof {
        assert(s@.take(n as int) =~= s@);
    }
    Some(v as u64)
}

/// Parses an unsigned number field (digits, optionally after one `+`).
pub fn parse_u64_field(s: &str) -> (r: Option<u64>)
    ensures
        match r {
            Some(v) => valid_u64_field(s@) && v as int == u64_field_val(s@),
            None => !valid_u64_field(s@),
        },
{
    let n = s.unicode_len();
    if n > 0 && s.get_char(0) == '+' {
        let mag = s.substring_char(1, n);
        proof {
            assert(mag@ =~= s@.skip(1));
        }
        parse_u64(mag)
    } else {
        proof {
            assert(strip_plus(s@) =~= s@);
        }
        parse_u64(s)
    }
}

/// Parses a signed number field (digits, optionally after one `-` or `+`)
/// into an `i64`.
pub fn parse_i64(s: &str) -> (r: Option<i64>)
    ensures
        match r {
            Some(v) => valid_i64_dec(s@) && v as int == i64_dec_val(s@),
            None => !valid_i64_dec(s@),
        },
{
    let n = s.unicode_len();
    if n > 0 && s.get_char(0) == '-' {
        let mag = s.substring_char(1, n);
        proof {
            assert(mag@ =~= s@.skip(1));
        }
        match parse_u64(mag) {
            Some(m) => {
                if m > 0x8000_0000_0000_0000u64 {
                    proof {
                        assert(!valid_i64_dec(s@));
                    }
                    None
                } else {
                    let v: i64 = (-(m as i128)) as i64;
                    Some(v)
                }
            },
            None => None,
        }
    } else {
        match parse_u64_field(s) {
            Some(m) => {
                if m > i64::MAX as u64 {
                    None
                } else {
                    Some(m as i64)
                }
            },
            None => None,
        }
    }
}

/// No character of `s` is `c`.
pub open spec fn no_char(s: Seq<char>, c: char) -> bool {
    forall|i: int| 0 <= i < s.len() ==> #[trigger] s[i] != c
}

/// Duration text: seconds with exactly two decimal places, from a count of
/// centiseconds (`1234` renders as `12.34`).
pub open spec fn len_rep(cs: nat) -> Seq<char> {
    dec_rep(cs / 100) + seq!['.', digit_char(((cs / 10) % 10) as int), digit_char((cs % 10) as int)]
}

/// Duration text that the centisecond model holds exactly: a digit string,
/// optionally followed by a dot and one or two fraction digits (`2`, `2.5`,
/// `2.50`), denoting a centisecond count representable as `u64`. Text whose
/// value centiseconds cannot hold — more fraction digits, an exponent, a
/// sign — is not duration text.
pub open spec fn valid_len_dec(s: Seq<char>) -> bool {
    if s.len() >= 2 && s[s.len() - 2] == '.' {
        let ip = s.take(s.len() - 2);
        &&& ip.len() > 0
        &&& all_dec_digits(ip)
        &&& is_dec_digit(s[s.len() - 1])
        &&& dec_val(ip) * 100 + digit_val(s[s.len() - 1]) * 10 <= u64::MAX
    } else if s.len() >= 3 && s[s.len() - 3] == '.' {
        let ip = s.take(s.len() - 3);
        &&& ip.len() > 0
        &&& all_dec_digits(ip)
        &&& is_dec_digit(s[s.len() - 2])
        &&& is_dec_digit(s[s.len() - 1])
        &&& dec_val(ip) * 100 + digit_val(s[s.len() - 2]) * 10 + digit_val(s[s.len() - 1])
            <= u64::MAX
    } else {
        &&& s.len() > 0
        &&& all_dec_digits(s)
        &&& dec_val(s) * 100 <= u64::MAX
    }
}

/// The centisecond count denoted by duration text.
pub open spec fn len_dec_val(s: Seq<char>) -> int {
    if s.len() >= 2 && s[s.len() - 2] == '.' {
        dec_val(s.take(s.len() - 2)) * 100 + digit_val(s[s.len() - 1]) * 10
    } else if s.len() >= 3 && s[s.len() - 3] == '.' {
        dec_val(s.take(s.len() - 3)) * 100 + digit_val(s[s.len() - 2]) * 10 + digit_val(
            s[s.len() - 1],
        )
    } else {
        dec_val(s) * 100
    }
}

/// The canonical duration text of a centisecond count is valid, denotes that
/// count, and contains no field delimiter.
pub proof fn lemma_len_rep(cs: nat)
    requires
        cs <= u64::MAX,
    ensures
        valid_len_dec(len_rep(cs)),
        len_dec_val(len_rep(cs)) == cs,
        no_char(len_rep(cs), '|'),
{
    lemma_dec_rep_digits(cs / 100);
    lemma_dec_rep_val(cs / 100);
    lemma_digit_char_val(((cs / 10) % 10) as int);
    lemma_digit_char_val((cs % 10) as int);
    let s = len_rep(cs);
    assert(s.take(s.len() - 3) =~= dec_rep(cs / 100));
    assert(s[s.len() - 3] == '.');
    assert(s[s.len() - 2] == digit_char(((cs / 10) % 10) as int));
    assert(s[s.len() - 1] == digit_char((cs % 10) as int));
    assert(is_dec_digit(s[s.len() - 2]) && s[s.len() - 2] != '.');
    vstd::arithmetic::div_mod::lemma_breakdown(cs as int, 10, 10);
    assert(cs as int % 100 == 10 * ((cs as int / 10) % 10) + cs as int % 10);
    lemma_fundamental_div_mod(cs as int, 100);
}

/// Formats a centisecond count as seconds with two decimal places.
pub fn len_to_dec(cs: u64) -> (r: String)
    ensures
        r@ == len_rep(cs as nat),
{
    let mut s = u64_to_dec(cs / 100);
    s.append(".");
    s.append(digit_str((cs / 10) % 10));
    s.append(digit_str(cs % 10));
    proof {
        reveal_strlit(".");
        assert(s@ =~= len_rep(cs as nat));
    }
    s
}

/// Parses duration text (a digit string with an optional dot and one or two
/// fraction digits) into a centisecond count.
pub fn parse_len(s: &str) -> (r: Option<u64>)
    ensures
        match r {
            Some(v) => valid_len_dec(s@) && v as int == len_dec_val(s@),
            None => !valid_len_dec(s@),
        },
{
    let n = s.unicode_len();
    if n >= 2 && s.get_char(n - 2) == '.' {
        let intpart = s.substring_char(0, n - 2);
        proof {
            assert(intpart@ =~= s@.take(n as int - 2));
        }
        let a = match parse_u64(intpart) {
            Some(a) => a,
            None => {
                proof {
                    if valid_len_dec(s@) {
                        lemma_dec_val_nonneg(s@.take(n as int - 2));
                    }
                }
                return None;
            },
        };
        let k1 = s.get_char(n - 1) as u32;
        if k1 < 48 || k1 > 57 {
            return None;
        }
        let v: u128 = (a as u128) * 100 + ((k1 - 48) as u128) * 10;
        if v > u64::MAX as u128 {
            return None;
        }
        Some(v as u64)
    } else if n >= 3 && s.get_char(n - 3) == '.' {
        let intpart = s.substring_char(0, n - 3);
        proof {
            assert(intpart@ =~= s@.take(n as int - 3));
        }
        let a = match parse_u64(intpart) {
            Some(a) => a,
            None => {
                proof {
                    if valid_len_dec(s@) {
                        lemma_dec_val_nonneg(s@.take(n as int - 3));
                    }
                }
                return None;
            },
        };
        let k1 = s.get_char(n - 2) as u32;
        let k2 = s.get_char(n - 1) as u32;
        if k1 < 48 || k1 > 57 || k2 < 48 || k2 > 57 {
            return None;
        }
        let v: u128 = (a as u128) * 100 + ((k1 - 48) as u128) * 10 + ((k2 - 48) as u128);
        if v > u64::MAX as u128 {
            return None;
        }
        Some(v as u64)
    } else {
        let a = match parse_u64(s) {
            Some(a) => a,
            None => {
                proof {
                    if valid_len_dec(s@) {
                        lemma_dec_val_nonneg(s@);
                    }
                }
                return None;
            },
        };
        let v: u128 = (a as u128) * 100;
        if v > u64::MAX as u128 {
            return None;
        }
        Some(v as u64)
    }
}

/// Character-by-character text equality.
pub fn str_eq(a: &str, b: &str) -> (r: bool)
    ensures
        r == (a@ == b@),
{
    let n = a.unicode_len();
    let m = b.unicode_len();
    if n != m {
        return false;
    }
    let mut i: usize = 0;
    while i < n
        invariant
            0 <= i <= n,
            n == a@.len(),
            n == b@.len(),
            forall|j: int| 0 <= j < i ==> a@[j] == b@[j],
        decreases n - i,
    {
        if a.get_char(i) != b.get_char(i) {
            return false;
        }
        i = i + 1;
    }
    proof {
        assert(a@ =~= b@);
    }
    true
}

/// The decimal representation of an `i64` is valid signed decimal text for
/// that value and contains no field delimiter.
pub proof fn lemma_int_rep(n: int)
    requires
        -0x8000_0000_0000_0000 <= n <= 0x7fff_ffff_ffff_ffff,
    ensures
        valid_i64_dec(int_rep(n)),
        i64_dec_val(int_rep(n)) == n,
        no_char(int_rep(n), '|'),
{
    if n < 0 {
        let mag = (-n) as nat;
        lemma_dec_rep_digits(mag);
        lemma_dec_rep_val(mag);
        assert(int_rep(n)[0] == '-');
        assert(int_rep(n).skip(1) =~= dec_rep(mag));
    } else {
        lemma_dec_rep_digits(n as nat);
        lemma_dec_rep_val(n as nat);
        assert(is_dec_digit(int_rep(n)[0]));
        assert(int_rep(n)[0] != '-');
        assert(int_rep(n)[0] != '+');
        assert(strip_plus(int_rep(n)) == int_rep(n));
    }
}

/// The decimal representation of a `u64` is a valid unsigned number field
/// for that value and contains no field delimiter.
pub proof fn lemma_u64_rep(n: nat)
    requires
        n <= u64::MAX,
    ensures
        valid_u64_field(dec_rep(n)),
        u64_field_val(dec_rep(n)) == n,
        no_char(dec_rep(n), '|'),
{
    lemma_dec_rep_digits(n);
    lemma_dec_rep_val(n);
    assert(is_dec_digit(dec_rep(n)[0]));
    assert(dec_rep(n)[0] != '+');
    assert(strip_plus(dec_rep(n)) == dec_rep(n));
}

/// Floor division of the difference of two millisecond timestamps by 1000,
/// matching the mathematical `/` of the specifications (rounds toward
/// negative infinity).
pub fn offset_seconds(ts: i64, first: i64) -> (r: i64)
    ensures
        r as int == (ts - first) / 1000,
{
    let d: i128 = ts as i128 - first as i128;
    let q: i128;
    if d >= 0 {
        q = ((d as u128) / 1000) as i128;
    } else {
        let m: u128 = ((-(d + 1)) as u128) + 1;
        let qq: u128 = (m + 999) / 1000;
        proof {
            lemma_floor_div_neg(m as int);
        }
        q = -(qq as i128);
    }
    proof {
        lemma_fundamental_div_mod(d as int, 1000);
    }
    q as i64
}

/// For a positive magnitude `m`, `-((m + 999) / 1000)` is the floor of
/// `-m / 1000`.
proof fn lemma_floor_div_neg(m: int)
    requires
        m > 0,
    ensures
        -((m + 999) / 1000) == (-m) / 1000,
{
    let a = m / 1000;
    let b = m % 1000;
    lemma_fundamental_div_mod(m, 1000);
    if b == 0 {
        lemma_fundamental_div_mod_converse(-m, 1000, -a, 0);
        lemma_fundamental_div_mod_converse(m + 999, 1000, a, 999);
    } else {
        lemma_fundamental_div_mod_converse(-m, 1000, -a - 1, 1000 - b);
        lemma_fundamental_div_mod_converse(m + 999, 1000, a + 1, b - 1);
    }
}

} // verus!
