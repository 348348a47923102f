//! Decimal integer reading and writing over character sequences, with the
//! round-trip facts the argument parser and the breakpoint comparator need.

use vstd::prelude::*;

verus! {

/// `c` is an ASCII decimal digit.
pub open spec fn is_digit(c: char) -> bool {
    '0' <= c && c <= '9'
}

/// The numeric value of a digit character.
pub open spec fn digit_val(c: char) -> nat {
    ((c as int) - ('0' as int)) as nat
}

/// Every character of `s` is a decimal digit.
pub open spec fn all_digits(s: Seq<char>) -> bool {
    forall|i: int| 0 <= i < s.len() ==> is_digit(#[trigger] s[i])
}

/// The value of a digit string, most significant digit first.
pub open spec fn dec_value(s: Seq<char>) -> nat
    decreases s.len(),
{
    if s.len() == 0 {
        0
    } else {
        dec_value(s.drop_last()) * 10 + digit_val(s.last())
    }
}

/// The digit character for a value below ten.
pub open spec fn digit_char(n: nat) -> char {
    if n == 0 {
        '0'
    } else if n == 1 {
        '1'
    } else if n == 2 {
        '2'
    } else if n == 3 {
        '3'
    } else if n == 4 {
        '4'
    } else if n == 5 {
        '5'
    } else if n == 6 {
        '6'
    } else if n == 7 {
        '7'
    } else if n == 8 {
        '8'
    } else {
        '9'
    }
}

/// The canonical digit string of `n`: no leading zero except for `"0"` itself.
pub open spec fn dec_of(n: nat) -> Seq<char>
    decreases n,
{
    if n < 10 {
        seq![digit_char(n)]
    } else {
        dec_of(n / 10).push(digit_char(n % 10))
    }
}

/// The canonical form of a signed value: a `-` sign before the magnitude's
/// digits when the value is negative.
pub open spec fn dec_of_int(n: int) -> Seq<char> {
    if n >= 0 {
        dec_of(n as nat)
    } else {
        seq!['-'] + dec_of((-n) as nat)
    }
}

/// The signed value of a character string under the integer grammar of
/// `str::parse`: an optional `+` or `-` sign followed by at least one digit.
pub open spec fn signed_dec_value(s: Seq<char>) -> int {
    if s.len() > 0 && s[0] == '-' {
        -(dec_value(s.drop_first()) as int)
    } else if s.len() > 0 && s[0] == '+' {
        dec_value(s.drop_first()) as int
    } else {
        dec_value(s) as int
    }
}

/// `s` is a well-formed signed decimal string: an optional sign followed by
/// one or more digits.
pub open spec fn is_signed_dec(s: Seq<char>) -> bool {
    if s.len() > 0 && (s[0] == '-' || s[0] == '+') {
        s.len() > 1 && all_digits(s.drop_first())
    } else {
        s.len() > 0 && all_digits(s)
    }
}

pub proof fn lemma_dec_value_snoc_pub(s: Seq<char>, c: char)
    ensures
        dec_value(s.push(c)) == dec_value(s) * 10 + digit_val(c),
{
    assert(s.push(c).drop_last() =~= s);
    assert(s.push(c).last() == c);
}

/// Reading the digits of `n` gives back `n`.
pub proof fn lemma_dec_roundtrip(n: nat)
    ensures
        dec_value(dec_of(n)) == n,
    decreases n,
{
    if n < 10 {
        assert(dec_of(n) =~= seq![digit_char(n)]);
        assert(dec_of(n).drop_last() =~= Seq::<char>::empty());
        assert(dec_value(Seq::<char>::empty()) == 0);
        assert(digit_val(digit_char(n)) == n);
        assert(dec_value(dec_of(n)) == dec_value(dec_of(n).drop_last()) * 10 + digit_val(
            dec_of(n).last(),
        ));
    } else {
        lemma_dec_roundtrip(n / 10);
        assert(dec_of(n) == dec_of(n / 10).push(digit_char(n % 10)));
        lemma_dec_value_snoc_pub(dec_of(n / 10), digit_char(n % 10));
        assert(dec_value(dec_of(n)) == dec_value(dec_of(n / 10)) * 10 + digit_val(
            digit_char(n % 10),
        ));
        assert(digit_val(digit_char(n % 10)) == n % 10);
        vstd::arithmetic::div_mod::lemma_fundamental_div_mod(n as int, 10);
    }
}

/// The canonical digit string is made of digits and never starts with a
/// superfluous zero.
pub proof fn lemma_dec_of_shape(n: nat)
    ensures
        dec_of(n).len() >= 1,
        all_digits(dec_of(n)),
        n > 0 ==> dec_of(n)[0] != '0',
        n < 10 ==> dec_of(n).len() == 1,
    decreases n,
{
    if n < 10 {
    } else {
        lemma_dec_of_shape(n / 10);
    }
}

/// Parse an unsigned decimal digit string. Returns the value when every
/// character is a digit, there is at least one, and the value fits in `u128`.
pub fn parse_dec_u128(cs: &[char]) -> (r: Option<u128>)
    ensures
        match r {
            Some(v) => cs@.len() > 0 && all_digits(cs@) && dec_value(cs@) == v,
            None => cs@.len() == 0 || !all_digits(cs@) || dec_value(cs@) > u128::MAX,
        },
{
    if cs.len() == 0 {
        return None;
    }
    let mut v: u128 = 0;
    let mut i: usize = 0;
    while i < cs.len()
        invariant
            i <= cs@.len(),
            all_digits(cs@.subrange(0, i as int)),
            v == dec_value(cs@.subrange(0, i as int)),
        decreases cs@.len() - i,
    {
        let c = cs[i];
        if c < '0' || c > '9' {
            assert(!is_digit(cs@[i as int]));
            return None;
        }
        let d: u128 = (c as u128) - ('0' as u128);
        assert(d == digit_val(cs@[i as int]));
        assert(d <= 9);
        if v > (u128::MAX - d) / 10 {
            proof {
                assert(v * 10 + d > u128::MAX) by (nonlinear_arith)
                    requires
                        v > (u128::MAX - d) / 10,
                        d <= 9,
                ;
                lemma_dec_value_snoc_pub(cs@.subrange(0, i as int), cs@[i as int]);
                assert(cs@.subrange(0, i as int).push(cs@[i as int]) =~= cs@.subrange(
                    0,
                    i + 1,
                ));
                lemma_dec_value_prefix_le(cs@, i + 1);
            }
            return None;
        }
        proof {
            assert(v * 10 + d <= u128::MAX) by (nonlinear_arith)
                requires
                    v <= (u128::MAX - d) / 10,
                    d <= 9,
            ;
            lemma_dec_value_snoc_pub(cs@.subrange(0, i as int), cs@[i as int]);
            assert(cs@.subrange(0, i as int).push(cs@[i as int]) =~= cs@.subrange(0, i + 1));
        }
        v = v * 10 + d;
        i += 1;
    }
    proof {
        assert(cs@.subrange(0, cs@.len() as int) =~= cs@);
    }
    Some(v)
}

/// Parse a signed decimal string under the grammar of `str::parse::<i128>`:
/// an optional `+` or `-` sign followed by one or more digits, rejecting
/// values outside the signed 128-bit range.
pub fn parse_dec_i128(cs: &[char]) -> (r: Option<i128>)
    ensures
        match r {
            Some(v) => is_signed_dec(cs@) && signed_dec_value(cs@) == v,
            None => !is_signed_dec(cs@) || signed_dec_value(cs@) < i128::MIN
                || signed_dec_value(cs@) > i128::MAX,
        },
{
    if cs.len() == 0 {
        return None;
    }
    let neg = cs[0] == '-';
    let digits = if cs[0] == '-' || cs[0] == '+' {
        vstd::slice::slice_subrange(cs, 1, cs.len())
    } else {
        vstd::slice::slice_subrange(cs, 0, cs.len())
    };
    proof {
        if cs@[0] == '-' || cs@[0] == '+' {
            assert(digits@ =~= cs@.drop_first());
        } else {
            assert(digits@ =~= cs@);
        }
    }
    match parse_dec_u128(digits) {
        None => None,
        Some(mag) => {
            if neg {
                if mag > (i128::MAX as u128) + 1 {
                    None
                } else if mag == (i128::MAX as u128) + 1 {
                    Some(i128::MIN)
                } else {
                    Some(-(mag as i128))
                }
            } else {
                if mag > i128::MAX as u128 {
                    None
                } else {
                    Some(mag as i128)
                }
            }
        },
    }
}

/// The canonical decimal rendering of `n`.
pub fn u128_to_dec(n: u128) -> (r: Vec<char>)
    ensures
        r@ == dec_of(n as nat),
{
    let mut rev: Vec<char> = Vec::new();
    let mut m = n;
    if m == 0 {
        let mut r: Vec<char> = Vec::new();
        r.push('0');
        proof {
            assert(r@ =~= dec_of(0));
        }
        return r;
    }
    while m >= 10
        invariant
            dec_of(n as nat) =~= dec_of(m as nat) + rev@.reverse(),
        decreases m,
    {
        let d = (m % 10) as u8;
        let c = digit_to_char(d);
        proof {
            let pre = rev@;
            assert(dec_of(m as nat) == dec_of((m as nat) / 10).push(digit_char((m as nat) % 10)));
            assert((m / 10) as nat == (m as nat) / 10);
            assert(pre.push(c).reverse() =~= seq![c] + pre.reverse());
            assert(dec_of((m as nat) / 10).push(c) + pre.reverse() =~= dec_of((m as nat) / 10) + (
            seq![c] + pre.reverse()));
        }
        rev.push(c);
        m = m / 10;
    }
    let d = (m % 10) as u8;
    let last = digit_to_char(d);
    proof {
        assert(m < 10);
        assert((m as nat) % 10 == m as nat);
        assert(dec_of(m as nat) =~= seq![last]);
    }
    let mut r: Vec<char> = Vec::new();
    r.push(last);
    let mut i: usize = rev.len();
    while i > 0
        invariant
            i <= rev@.len(),
            r@ =~= seq![last] + rev@.subrange(i as int, rev@.len() as int).reverse(),
        decreases i,
    {
        proof {
            let tail = rev@.subrange(i - 1, rev@.len() as int);
            assert(tail.reverse() =~= rev@.subrange(i as int, rev@.len() as int).reverse().push(
                rev@[i - 1],
            ));
        }
        i -= 1;
        r.push(rev[i]);
        proof {
            assert(r@ =~= seq![last] + rev@.subrange(i as int, rev@.len() as int).reverse());
        }
    }
    proof {
        assert(rev@.subrange(0, rev@.len() as int) =~= rev@);
        assert(r@ =~= seq![last] + rev@.reverse());
        assert(dec_of(n as nat) =~= seq![last] + rev@.reverse());
    }
    r
}

/// The canonical decimal rendering of a signed value.
pub fn i128_to_dec(n: i128) -> (r: Vec<char>)
    ensures
        r@ == dec_of_int(n as int),
{
    if n >= 0 {
        u128_to_dec(n as u128)
    } else {
        let mag: u128 = ((-(n + 1)) as u128) + 1;
        assert(mag as nat == (-(n as int)) as nat);
        let digits = u128_to_dec(mag);
        let mut r: Vec<char> = Vec::new();
        r.push('-');
        let mut i: usize = 0;
        while i < digits.len()
            invariant
                i <= digits@.len(),
                r@ =~= seq!['-'] + digits@.subrange(0, i as int),
            decreases digits@.len() - i,
        {
            r.push(digits[i]);
            proof {
                assert(r@ =~= seq!['-'] + digits@.subrange(0, i + 1));
            }
            i += 1;
        }
        proof {
            assert(digits@.subrange(0, digits@.len() as int) =~= digits@);
        }
        r
    }
}

/// The digit character of a value below ten.
pub fn digit_to_char(d: u8) -> (c: char)
    requires
        d < 10,
    ensures
        c == digit_char(d as nat),
{
    if d == 0 {
        '0'
    } else if d == 1 {
        '1'
    } else if d == 2 {
        '2'
    } else if d == 3 {
        '3'
    } else if d == 4 {
        '4'
    } else if d == 5 {
        '5'
    } else if d == 6 {
        '6'
    } else if d == 7 {
        '7'
    } else if d == 8 {
        '8'
    } else {
        '9'
    }
}

/// Reading back the canonical rendering of a signed value gives the value:
/// printing and parsing are mutually inverse.
pub proof fn lemma_signed_dec_roundtrip(n: int)
    requires
        i128::MIN <= n <= i128::MAX,
    ensures
        is_signed_dec(dec_of_int(n)),
        signed_dec_value(dec_of_int(n)) == n,
{
    if n >= 0 {
        lemma_dec_roundtrip(n as nat);
        lemma_dec_of_shape(n as nat);
        let s = dec_of_int(n);
        assert(s[0] != '-' && s[0] != '+');
    } else {
        lemma_dec_roundtrip((-n) as nat);
        lemma_dec_of_shape((-n) as nat);
        let s = dec_of_int(n);
        assert(s.drop_first() =~= dec_of((-n) as nat));
    }
}

/// A digit string's value only grows as more digits follow: the value of the
/// first `k` digits is at most the value of the whole.
pub proof fn lemma_dec_value_prefix_le(s: Seq<char>, k: int)
    requires
        0 <= k <= s.len(),
    ensures
        dec_value(s.subrange(0, k)) <= dec_value(s),
    decreases s.len() - k,
{
    if k == s.len() {
        assert(s.subrange(0, k) =~= s);
    } else {
        lemma_dec_value_prefix_le(s, k + 1);
        let p = s.subrange(0, k);
        let q = s.subrange(0, k + 1);
        assert(q.drop_last() =~= p);
        assert(dec_value(q) == dec_value(p) * 10 + digit_val(q.last()));
        assert(dec_value(p) * 10 >= dec_value(p)) by (nonlinear_arith);
    }
}

} // verus!
