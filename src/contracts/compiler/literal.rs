//! Numeric literals: their digits read as numbers, and the bytes they lower to.

use super::lexer;
use crate::word;
use crate::word::Word;
use primitive_types::U256;
use vstd::prelude::*;

verus! {

/// The value of a digit character (0-9, then a-f or A-F for 10-15).
pub open spec fn digit_value(c: char) -> nat {
    if '0' <= c <= '9' {
        (c as nat - '0' as nat) as nat
    } else if 'a' <= c <= 'f' {
        (c as nat - 'a' as nat + 10) as nat
    } else {
        (c as nat - 'A' as nat + 10) as nat
    }
}

/// The number the digits spell in the radix, most significant first.
pub open spec fn digits_value(s: Seq<char>, radix: nat) -> nat
    decreases s.len(),
{
    if s.len() == 0 {
        0
    } else {
        digits_value(s.drop_last(), radix) * radix + digit_value(s.last())
    }
}

pub open spec fn all_digits(s: Seq<char>, radix: nat) -> bool {
    forall|i: int| 0 <= i < s.len() ==> lexer::is_digit_in(#[trigger] s[i], radix)
}

/// What std's `from_str_radix` of an unsigned type reads before its range
/// check: an optional `+` followed by at least one digit.
pub open spec fn unsigned_text_value(s: Seq<char>, radix: nat) -> Option<nat> {
    let t = if s.len() > 0 && s[0] == '+' {
        s.skip(1)
    } else {
        s
    };
    if t.len() > 0 && all_digits(t, radix) {
        Some(digits_value(t, radix))
    } else {
        None
    }
}

/// What `U256::from_str_radix` reads: in base 10 any run of digits (none
/// reads as 0) below 2^256; in base 16, after an optional `0x`, at most 64 digits.
pub open spec fn u256_text_value(s: Seq<char>, radix: nat) -> Option<nat> {
    if radix == 10 {
        if all_digits(s, 10) && digits_value(s, 10) < word::word_modulus() {
            Some(digits_value(s, 10))
        } else {
            None
        }
    } else {
        let t = if s.len() >= 2 && s[0] == '0' && s[1] == 'x' {
            s.skip(2)
        } else {
            s
        };
        if t.len() <= 64 && all_digits(t, 16) {
            Some(digits_value(t, 16))
        } else {
            None
        }
    }
}

/// Relies on `U256::from_str_radix` (through `from_dec_str` and the hex
/// `FromStr`), which reads the text as `u256_text_value` describes.
#[verifier::external_body]
pub(crate) fn parse_u256(s: &str, radix: u32) -> (r: Option<Word>)
    requires
        radix == 10 || radix == 16,
    ensures
        match u256_text_value(s@, radix as nat) {
            Some(v) => r == Some(word::word_of(v)) && v == word::word_of(v).val(),
            None => r is None,
        },
{
    match U256::from_str_radix(s, radix) {
        Ok(u) => Some(Word { l0: u.0[0], l1: u.0[1], l2: u.0[2], l3: u.0[3] }),
        Err(_) => None,
    }
}

/// A prefix of a run of digits is worth no more than the run.
proof fn lemma_prefix_value(s: Seq<char>, radix: nat, k: nat)
    requires
        k <= s.len(),
        radix >= 1,
    ensures
        digits_value(s.take(k as int), radix) <= digits_value(s, radix),
    decreases s.len() - k,
{
    if k < s.len() {
        lemma_prefix_value(s, radix, k + 1);
        let p = s.take(k as int + 1);
        assert(p.drop_last() == s.take(k as int));
        let x = digits_value(s.take(k as int), radix);
        assert(x * radix >= x) by (nonlinear_arith)
            requires
                radix >= 1,
        ;
    } else {
        assert(s.take(k as int) == s);
    }
}

fn digit_of(c: char) -> (r: u128)
    requires
        lexer::is_digit_in(c, 16),
    ensures
        r == digit_value(c),
        r < 16,
{
    if '0' <= c && c <= '9' {
        (c as u32 - '0' as u32) as u128
    } else if 'a' <= c && c <= 'f' {
        (c as u32 - 'a' as u32 + 10) as u128
    } else {
        (c as u32 - 'A' as u32 + 10) as u128
    }
}

/// Reads an unsigned literal as std's `from_str_radix` does for a type whose
/// values are those below `limit`.
pub fn parse_unsigned(s: &str, radix: u32, limit: u128) -> (r: Option<u128>)
    requires
        radix == 10 || radix == 16,
        1 <= limit <= 0x1_0000_0000_0000_0000,
    ensures
        match unsigned_text_value(s@, radix as nat) {
            Some(v) => if v < limit {
                r == Some(v as u128)
            } else {
                r is None
            },
            None => r is None,
        },
{
    let n = s.unicode_len();
    let start: usize = if n > 0 && s.get_char(0) == '+' {
        1
    } else {
        0
    };
    let ghost t = s@.skip(start as int);
    assert(start == 0 ==> t =~= s@);
    if start >= n {
        return None;
    }
    let mut acc: u128 = 0;
    let mut i: usize = start;
    while i < n
        invariant
            n == s@.len(),
            start <= i <= n,
            start < n,
            t == s@.skip(start as int),
            t == (if s@.len() > 0 && s@[0] == '+' { s@.skip(1) } else { s@ }),
            radix == 10 || radix == 16,
            1 <= limit <= 0x1_0000_0000_0000_0000,
            all_digits(t.take(i - start), radix as nat),
            acc == digits_value(t.take(i - start), radix as nat),
            acc < limit,
        decreases n - i,
    {
        let c = s.get_char(i);
        assert(t[i - start] == c);
        if !lexer::is_digit_char(c, radix) {
            assert(!all_digits(t, radix as nat));
            return None;
        }
        let d = digit_of(c);
        let ghost k = (i - start) as int;
        assert(t.take(k + 1).drop_last() == t.take(k));
        assert(t.take(k + 1).last() == c);
        assert(acc * (radix as u128) + d <= 0x1_0000_0000_0000_0000 * 16 + 16) by (nonlinear_arith)
            requires
                acc < 0x1_0000_0000_0000_0000,
                radix <= 16,
                d < 16,
        ;
        let next = acc * (radix as u128) + d;
        if next >= limit {
            proof {
                if all_digits(t, radix as nat) {
                    lemma_prefix_value(t, radix as nat, (k + 1) as nat);
                }
            }
            return None;
        }
        acc = next;
        assert forall|m: int| 0 <= m < k + 1 implies lexer::is_digit_in(
            #[trigger] t.take(k + 1)[m],
            radix as nat,
        ) by {
            if m < k {
                assert(t.take(k + 1)[m] == t.take(k)[m]);
            }
        };
        i = i + 1;
    }
    assert(t.take(n - start) == t);
    Some(acc)
}

/// The `n` low bytes of `v`, least significant first.
pub fn le_bytes_of(v: u128, n: usize) -> (r: Vec<u8>)
    ensures
        r@ == word::le_bytes(v as nat, n as nat),
{
    let mut out: Vec<u8> = Vec::new();
    let mut x = v;
    let mut i: usize = 0;
    while i < n
        invariant
            i <= n,
            out@ + word::le_bytes(x as nat, (n - i) as nat) == word::le_bytes(v as nat, n as nat),
        decreases n - i,
    {
        let b = (x % 256) as u8;
        let ghost rest = word::le_bytes((x / 256) as nat, (n - i - 1) as nat);
        assert(word::le_bytes(x as nat, (n - i) as nat) == seq![b] + rest);
        assert(out@.push(b) + rest =~= out@ + (seq![b] + rest));
        out.push(b);
        x = x / 256;
        i = i + 1;
    }
    assert(word::le_bytes(x as nat, 0) =~= Seq::<u8>::empty());
    assert(out@ + Seq::<u8>::empty() =~= out@);
    out
}

} // verus!
