//! Digits in bytes, and the numbers they write.

use vstd::prelude::*;

verus! {

/// The value of a hexadecimal digit.
pub open spec fn hex_value(b: u8) -> Option<u8> {
    if '0' as u8 <= b <= '9' as u8 {
        Some((b - '0' as u8) as u8)
    } else if 'a' as u8 <= b <= 'f' as u8 {
        Some((b - 'a' as u8 + 10) as u8)
    } else if 'A' as u8 <= b <= 'F' as u8 {
        Some((b - 'A' as u8 + 10) as u8)
    } else {
        None
    }
}

pub fn hex_nibble(b: u8) -> (r: Option<u8>)
    ensures
        r == hex_value(b),
        r matches Some(v) ==> v < 16,
{
    if '0' as u8 <= b && b <= '9' as u8 {
        Some(b - '0' as u8)
    } else if 'a' as u8 <= b && b <= 'f' as u8 {
        Some(b - 'a' as u8 + 10)
    } else if 'A' as u8 <= b && b <= 'F' as u8 {
        Some(b - 'A' as u8 + 10)
    } else {
        None
    }
}

/// The value of a digit in base eight, ten or sixteen.
pub open spec fn digit_value(b: u8, base: u8) -> Option<u8> {
    match hex_value(b) {
        Some(v) => if v < base {
            Some(v)
        } else {
            None
        },
        None => None,
    }
}

pub fn digit_of(b: u8, base: u8) -> (r: Option<u8>)
    ensures
        r == digit_value(b, base),
        r matches Some(v) ==> v < base && v < 16,
{
    match hex_nibble(b) {
        Some(v) => if v < base {
            Some(v)
        } else {
            None
        },
        None => None,
    }
}

/// How many digits in a given base stand at the front of `s`, counting at most
/// `most` of them.
pub open spec fn digit_run(s: Seq<u8>, base: u8, most: nat) -> nat
    decreases most,
{
    if most == 0 || s.len() == 0 || digit_value(s[0], base) is None {
        0
    } else {
        1 + digit_run(s.drop_first(), base, (most - 1) as nat)
    }
}

/// The number that a run of digits writes in a given base.
pub open spec fn digits_number(s: Seq<u8>, base: u8) -> nat
    decreases s.len(),
{
    if s.len() == 0 {
        0
    } else {
        let d = match digit_value(s.last(), base) {
            Some(v) => v as nat,
            None => 0,
        };
        digits_number(s.drop_last(), base) * (base as nat) + d
    }
}

pub proof fn lemma_digit_run(s: Seq<u8>, base: u8, most: nat)
    ensures
        digit_run(s, base, most) <= most,
        digit_run(s, base, most) <= s.len(),
        forall|j: int| 0 <= j < digit_run(s, base, most) ==> digit_value(#[trigger] s[j], base) is Some,
    decreases most,
{
    if most != 0 && s.len() != 0 && digit_value(s[0], base) is Some {
        lemma_digit_run(s.drop_first(), base, (most - 1) as nat);
        assert forall|j: int| 0 <= j < digit_run(s, base, most) implies digit_value(
            #[trigger] s[j],
            base,
        ) is Some by {
            if j > 0 {
                assert(s[j] == s.drop_first()[j - 1]);
            }
        }
    }
}

pub fn count_digits(s: &[u8], base: u8, most: usize) -> (r: usize)
    ensures
        r == digit_run(s@, base, most as nat),
        r <= s@.len(),
        r <= most,
{
    let mut n: usize = 0;
    assert(s@.skip(0) =~= s@);
    while n < most && n < s.len() && digit_of(s[n], base).is_some()
        invariant
            n <= s@.len(),
            n <= most,
            digit_run(s@, base, most as nat) == n + digit_run(
                s@.skip(n as int),
                base,
                (most - n) as nat,
            ),
        decreases s@.len() - n,
    {
        assert(s@.skip(n as int).drop_first() =~= s@.skip(n + 1));
        n += 1;
    }
    n
}

/// A number, or the largest that 32 bits hold.
pub open spec fn capped(n: nat) -> u32 {
    if n > u32::MAX {
        u32::MAX
    } else {
        n as u32
    }
}

/// Read digits, holding at the largest 32-bit number.
pub fn read_digits(s: &[u8], base: u8) -> (r: u32)
    requires
        2 <= base <= 16,
    ensures
        r == capped(digits_number(s@, base)),
{
    let mut value: u32 = 0;
    let mut i: usize = 0;
    while i < s.len()
        invariant
            i <= s@.len(),
            2 <= base <= 16,
            value == capped(digits_number(s@.take(i as int), base)),
        decreases s@.len() - i,
    {
        let d: u64 = match digit_of(s[i], base) {
            Some(v) => v as u64,
            None => 0,
        };
        let ghost shorter = digits_number(s@.take(i as int), base);
        assert(s@.take(i + 1).drop_last() =~= s@.take(i as int));
        assert(digits_number(s@.take(i + 1), base) == shorter * (base as nat) + d);
        assert((value as u64) * (base as u64) <= 0xffff_ffff * 16) by (nonlinear_arith)
            requires
                value <= 0xffff_ffff,
                base <= 16,
        ;
        proof {
            if shorter > u32::MAX {
                assert(shorter * (base as nat) > u32::MAX) by (nonlinear_arith)
                    requires
                        shorter > u32::MAX,
                        base >= 2,
                ;
                assert((value as u64) * (base as u64) >= u32::MAX) by (nonlinear_arith)
                    requires
                        value == u32::MAX,
                        base >= 2,
                ;
                assert((value as nat) * (base as nat) > u32::MAX) by (nonlinear_arith)
                    requires
                        value == u32::MAX,
                        base >= 2,
                ;
            }
        }
        let wide: u64 = (value as u64) * (base as u64) + d;
        value = if wide > 0xffff_ffff {
            0xffff_ffff
        } else {
            wide as u32
        };
        i += 1;
    }
    assert(s@.take(i as int) =~= s@);
    value
}

/// Full-width ASCII (U+FF01 through U+FF5E) folds to its ASCII equivalent by
/// subtracting 0xFEE0. Any other code point folds to its low byte.
///
/// ModSecurity additionally consults a best-fit table covering typographic
/// quotes and similar folds. That table is not implemented here: unmapped code
/// points fall back to the low byte, which is ModSecurity's own fallback. This
/// is a known divergence, to be closed or dismissed by the Core Rule Set's
/// regression suite rather than assumed either way.
pub open spec fn folded(code: u32) -> u8 {
    if 0xff01 <= code <= 0xff5e {
        (code - 0xfee0) as u8
    } else {
        (code % 256) as u8
    }
}

pub fn fold_unicode_code_point(code: u32) -> (r: u8)
    ensures
        r == folded(code),
{
    if 0xff01 <= code && code <= 0xff5e {
        return (code - 0xfee0) as u8;
    }
    (code % 256) as u8
}

/// The lowercase hexadecimal digit of a number below sixteen.
pub open spec fn hex_digit(n: nat) -> u8 {
    if n < 10 {
        ('0' as u8 + n) as u8
    } else {
        ('a' as u8 + n - 10) as u8
    }
}

pub fn hex_digit_of(n: u8) -> (r: u8)
    requires
        n < 16,
    ensures
        r == hex_digit(n as nat),
{
    if n < 10 {
        '0' as u8 + n
    } else {
        'a' as u8 + (n - 10)
    }
}

} // verus!
