//! Decimal and hexadecimal numerals on byte strings: exact parsing and
//! formatting specifications with verified implementations.
use vstd::prelude::*;

verus! {

pub open spec fn is_digit(c: u8) -> bool {
    48 <= c <= 57
}

pub open spec fn digit_val(c: u8) -> nat {
    if is_digit(c) {
        (c - 48) as nat
    } else {
        0
    }
}

pub open spec fn is_hex_digit(c: u8) -> bool {
    is_digit(c) || (97 <= c <= 102) || (65 <= c <= 70)
}

pub open spec fn hex_val(c: u8) -> nat {
    if is_digit(c) {
        (c - 48) as nat
    } else if 97 <= c <= 102 {
        (c - 87) as nat
    } else if 65 <= c <= 70 {
        (c - 55) as nat
    } else {
        0
    }
}

pub open spec fn all_digits(s: Seq<u8>) -> bool {
    forall|i: int| 0 <= i < s.len() ==> is_digit(#[trigger] s[i])
}

pub open spec fn all_hex_digits(s: Seq<u8>) -> bool {
    forall|i: int| 0 <= i < s.len() ==> is_hex_digit(#[trigger] s[i])
}

/// The numeric value of a byte string read as a base-10 numeral.
pub open spec fn dec_value(s: Seq<u8>) -> nat
    decreases s.len(),
{
    if s.len() == 0 {
        0
    } else {
        dec_value(s.drop_last()) * 10 + digit_val(s.last())
    }
}

/// The numeric value of a byte string read as a base-16 numeral.
pub open spec fn hex_value(s: Seq<u8>) -> nat
    decreases s.len(),
{
    if s.len() == 0 {
        0
    } else {
        hex_value(s.drop_last()) * 16 + hex_val(s.last())
    }
}

/// A byte string accepted by the base-10 parser for `u32`.
pub open spec fn dec_parseable(s: Seq<u8>) -> bool {
    s.len() > 0 && all_digits(s) && dec_value(s) <= u32::MAX
}

/// A byte string accepted by the base-16 parser for `u32`.
pub open spec fn hex_parseable(s: Seq<u8>) -> bool {
    s.len() > 0 && all_hex_digits(s) && hex_value(s) <= u32::MAX
}

proof fn lemma_dec_value_prefix(s: Seq<u8>, j: int)
    requires
        0 <= j <= s.len(),
    ensures
        dec_value(s.take(j)) <= dec_value(s),
    decreases s.len() - j,
{
    if j < s.len() {
        lemma_dec_value_prefix(s, j + 1);
        assert(s.take(j + 1).drop_last() =~= s.take(j));
        assert(s.take(j + 1).last() == s[j]);
    } else {
        assert(s.take(j) =~= s);
    }
}

proof fn lemma_hex_value_prefix(s: Seq<u8>, j: int)
    requires
        0 <= j <= s.len(),
    ensures
        hex_value(s.take(j)) <= hex_value(s),
    decreases s.len() - j,
{
    if j < s.len() {
        lemma_hex_value_prefix(s, j + 1);
        assert(s.take(j + 1).drop_last() =~= s.take(j));
        assert(s.take(j + 1).last() == s[j]);
    } else {
        assert(s.take(j) =~= s);
    }
}

/// Parses a base-10 numeral into a `u32`; fails on an empty string, a
/// non-digit byte, or a value above `u32::MAX`.
pub fn parse_u32_dec(s: &Vec<u8>) -> (r: Option<u32>)
    ensures
        match r {
            Some(n) => dec_parseable(s@) && n as nat == dec_value(s@),
            None => !dec_parseable(s@),
        },
{
    if s.len() == 0 {
        return None;
    }
    let mut acc: u32 = 0;
    let mut i: usize = 0;
    while i < s.len()
        invariant
            0 <= i <= s@.len(),
            all_digits(s@.take(i as int)),
            acc as nat == dec_value(s@.take(i as int)),
        decreases s@.len() - i,
    {
        let c = s[i];
        if !(48 <= c && c <= 57) {
            assert(!is_digit(s@[i as int]));
            return None;
        }
        let d = (c - 48) as u32;
        proof {
            assert(s@.take(i + 1).drop_last() =~= s@.take(i as int));
            assert(s@.take(i + 1).last() == s@[i as int]);
        }
        if acc as u64 * 10 + d as u64 > u32::MAX as u64 {
            proof {
                lemma_dec_value_prefix(s@, i + 1);
            }
            return None;
        }
        acc = acc * 10 + d;
        i = i + 1;
    }
    proof {
        assert(s@.take(i as int) =~= s@);
    }
    Some(acc)
}

/// Parses a base-16 numeral (either letter case) into a `u32`; fails on an
/// empty string, a non-hex byte, or a value above `u32::MAX`.
pub fn parse_u32_hex(s: &Vec<u8>) -> (r: Option<u32>)
    ensures
        match r {
            Some(n) => hex_parseable(s@) && n as nat == hex_value(s@),
            None => !hex_parseable(s@),
        },
{
    if s.len() == 0 {
        return None;
    }
    let mut acc: u32 = 0;
    let mut i: usize = 0;
    while i < s.len()
        invariant
            0 <= i <= s@.len(),
            all_hex_digits(s@.take(i as int)),
            acc as nat == hex_value(s@.take(i as int)),
        decreases s@.len() - i,
    {
        let c = s[i];
        let d: u32;
        if 48 <= c && c <= 57 {
            d = (c - 48) as u32;
        } else if 97 <= c && c <= 102 {
            d = (c - 87) as u32;
        } else if 65 <= c && c <= 70 {
            d = (c - 55) as u32;
        } else {
            assert(!is_hex_digit(s@[i as int]));
            return None;
        }
        proof {
            assert(s@.take(i + 1).drop_last() =~= s@.take(i as int));
            assert(s@.take(i + 1).last() == s@[i as int]);
        }
        if acc as u64 * 16 + d as u64 > u32::MAX as u64 {
            proof {
                lemma_hex_value_prefix(s@, i + 1);
            }
            return None;
        }
        acc = acc * 16 + d;
        i = i + 1;
    }
    proof {
        assert(s@.take(i as int) =~= s@);
    }
    Some(acc)
}

/// The canonical base-10 numeral of a number: no sign and no leading zeros.
pub open spec fn dec_digits(n: nat) -> Seq<u8>
    decreases n,
{
    if n < 10 {
        seq![(48 + n) as u8]
    } else {
        dec_digits(n / 10).push((48 + n % 10) as u8)
    }
}

/// The canonical lower-case base-16 numeral of a number.
pub open spec fn hex_digit(d: nat) -> u8
    recommends
        d < 16,
{
    if d < 10 {
        (48 + d) as u8
    } else {
        (87 + d) as u8
    }
}

pub open spec fn hex_digits(n: nat) -> Seq<u8>
    decreases n,
{
    if n < 16 {
        seq![hex_digit(n)]
    } else {
        hex_digits(n / 16).push(hex_digit(n % 16))
    }
}

/// Formats a number as its canonical base-10 numeral.
pub fn fmt_u32_dec(n: u32) -> (r: Vec<u8>)
    ensures
        r@ == dec_digits(n as nat),
    decreases n,
{
    if n < 10 {
        let v: Vec<u8> = vec![48 + (n as u8)];
        proof {
            assert(v@ =~= dec_digits(n as nat));
        }
        v
    } else {
        let mut v = fmt_u32_dec(n / 10);
        v.push(48 + (n % 10) as u8);
        v
    }
}

/// Formats a number as its canonical lower-case base-16 numeral.
pub fn fmt_u32_hex(n: u32) -> (r: Vec<u8>)
    ensures
        r@ == hex_digits(n as nat),
    decreases n,
{
    if n < 16 {
        let d: u8 = if n < 10 {
            48 + (n as u8)
        } else {
            87 + (n as u8)
        };
        let v: Vec<u8> = vec![d];
        proof {
            assert(v@ =~= hex_digits(n as nat));
        }
        v
    } else {
        let m = (n % 16) as u8;
        let d: u8 = if m < 10 {
            48 + m
        } else {
            87 + m
        };
        let mut v = fmt_u32_hex(n / 16);
        v.push(d);
        v
    }
}

pub open spec fn zeros(k: nat) -> Seq<u8> {
    Seq::new(k, |i: int| 48u8)
}

/// The numeral left-padded with zeros to the given width; numerals already
/// at least that wide are unchanged.
pub open spec fn zero_pad(s: Seq<u8>, w: nat) -> Seq<u8> {
    if s.len() >= w {
        s
    } else {
        zeros((w - s.len()) as nat) + s
    }
}

/// Formats a number in base 10, left-padded with zeros to the given width.
pub fn fmt_u32_pad(n: u32, width: usize) -> (r: Vec<u8>)
    ensures
        r@ == zero_pad(dec_digits(n as nat), width as nat),
{
    let d = fmt_u32_dec(n);
    if d.len() >= width {
        return d;
    }
    let pad: usize = width - d.len();
    let mut r: Vec<u8> = Vec::new();
    let mut k: usize = 0;
    while k < pad
        invariant
            0 <= k <= pad,
            r@ =~= zeros(k as nat),
        decreases pad - k,
    {
        r.push(48);
        k = k + 1;
        proof {
            assert(r@ =~= zeros(k as nat));
        }
    }
    let mut i: usize = 0;
    while i < d.len()
        invariant
            0 <= i <= d@.len(),
            r@ =~= zeros(pad as nat) + d@.take(i as int),
        decreases d@.len() - i,
    {
        r.push(d[i]);
        i = i + 1;
        proof {
            assert(r@ =~= zeros(pad as nat) + d@.take(i as int));
        }
    }
    proof {
        assert(d@.take(d@.len() as int) =~= d@);
        assert(r@ =~= zero_pad(dec_digits(n as nat), width as nat));
    }
    r
}

/// The canonical base-10 numeral evaluates back to its number, consists of
/// digits only, and is never empty.
pub proof fn lemma_dec_digits_value(n: nat)
    ensures
        dec_value(dec_digits(n)) == n,
        all_digits(dec_digits(n)),
        dec_digits(n).len() >= 1,
    decreases n,
{
    assert(dec_digits(n).len() >= 1);
    assert(dec_value(dec_digits(n)) == dec_value(dec_digits(n).drop_last()) * 10 + digit_val(
        dec_digits(n).last(),
    ));
    if n < 10 {
        assert(dec_digits(n).drop_last() =~= Seq::<u8>::empty());
        assert(dec_value(Seq::<u8>::empty()) == 0);
        assert(dec_digits(n).last() == (48 + n) as u8);
        assert(digit_val((48 + n) as u8) == n);
    } else {
        lemma_dec_digits_value(n / 10);
        assert(dec_digits(n).drop_last() =~= dec_digits(n / 10));
        assert(dec_digits(n).last() == (48 + n % 10) as u8);
        assert(digit_val((48 + n % 10) as u8) == n % 10);
        assert((n / 10) * 10 + n % 10 == n);
    }
}

/// The canonical base-16 numeral evaluates back to its number, consists of
/// hex digits only, and is never empty.
pub proof fn lemma_hex_digits_value(n: nat)
    ensures
        hex_value(hex_digits(n)) == n,
        all_hex_digits(hex_digits(n)),
        hex_digits(n).len() >= 1,
    decreases n,
{
    assert(hex_digits(n).len() >= 1);
    assert(hex_value(hex_digits(n)) == hex_value(hex_digits(n).drop_last()) * 16 + hex_val(
        hex_digits(n).last(),
    ));
    if n < 16 {
        assert(hex_digits(n).drop_last() =~= Seq::<u8>::empty());
        assert(hex_value(Seq::<u8>::empty()) == 0);
        assert(hex_digits(n).last() == hex_digit(n));
        assert(hex_val(hex_digit(n)) == n);
    } else {
        lemma_hex_digits_value(n / 16);
        assert(hex_digits(n).drop_last() =~= hex_digits(n / 16));
        assert(hex_digits(n).last() == hex_digit(n % 16));
        assert(hex_val(hex_digit(n % 16)) == n % 16);
        assert((n / 16) * 16 + n % 16 == n);
    }
}

/// A zero-only numeral has value zero.
proof fn lemma_dec_value_zeros(k: nat)
    ensures
        dec_value(zeros(k)) == 0,
    decreases k,
{
    if k > 0 {
        lemma_dec_value_zeros((k - 1) as nat);
        assert(zeros(k).drop_last() =~= zeros((k - 1) as nat));
        assert(zeros(k).last() == 48);
    }
}

/// Leading zeros do not change the value of a base-10 numeral.
pub proof fn lemma_dec_value_prepend_zeros(k: nat, s: Seq<u8>)
    ensures
        dec_value(zeros(k) + s) == dec_value(s),
    decreases s.len(),
{
    if s.len() == 0 {
        assert(zeros(k) + s =~= zeros(k));
        lemma_dec_value_zeros(k);
    } else {
        lemma_dec_value_prepend_zeros(k, s.drop_last());
        assert((zeros(k) + s).drop_last() =~= zeros(k) + s.drop_last());
        assert((zeros(k) + s).last() == s.last());
    }
}

/// Padding preserves the value and digit-only content of a numeral.
pub proof fn lemma_zero_pad_value(s: Seq<u8>, w: nat)
    ensures
        dec_value(zero_pad(s, w)) == dec_value(s),
        all_digits(s) ==> all_digits(zero_pad(s, w)),
        zero_pad(s, w).len() >= s.len(),
{
    if s.len() < w {
        lemma_dec_value_prepend_zeros((w - s.len()) as nat, s);
    }
}

} // verus!
