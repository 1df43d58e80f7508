//! A byte-level JSON codec for the shapes the tile codecs read: objects
//! whose member values are carried as raw, structurally checked spans, and
//! strings decoded with their escapes. Nested values the logic never
//! inspects stay raw text, so a parsed object re-serializes without loss.
use vstd::prelude::*;
use crate::num::{hex_digit, is_digit, is_hex_digit, hex_val};

verus! {

pub open spec fn is_ws(c: u8) -> bool {
    c == 32 || c == 9 || c == 10 || c == 13
}

/// The first index at or after `i` holding a non-whitespace byte, or the
/// end of the input.
pub open spec fn sp_ws(s: Seq<u8>, i: int) -> int
    decreases s.len() - i,
{
    if 0 <= i && i < s.len() && is_ws(s[i]) {
        sp_ws(s, i + 1)
    } else {
        i
    }
}

pub proof fn lemma_ws_progress(s: Seq<u8>, i: int)
    requires
        0 <= i <= s.len(),
    ensures
        i <= sp_ws(s, i) <= s.len(),
    decreases s.len() - i,
{
    if i < s.len() && is_ws(s[i]) {
        lemma_ws_progress(s, i + 1);
    }
}

pub open spec fn hex4_ok(s: Seq<u8>, i: int) -> bool {
    &&& is_hex_digit(s[i])
    &&& is_hex_digit(s[i + 1])
    &&& is_hex_digit(s[i + 2])
    &&& is_hex_digit(s[i + 3])
}

pub open spec fn hex4_val(s: Seq<u8>, i: int) -> nat {
    ((hex_val(s[i]) * 16 + hex_val(s[i + 1])) * 16 + hex_val(s[i + 2])) * 16 + hex_val(s[i + 3])
}

/// The UTF-8 encoding of a scalar value.
pub open spec fn utf8_enc(cp: nat) -> Seq<u8> {
    if cp < 0x80 {
        seq![cp as u8]
    } else if cp < 0x800 {
        seq![(192 + cp / 64) as u8, (128 + cp % 64) as u8]
    } else if cp < 0x10000 {
        seq![(224 + cp / 4096) as u8, (128 + (cp / 64) % 64) as u8, (128 + cp % 64) as u8]
    } else {
        seq![
            (240 + cp / 262144) as u8,
            (128 + (cp / 4096) % 64) as u8,
            (128 + (cp / 64) % 64) as u8,
            (128 + cp % 64) as u8,
        ]
    }
}

/// The byte a single-character escape denotes, if the character is one.
pub open spec fn esc_char_val(e: u8) -> Option<u8> {
    if e == 34 {
        Some(34u8)
    } else if e == 92 {
        Some(92u8)
    } else if e == 47 {
        Some(47u8)
    } else if e == 98 {
        Some(8u8)
    } else if e == 102 {
        Some(12u8)
    } else if e == 110 {
        Some(10u8)
    } else if e == 114 {
        Some(13u8)
    } else if e == 116 {
        Some(9u8)
    } else {
        None
    }
}

/// Scans a string body from `i` (just past the opening quote), decoding
/// escapes into `acc`; yields the decoded bytes and the index past the
/// closing quote.
pub open spec fn sp_str_body(s: Seq<u8>, i: int, acc: Seq<u8>) -> Option<(Seq<u8>, int)>
    decreases s.len() - i,
{
    if i < 0 || i >= s.len() {
        None
    } else if s[i] == 34 {
        Some((acc, i + 1))
    } else if s[i] == 92 {
        if i + 1 >= s.len() {
            None
        } else {
            let e = s[i + 1];
            if esc_char_val(e) is Some {
                sp_str_body(s, i + 2, acc.push(esc_char_val(e)->Some_0))
            } else if e == 117 {
                if i + 6 > s.len() || !hex4_ok(s, i + 2) {
                    None
                } else {
                    let cp = hex4_val(s, i + 2);
                    if 0xD800 <= cp < 0xDC00 {
                        if i + 12 > s.len() || s[i + 6] != 92 || s[i + 7] != 117 || !hex4_ok(
                            s,
                            i + 8,
                        ) {
                            None
                        } else {
                            let cp2 = hex4_val(s, i + 8);
                            if 0xDC00 <= cp2 < 0xE000 {
                                sp_str_body(
                                    s,
                                    i + 12,
                                    acc + utf8_enc(
                                        (0x10000 + (cp - 0xD800) * 0x400 + (cp2 - 0xDC00)) as nat,
                                    ),
                                )
                            } else {
                                None
                            }
                        }
                    } else if 0xDC00 <= cp < 0xE000 {
                        None
                    } else {
                        sp_str_body(s, i + 6, acc + utf8_enc(cp))
                    }
                }
            } else {
                None
            }
        }
    } else if s[i] < 32 {
        None
    } else {
        sp_str_body(s, i + 1, acc.push(s[i]))
    }
}

/// Scans a quoted string starting exactly at `i`.
pub open spec fn sp_string(s: Seq<u8>, i: int) -> Option<(Seq<u8>, int)> {
    if 0 <= i && i < s.len() && s[i] == 34 {
        sp_str_body(s, i + 1, Seq::<u8>::empty())
    } else {
        None
    }
}

pub proof fn lemma_str_body_progress(s: Seq<u8>, i: int, acc: Seq<u8>)
    requires
        sp_str_body(s, i, acc) is Some,
    ensures
        i < sp_str_body(s, i, acc)->Some_0.1 <= s.len(),
    decreases s.len() - i,
{
    if s[i] == 34 {
    } else if s[i] == 92 {
        let e = s[i + 1];
        if esc_char_val(e) is Some {
            lemma_str_body_progress(s, i + 2, acc.push(esc_char_val(e)->Some_0));
        } else {
            let cp = hex4_val(s, i + 2);
            if 0xD800 <= cp < 0xDC00 {
                let cp2 = hex4_val(s, i + 8);
                lemma_str_body_progress(
                    s,
                    i + 12,
                    acc + utf8_enc((0x10000 + (cp - 0xD800) * 0x400 + (cp2 - 0xDC00)) as nat),
                );
            } else {
                lemma_str_body_progress(s, i + 6, acc + utf8_enc(cp));
            }
        }
    } else {
        lemma_str_body_progress(s, i + 1, acc.push(s[i]));
    }
}

pub proof fn lemma_string_progress(s: Seq<u8>, i: int)
    requires
        sp_string(s, i) is Some,
    ensures
        i + 2 <= sp_string(s, i)->Some_0.1 <= s.len(),
{
    lemma_str_body_progress(s, i + 1, Seq::<u8>::empty());
}

/// The first index at or after `i` holding a non-digit byte.
pub open spec fn digits_end(s: Seq<u8>, i: int) -> int
    decreases s.len() - i,
{
    if 0 <= i && i < s.len() && is_digit(s[i]) {
        digits_end(s, i + 1)
    } else {
        i
    }
}

pub proof fn lemma_digits_end_bounds(s: Seq<u8>, i: int)
    requires
        0 <= i <= s.len(),
    ensures
        i <= digits_end(s, i) <= s.len(),
    decreases s.len() - i,
{
    if i < s.len() && is_digit(s[i]) {
        lemma_digits_end_bounds(s, i + 1);
    }
}

/// The grammar of a JSON number: an optional sign, an integer part with no
/// leading zero, an optional fraction, an optional exponent.
pub open spec fn is_valid_number(t: Seq<u8>) -> bool {
    let i0: int = if t.len() > 0 && t[0] == 45 {
        1
    } else {
        0
    };
    if t.len() <= i0 {
        false
    } else {
        let d_end: int = if t[i0] == 48 {
            i0 + 1
        } else if is_digit(t[i0]) {
            digits_end(t, i0)
        } else {
            i0
        };
        if d_end == i0 {
            false
        } else {
            let f_end: int = if d_end < t.len() && t[d_end] == 46 {
                let fe = digits_end(t, d_end + 1);
                if fe > d_end + 1 {
                    fe
                } else {
                    -1
                }
            } else {
                d_end
            };
            if f_end < 0 {
                false
            } else {
                let e_end: int = if f_end < t.len() && (t[f_end] == 101 || t[f_end] == 69) {
                    let sgn: int = if f_end + 1 < t.len() && (t[f_end + 1] == 43 || t[f_end + 1]
                        == 45) {
                        f_end + 2
                    } else {
                        f_end + 1
                    };
                    let ee = digits_end(t, sgn);
                    if ee > sgn {
                        ee
                    } else {
                        -1
                    }
                } else {
                    f_end
                };
                e_end == t.len()
            }
        }
    }
}

pub open spec fn true_lit() -> Seq<u8> {
    seq![116u8, 114u8, 117u8, 101u8]
}

pub open spec fn false_lit() -> Seq<u8> {
    seq![102u8, 97u8, 108u8, 115u8, 101u8]
}

pub open spec fn null_lit() -> Seq<u8> {
    seq![110u8, 117u8, 108u8, 108u8]
}

/// An unquoted token: one of the three literals or a number.
pub open spec fn is_valid_primitive(t: Seq<u8>) -> bool {
    t == true_lit() || t == false_lit() || t == null_lit() || is_valid_number(t)
}

/// A byte that ends an unquoted token.
pub open spec fn is_delim(c: u8) -> bool {
    is_ws(c) || c == 44 || c == 125 || c == 93
}

pub open spec fn prim_end(s: Seq<u8>, i: int) -> int
    decreases s.len() - i,
{
    if 0 <= i && i < s.len() && !is_delim(s[i]) {
        prim_end(s, i + 1)
    } else {
        i
    }
}

pub proof fn lemma_prim_end_bounds(s: Seq<u8>, i: int)
    requires
        0 <= i <= s.len(),
    ensures
        i <= prim_end(s, i) <= s.len(),
    decreases s.len() - i,
{
    if i < s.len() && !is_delim(s[i]) {
        lemma_prim_end_bounds(s, i + 1);
    }
}

/// Scans a nested value from inside brackets: `stack` holds the closing
/// brackets still owed, innermost last. Strings are skipped whole; other
/// bytes are not token-checked. Yields the index just past the closer that
/// empties the stack.
pub open spec fn sp_scan_nested(s: Seq<u8>, i: int, stack: Seq<u8>) -> Option<int>
    decreases s.len() - i,
{
    if stack.len() == 0 {
        Some(i)
    } else if i < 0 || i >= s.len() {
        None
    } else if s[i] == 34 {
        match sp_string(s, i) {
            Some((k, j)) => if i < j <= s.len() {
                sp_scan_nested(s, j, stack)
            } else {
                None
            },
            None => None,
        }
    } else if s[i] == 123 {
        sp_scan_nested(s, i + 1, stack.push(125))
    } else if s[i] == 91 {
        sp_scan_nested(s, i + 1, stack.push(93))
    } else if s[i] == 125 || s[i] == 93 {
        if stack.last() == s[i] {
            sp_scan_nested(s, i + 1, stack.drop_last())
        } else {
            None
        }
    } else {
        sp_scan_nested(s, i + 1, stack)
    }
}

pub proof fn lemma_scan_nested_progress(s: Seq<u8>, i: int, stack: Seq<u8>)
    requires
        sp_scan_nested(s, i, stack) is Some,
    ensures
        i <= sp_scan_nested(s, i, stack)->Some_0 <= if stack.len() == 0 {
            i
        } else {
            s.len() as int
        },
        stack.len() > 0 ==> i < sp_scan_nested(s, i, stack)->Some_0,
    decreases s.len() - i,
{
    if stack.len() == 0 {
    } else if s[i] == 34 {
        let j = sp_string(s, i)->Some_0.1;
        lemma_scan_nested_progress(s, j, stack);
    } else if s[i] == 123 {
        lemma_scan_nested_progress(s, i + 1, stack.push(125));
    } else if s[i] == 91 {
        lemma_scan_nested_progress(s, i + 1, stack.push(93));
    } else if s[i] == 125 || s[i] == 93 {
        lemma_scan_nested_progress(s, i + 1, stack.drop_last());
    } else {
        lemma_scan_nested_progress(s, i + 1, stack);
    }
}

/// Scans one JSON value starting exactly at `i`: a string, a bracketed
/// compound (structurally checked), or a primitive token (fully checked).
/// Yields the index just past the value.
pub open spec fn sp_scan_value(s: Seq<u8>, i: int) -> Option<int> {
    if i < 0 || i >= s.len() {
        None
    } else if s[i] == 34 {
        match sp_string(s, i) {
            Some((k, j)) => Some(j),
            None => None,
        }
    } else if s[i] == 123 {
        sp_scan_nested(s, i + 1, seq![125u8])
    } else if s[i] == 91 {
        sp_scan_nested(s, i + 1, seq![93u8])
    } else if is_delim(s[i]) || s[i] == 58 {
        None
    } else {
        let j = prim_end(s, i);
        if is_valid_primitive(s.subrange(i, j)) {
            Some(j)
        } else {
            None
        }
    }
}

pub proof fn lemma_scan_value_progress(s: Seq<u8>, i: int)
    requires
        sp_scan_value(s, i) is Some,
        0 <= i <= s.len(),
    ensures
        i < sp_scan_value(s, i)->Some_0 <= s.len(),
{
    if s[i] == 34 {
        lemma_string_progress(s, i);
    } else if s[i] == 123 {
        lemma_scan_nested_progress(s, i + 1, seq![125u8]);
    } else if s[i] == 91 {
        lemma_scan_nested_progress(s, i + 1, seq![93u8]);
    } else {
        assert(!is_delim(s[i]));
        assert(prim_end(s, i) == prim_end(s, i + 1));
        lemma_prim_end_bounds(s, i + 1);
    }
}

/// Scans object members from `i` (just past `{` or a `,`): a quoted key,
/// a colon, a raw value span, then either a comma and more members or the
/// closing brace. Yields the members gathered into `acc` and the index
/// just past the closing brace.
#[verifier::opaque]
pub open spec fn sp_members(s: Seq<u8>, i: int, acc: Seq<(Seq<u8>, Seq<u8>)>) -> Option<
    (Seq<(Seq<u8>, Seq<u8>)>, int),
>
    decreases s.len() - i,
{
    let i1 = sp_ws(s, i);
    match sp_string(s, i1) {
        None => None,
        Some((k, i2)) => {
            let i3 = sp_ws(s, i2);
            if !(0 <= i3 && i3 < s.len() && s[i3] == 58) {
                None
            } else {
                let i4 = sp_ws(s, i3 + 1);
                match sp_scan_value(s, i4) {
                    None => None,
                    Some(j) => {
                        if !(i <= i4 <= j <= s.len()) {
                            None
                        } else {
                            let raw = s.subrange(i4, j);
                            let acc2 = acc.push((k, raw));
                            let i5 = sp_ws(s, j);
                            if 0 <= i5 && i5 < s.len() && s[i5] == 44 {
                                if i5 + 1 > i {
                                    sp_members(s, i5 + 1, acc2)
                                } else {
                                    None
                                }
                            } else if 0 <= i5 && i5 < s.len() && s[i5] == 125 {
                                Some((acc2, i5 + 1))
                            } else {
                                None
                            }
                        }
                    },
                }
            }
        },
    }
}

/// Scans an object starting at `i` after whitespace: `{`, members or
/// nothing, `}`. Yields the members and the index just past the brace.
pub open spec fn sp_object(s: Seq<u8>, i: int) -> Option<(Seq<(Seq<u8>, Seq<u8>)>, int)> {
    let i1 = sp_ws(s, i);
    if 0 <= i1 && i1 < s.len() && s[i1] == 123 {
        let i2 = sp_ws(s, i1 + 1);
        if 0 <= i2 && i2 < s.len() && s[i2] == 125 {
            Some((Seq::<(Seq<u8>, Seq<u8>)>::empty(), i2 + 1))
        } else {
            sp_members(s, i1 + 1, Seq::<(Seq<u8>, Seq<u8>)>::empty())
        }
    } else {
        None
    }
}

/// A whole input that is one object, with only whitespace around it.
pub open spec fn sp_top_object(s: Seq<u8>) -> Option<Seq<(Seq<u8>, Seq<u8>)>> {
    match sp_object(s, 0) {
        Some((ms, j)) => if sp_ws(s, j) == s.len() {
            Some(ms)
        } else {
            None
        },
        None => None,
    }
}

/// Scans array items from `i` (just past `[` or a `,`): raw value spans
/// separated by commas up to the closing bracket.
#[verifier::opaque]
pub open spec fn sp_items(s: Seq<u8>, i: int, acc: Seq<Seq<u8>>) -> Option<(Seq<Seq<u8>>, int)>
    decreases s.len() - i,
{
    let i1 = sp_ws(s, i);
    match sp_scan_value(s, i1) {
        None => None,
        Some(j) => {
            if !(i <= i1 <= j <= s.len()) {
                None
            } else {
                let raw = s.subrange(i1, j);
                let acc2 = acc.push(raw);
                let i2 = sp_ws(s, j);
                if 0 <= i2 && i2 < s.len() && s[i2] == 44 {
                    if i2 + 1 > i {
                        sp_items(s, i2 + 1, acc2)
                    } else {
                        None
                    }
                } else if 0 <= i2 && i2 < s.len() && s[i2] == 93 {
                    Some((acc2, i2 + 1))
                } else {
                    None
                }
            }
        },
    }
}

pub open spec fn sp_array(s: Seq<u8>, i: int) -> Option<(Seq<Seq<u8>>, int)> {
    let i1 = sp_ws(s, i);
    if 0 <= i1 && i1 < s.len() && s[i1] == 91 {
        let i2 = sp_ws(s, i1 + 1);
        if 0 <= i2 && i2 < s.len() && s[i2] == 93 {
            Some((Seq::<Seq<u8>>::empty(), i2 + 1))
        } else {
            sp_items(s, i1 + 1, Seq::<Seq<u8>>::empty())
        }
    } else {
        None
    }
}

/// A whole input that is one array, with only whitespace around it.
pub open spec fn sp_top_array(s: Seq<u8>) -> Option<Seq<Seq<u8>>> {
    match sp_array(s, 0) {
        Some((items, j)) => if sp_ws(s, j) == s.len() {
            Some(items)
        } else {
            None
        },
        None => None,
    }
}

/// A whole input that is one quoted string, decoded.
pub open spec fn sp_full_string(s: Seq<u8>) -> Option<Seq<u8>> {
    match sp_string(s, 0) {
        Some((k, j)) => if j == s.len() {
            Some(k)
        } else {
            None
        },
        None => None,
    }
}


/// Views of a vector of key/raw-value pairs.
pub open spec fn pair_views(v: Seq<(Vec<u8>, Vec<u8>)>) -> Seq<(Seq<u8>, Seq<u8>)> {
    v.map_values(|p: (Vec<u8>, Vec<u8>)| (p.0@, p.1@))
}

/// Views of a vector of raw spans.
pub open spec fn raw_views(v: Seq<Vec<u8>>) -> Seq<Seq<u8>> {
    v.map_values(|x: Vec<u8>| x@)
}

/// Advances past whitespace.
pub fn skip_ws(s: &Vec<u8>, i: usize) -> (r: usize)
    requires
        i <= s@.len(),
    ensures
        r as int == sp_ws(s@, i as int),
        i <= r <= s@.len(),
{
    let mut cur = i;
    while cur < s.len() && (s[cur] == 32 || s[cur] == 9 || s[cur] == 10 || s[cur] == 13)
        invariant
            i <= cur <= s@.len(),
            sp_ws(s@, i as int) == sp_ws(s@, cur as int),
        decreases s@.len() - cur,
    {
        cur = cur + 1;
    }
    cur
}

fn hex_digit_val_exec(c: u8) -> (r: Option<u8>)
    ensures
        match r {
            Some(v) => is_hex_digit(c) && v as nat == hex_val(c),
            None => !is_hex_digit(c),
        },
{
    if 48 <= c && c <= 57 {
        Some(c - 48)
    } else if 97 <= c && c <= 102 {
        Some(c - 87)
    } else if 65 <= c && c <= 70 {
        Some(c - 55)
    } else {
        None
    }
}

fn parse_hex4(s: &Vec<u8>, i: usize) -> (r: Option<u32>)
    requires
        i + 4 <= s@.len(),
    ensures
        match r {
            Some(v) => hex4_ok(s@, i as int) && v as nat == hex4_val(s@, i as int) && v < 0x10000,
            None => !hex4_ok(s@, i as int),
        },
{
    let n = s.len();
    proof {
        assert(s@.len() <= usize::MAX);
    }
    let a = match hex_digit_val_exec(s[i]) {
        Some(v) => v,
        None => {
            return None;
        },
    };
    let b = match hex_digit_val_exec(s[i + 1]) {
        Some(v) => v,
        None => {
            return None;
        },
    };
    let c = match hex_digit_val_exec(s[i + 2]) {
        Some(v) => v,
        None => {
            return None;
        },
    };
    let d = match hex_digit_val_exec(s[i + 3]) {
        Some(v) => v,
        None => {
            return None;
        },
    };
    Some(((a as u32 * 16 + b as u32) * 16 + c as u32) * 16 + d as u32)
}

/// Encodes a scalar value as UTF-8.
fn utf8_encode(cp: u32) -> (r: Vec<u8>)
    requires
        cp < 0x110000,
    ensures
        r@ == utf8_enc(cp as nat),
{
    let mut r: Vec<u8> = Vec::new();
    if cp < 0x80 {
        r.push(cp as u8);
    } else if cp < 0x800 {
        r.push((192 + cp / 64) as u8);
        r.push((128 + cp % 64) as u8);
    } else if cp < 0x10000 {
        r.push((224 + cp / 4096) as u8);
        r.push((128 + (cp / 64) % 64) as u8);
        r.push((128 + cp % 64) as u8);
    } else {
        r.push((240 + cp / 262144) as u8);
        r.push((128 + (cp / 4096) % 64) as u8);
        r.push((128 + (cp / 64) % 64) as u8);
        r.push((128 + cp % 64) as u8);
    }
    proof {
        assert(r@ =~= utf8_enc(cp as nat));
    }
    r
}

/// Parses a quoted string starting exactly at `i`, decoding escapes.
pub fn parse_string(s: &Vec<u8>, i: usize) -> (r: Option<(Vec<u8>, usize)>)
    requires
        i <= s@.len(),
    ensures
        match r {
            Some(p) => sp_string(s@, i as int) == Some((p.0@, p.1 as int)) && i + 2 <= p.1
                <= s@.len(),
            None => sp_string(s@, i as int) is None,
        },
{
    if i >= s.len() || s[i] != 34 {
        return None;
    }
    let mut acc: Vec<u8> = Vec::new();
    let mut cur: usize = i + 1;
    let n = s.len();
    proof {
        assert(s@.len() <= usize::MAX);
    }
    while cur < s.len()
        invariant
            i + 1 <= cur <= s@.len(),
            s@.len() <= usize::MAX,
            i < s@.len(),
            s@[i as int] == 34,
            sp_str_body(s@, i as int + 1, Seq::<u8>::empty()) == sp_str_body(
                s@,
                cur as int,
                acc@,
            ),
        decreases s@.len() - cur,
    {
        let c = s[cur];
        if c == 34 {
            return Some((acc, cur + 1));
        } else if c == 92 {
            if cur + 1 >= s.len() {
                return None;
            }
            let e = s[cur + 1];
            let simple: Option<u8> = if e == 34 {
                Some(34u8)
            } else if e == 92 {
                Some(92u8)
            } else if e == 47 {
                Some(47u8)
            } else if e == 98 {
                Some(8u8)
            } else if e == 102 {
                Some(12u8)
            } else if e == 110 {
                Some(10u8)
            } else if e == 114 {
                Some(13u8)
            } else if e == 116 {
                Some(9u8)
            } else {
                None
            };
            match simple {
                Some(v) => {
                    proof {
                        assert(esc_char_val(e) == Some(v));
                    }
                    acc.push(v);
                    cur = cur + 2;
                },
                None => {
                    if e != 117 {
                        return None;
                    }
                    if s.len() - cur < 6 {
                        return None;
                    }
                    let cp = match parse_hex4(s, cur + 2) {
                        Some(v) => v,
                        None => {
                            return None;
                        },
                    };
                    if 0xD800 <= cp && cp < 0xDC00 {
                        if s.len() - cur < 12 || s[cur + 6] != 92 || s[cur + 7] != 117 {
                            return None;
                        }
                        let cp2 = match parse_hex4(s, cur + 8) {
                            Some(v) => v,
                            None => {
                                return None;
                            },
                        };
                        if !(0xDC00 <= cp2 && cp2 < 0xE000) {
                            return None;
                        }
                        let full: u32 = 0x10000 + (cp - 0xD800) * 0x400 + (cp2 - 0xDC00);
                        let enc = utf8_encode(full);
                        crate::util::push_all(&mut acc, &enc);
                        cur = cur + 12;
                    } else if 0xDC00 <= cp && cp < 0xE000 {
                        return None;
                    } else {
                        let enc = utf8_encode(cp);
                        crate::util::push_all(&mut acc, &enc);
                        cur = cur + 6;
                    }
                },
            }
        } else if c < 32 {
            return None;
        } else {
            acc.push(c);
            cur = cur + 1;
        }
    }
    None
}


fn digits_end_exec(s: &Vec<u8>, i: usize) -> (r: usize)
    requires
        i <= s@.len(),
    ensures
        r as int == digits_end(s@, i as int),
        i <= r <= s@.len(),
{
    let mut cur = i;
    while cur < s.len() && 48 <= s[cur] && s[cur] <= 57
        invariant
            i <= cur <= s@.len(),
            digits_end(s@, i as int) == digits_end(s@, cur as int),
        decreases s@.len() - cur,
    {
        cur = cur + 1;
    }
    cur
}

fn prim_end_exec(s: &Vec<u8>, i: usize) -> (r: usize)
    requires
        i <= s@.len(),
    ensures
        r as int == prim_end(s@, i as int),
        i <= r <= s@.len(),
{
    let mut cur = i;
    while cur < s.len() && !(s[cur] == 32 || s[cur] == 9 || s[cur] == 10 || s[cur] == 13
        || s[cur] == 44 || s[cur] == 125 || s[cur] == 93)
        invariant
            i <= cur <= s@.len(),
            prim_end(s@, i as int) == prim_end(s@, cur as int),
        decreases s@.len() - cur,
    {
        cur = cur + 1;
    }
    cur
}

fn is_valid_number_exec(t: &Vec<u8>) -> (r: bool)
    ensures
        r == is_valid_number(t@),
{
    let n = t.len();
    let i0: usize = if n > 0 && t[0] == 45 {
        1
    } else {
        0
    };
    if n <= i0 {
        return false;
    }
    let d_end: usize;
    if t[i0] == 48 {
        d_end = i0 + 1;
    } else if 48 <= t[i0] && t[i0] <= 57 {
        d_end = digits_end_exec(t, i0);
        proof {
            assert(digits_end(t@, i0 as int) == digits_end(t@, i0 as int + 1));
            lemma_digits_end_bounds(t@, i0 as int + 1);
        }
    } else {
        assert(!is_digit(t@[i0 as int]));
        return false;
    }
    let f_end: usize;
    if d_end < n && t[d_end] == 46 {
        let fe = digits_end_exec(t, d_end + 1);
        if fe > d_end + 1 {
            f_end = fe;
        } else {
            return false;
        }
    } else {
        f_end = d_end;
    }
    let e_end: usize;
    if f_end < n && (t[f_end] == 101 || t[f_end] == 69) {
        let sgn: usize = if f_end + 1 < n && (t[f_end + 1] == 43 || t[f_end + 1] == 45) {
            f_end + 2
        } else {
            f_end + 1
        };
        let ee = digits_end_exec(t, sgn);
        if ee > sgn {
            e_end = ee;
        } else {
            return false;
        }
    } else {
        e_end = f_end;
    }
    e_end == n
}

fn is_valid_primitive_exec(t: &Vec<u8>) -> (r: bool)
    ensures
        r == is_valid_primitive(t@),
{
    let tr: Vec<u8> = vec![116u8, 114u8, 117u8, 101u8];
    let fa: Vec<u8> = vec![102u8, 97u8, 108u8, 115u8, 101u8];
    let nu: Vec<u8> = vec![110u8, 117u8, 108u8, 108u8];
    proof {
        assert(tr@ =~= true_lit());
        assert(fa@ =~= false_lit());
        assert(nu@ =~= null_lit());
    }
    if crate::util::vec_u8_eq(t, &tr) || crate::util::vec_u8_eq(t, &fa) || crate::util::vec_u8_eq(
        t,
        &nu,
    ) {
        return true;
    }
    is_valid_number_exec(t)
}

fn scan_nested(s: &Vec<u8>, i: usize, closer: u8) -> (r: Option<usize>)
    requires
        i <= s@.len(),
    ensures
        match r {
            Some(j) => sp_scan_nested(s@, i as int, seq![closer]) == Some(j as int) && i <= j
                <= s@.len(),
            None => sp_scan_nested(s@, i as int, seq![closer]) is None,
        },
{
    let mut stack: Vec<u8> = Vec::new();
    stack.push(closer);
    let mut cur: usize = i;
    proof {
        assert(stack@ =~= seq![closer]);
    }
    while stack.len() > 0
        invariant
            i <= cur <= s@.len(),
            sp_scan_nested(s@, i as int, seq![closer]) == sp_scan_nested(
                s@,
                cur as int,
                stack@,
            ),
        decreases s@.len() - cur,
    {
        if cur >= s.len() {
            return None;
        }
        let c = s[cur];
        if c == 34 {
            match parse_string(s, cur) {
                Some(p) => {
                    cur = p.1;
                },
                None => {
                    return None;
                },
            }
        } else if c == 123 {
            stack.push(125);
            cur = cur + 1;
        } else if c == 91 {
            stack.push(93);
            cur = cur + 1;
        } else if c == 125 || c == 93 {
            let top = stack[stack.len() - 1];
            if top == c {
                let ghost pre = stack@;
                proof {
                    assert(pre.last() == top);
                }
                let _popped = stack.pop();
                proof {
                    assert(stack@ =~= pre.drop_last());
                }
                cur = cur + 1;
            } else {
                return None;
            }
        } else {
            cur = cur + 1;
        }
    }
    Some(cur)
}

/// Scans one JSON value starting exactly at `i`, yielding the index just
/// past it.
pub fn scan_value(s: &Vec<u8>, i: usize) -> (r: Option<usize>)
    requires
        i <= s@.len(),
    ensures
        match r {
            Some(j) => sp_scan_value(s@, i as int) == Some(j as int) && i < j <= s@.len(),
            None => sp_scan_value(s@, i as int) is None,
        },
{
    if i >= s.len() {
        return None;
    }
    let c = s[i];
    if c == 34 {
        match parse_string(s, i) {
            Some(p) => Some(p.1),
            None => None,
        }
    } else if c == 123 {
        match scan_nested(s, i + 1, 125) {
            Some(j) => Some(j),
            None => None,
        }
    } else if c == 91 {
        match scan_nested(s, i + 1, 93) {
            Some(j) => Some(j),
            None => None,
        }
    } else if c == 32 || c == 9 || c == 10 || c == 13 || c == 44 || c == 125 || c == 93 || c
        == 58 {
        None
    } else {
        let j = prim_end_exec(s, i);
        proof {
            assert(!is_delim(s@[i as int]));
            assert(prim_end(s@, i as int) == prim_end(s@, i as int + 1));
            lemma_prim_end_bounds(s@, i as int + 1);
        }
        let tok = crate::util::copy_range(s, i, j);
        if is_valid_primitive_exec(&tok) {
            Some(j)
        } else {
            None
        }
    }
}


proof fn lemma_members_step(s: Seq<u8>, i: int, acc: Seq<(Seq<u8>, Seq<u8>)>)
    requires
        0 <= i <= s.len(),
        sp_string(s, sp_ws(s, i)) is Some,
        i <= sp_ws(s, i),
        ({
            let (k, i2) = sp_string(s, sp_ws(s, i))->Some_0;
            let i3 = sp_ws(s, i2);
            &&& i2 <= s.len()
            &&& i2 <= i3 < s.len()
            &&& s[i3] == 58
            &&& sp_scan_value(s, sp_ws(s, i3 + 1)) is Some
            &&& sp_ws(s, i3 + 1) <= sp_scan_value(s, sp_ws(s, i3 + 1))->Some_0 <= s.len()
        }),
    ensures
        ({
            let (k, i2) = sp_string(s, sp_ws(s, i))->Some_0;
            let i3 = sp_ws(s, i2);
            let i4 = sp_ws(s, i3 + 1);
            let j = sp_scan_value(s, i4)->Some_0;
            let raw = s.subrange(i4, j);
            let i5 = sp_ws(s, j);
            let acc2 = acc.push((k, raw));
            &&& (0 <= i5 < s.len() && s[i5] == 44 ==> sp_members(s, i, acc) == sp_members(
                s,
                i5 + 1,
                acc2,
            ))
            &&& (0 <= i5 < s.len() && s[i5] == 125 ==> sp_members(s, i, acc) == Some(
                (acc2, i5 + 1),
            ))
            &&& (!(0 <= i5 < s.len() && (s[i5] == 44 || s[i5] == 125)) ==> sp_members(s, i, acc)
                is None)
        }),
{
    reveal(sp_members);
    let i1 = sp_ws(s, i);
    lemma_ws_progress(s, i);
    let (k, i2) = sp_string(s, i1)->Some_0;
    lemma_string_progress(s, i1);
    let i3 = sp_ws(s, i2);
    lemma_ws_progress(s, i2);
    let i4 = sp_ws(s, i3 + 1);
    lemma_ws_progress(s, i3 + 1);
    let j = sp_scan_value(s, i4)->Some_0;
    let i5 = sp_ws(s, j);
    lemma_ws_progress(s, j);
}

proof fn lemma_members_fail(s: Seq<u8>, i: int, acc: Seq<(Seq<u8>, Seq<u8>)>)
    requires
        0 <= i <= s.len(),
        ({
            ||| sp_string(s, sp_ws(s, i)) is None
            ||| {
                let (k, i2) = sp_string(s, sp_ws(s, i))->Some_0;
                let i3 = sp_ws(s, i2);
                sp_string(s, sp_ws(s, i)) is Some && i2 <= s.len() && (!(0 <= i3 < s.len()
                    && s[i3] == 58) || (0 <= i3 < s.len() && s[i3] == 58 && sp_scan_value(
                    s,
                    sp_ws(s, i3 + 1),
                ) is None))
            }
        }),
    ensures
        sp_members(s, i, acc) is None,
{
    reveal(sp_members);
    lemma_ws_progress(s, i);
    if sp_string(s, sp_ws(s, i)) is Some {
        let (k, i2) = sp_string(s, sp_ws(s, i))->Some_0;
        lemma_string_progress(s, sp_ws(s, i));
        lemma_ws_progress(s, i2);
    }
}

proof fn lemma_items_step(s: Seq<u8>, i: int, acc: Seq<Seq<u8>>)
    requires
        0 <= i <= s.len(),
        sp_scan_value(s, sp_ws(s, i)) is Some,
        i <= sp_ws(s, i),
        sp_ws(s, i) <= sp_scan_value(s, sp_ws(s, i))->Some_0 <= s.len(),
    ensures
        ({
            let i1 = sp_ws(s, i);
            let j = sp_scan_value(s, i1)->Some_0;
            let raw = s.subrange(i1, j);
            let i2 = sp_ws(s, j);
            let acc2 = acc.push(raw);
            &&& (0 <= i2 < s.len() && s[i2] == 44 ==> sp_items(s, i, acc) == sp_items(
                s,
                i2 + 1,
                acc2,
            ))
            &&& (0 <= i2 < s.len() && s[i2] == 93 ==> sp_items(s, i, acc) == Some(
                (acc2, i2 + 1),
            ))
            &&& (!(0 <= i2 < s.len() && (s[i2] == 44 || s[i2] == 93)) ==> sp_items(s, i, acc)
                is None)
        }),
{
    reveal(sp_items);
    let i1 = sp_ws(s, i);
    lemma_ws_progress(s, i);
    let j = sp_scan_value(s, i1)->Some_0;
    let i2 = sp_ws(s, j);
    lemma_ws_progress(s, j);
}

proof fn lemma_items_fail(s: Seq<u8>, i: int, acc: Seq<Seq<u8>>)
    requires
        0 <= i <= s.len(),
        sp_scan_value(s, sp_ws(s, i)) is None,
    ensures
        sp_items(s, i, acc) is None,
{
    reveal(sp_items);
    lemma_ws_progress(s, i);
}

/// Parses an object starting at `i`: the decoded keys with their raw
/// value spans, and the index just past the closing brace.
#[verifier::rlimit(80)]
pub fn parse_object(s: &Vec<u8>, i: usize) -> (r: Option<(Vec<(Vec<u8>, Vec<u8>)>, usize)>)
    requires
        i <= s@.len(),
    ensures
        match r {
            Some(p) => sp_object(s@, i as int) == Some((pair_views(p.0@), p.1 as int)) && p.1
                <= s@.len(),
            None => sp_object(s@, i as int) is None,
        },
{
    let i1 = skip_ws(s, i);
    if i1 >= s.len() || s[i1] != 123 {
        return None;
    }
    let i2 = skip_ws(s, i1 + 1);
    if i2 < s.len() && s[i2] == 125 {
        let empty: Vec<(Vec<u8>, Vec<u8>)> = Vec::new();
        proof {
            assert(pair_views(empty@) =~= Seq::<(Seq<u8>, Seq<u8>)>::empty());
        }
        return Some((empty, i2 + 1));
    }
    let mut acc: Vec<(Vec<u8>, Vec<u8>)> = Vec::new();
    let mut cur: usize = i1 + 1;
    proof {
        assert(pair_views(acc@) =~= Seq::<(Seq<u8>, Seq<u8>)>::empty());
    }
    while cur < s.len()
        invariant
            i1 + 1 <= cur <= s@.len(),
            sp_object(s@, i as int) == sp_members(
                s@,
                i1 as int + 1,
                Seq::<(Seq<u8>, Seq<u8>)>::empty(),
            ),
            sp_members(s@, i1 as int + 1, Seq::<(Seq<u8>, Seq<u8>)>::empty()) == sp_members(
                s@,
                cur as int,
                pair_views(acc@),
            ),
        decreases s@.len() - cur,
    {
        let j1 = skip_ws(s, cur);
        let (k, j2) = match parse_string(s, j1) {
            Some(p) => p,
            None => {
                proof {
                    lemma_members_fail(s@, cur as int, pair_views(acc@));
                }
                return None;
            },
        };
        let j3 = skip_ws(s, j2);
        if !(j3 < s.len() && s[j3] == 58) {
            proof {
                lemma_members_fail(s@, cur as int, pair_views(acc@));
            }
            return None;
        }
        let j4 = skip_ws(s, j3 + 1);
        let j5 = match scan_value(s, j4) {
            Some(j) => j,
            None => {
                proof {
                    lemma_members_fail(s@, cur as int, pair_views(acc@));
                }
                return None;
            },
        };
        proof {
            lemma_members_step(s@, cur as int, pair_views(acc@));
        }
        let raw = crate::util::copy_range(s, j4, j5);
        let ghost old_acc = pair_views(acc@);
        acc.push((k, raw));
        proof {
            assert(pair_views(acc@) =~~= old_acc.push((k@, raw@)));
        }
        let j6 = skip_ws(s, j5);
        if j6 < s.len() && s[j6] == 44 {
            cur = j6 + 1;
        } else if j6 < s.len() && s[j6] == 125 {
            return Some((acc, j6 + 1));
        } else {
            return None;
        }
    }
    proof {
        lemma_members_fail(s@, cur as int, pair_views(acc@));
    }
    None
}

/// Parses a whole input as one object with only surrounding whitespace.
pub fn parse_top_object(s: &Vec<u8>) -> (r: Option<Vec<(Vec<u8>, Vec<u8>)>>)
    ensures
        match r {
            Some(ms) => sp_top_object(s@) == Some(pair_views(ms@)),
            None => sp_top_object(s@) is None,
        },
{
    match parse_object(s, 0) {
        Some((ms, j)) => {
            let j2 = skip_ws(s, j);
            if j2 == s.len() {
                Some(ms)
            } else {
                None
            }
        },
        None => None,
    }
}

/// Parses an array starting at `i`: the raw spans of its items and the
/// index just past the closing bracket.
#[verifier::rlimit(80)]
pub fn parse_array(s: &Vec<u8>, i: usize) -> (r: Option<(Vec<Vec<u8>>, usize)>)
    requires
        i <= s@.len(),
    ensures
        match r {
            Some(p) => sp_array(s@, i as int) == Some((raw_views(p.0@), p.1 as int)) && p.1
                <= s@.len(),
            None => sp_array(s@, i as int) is None,
        },
{
    let i1 = skip_ws(s, i);
    if i1 >= s.len() || s[i1] != 91 {
        return None;
    }
    let i2 = skip_ws(s, i1 + 1);
    if i2 < s.len() && s[i2] == 93 {
        let empty: Vec<Vec<u8>> = Vec::new();
        proof {
            assert(raw_views(empty@) =~= Seq::<Seq<u8>>::empty());
        }
        return Some((empty, i2 + 1));
    }
    let mut acc: Vec<Vec<u8>> = Vec::new();
    let mut cur: usize = i1 + 1;
    proof {
        assert(raw_views(acc@) =~= Seq::<Seq<u8>>::empty());
    }
    while cur < s.len()
        invariant
            i1 + 1 <= cur <= s@.len(),
            sp_array(s@, i as int) == sp_items(s@, i1 as int + 1, Seq::<Seq<u8>>::empty()),
            sp_items(s@, i1 as int + 1, Seq::<Seq<u8>>::empty()) == sp_items(
                s@,
                cur as int,
                raw_views(acc@),
            ),
        decreases s@.len() - cur,
    {
        let j1 = skip_ws(s, cur);
        let j2 = match scan_value(s, j1) {
            Some(j) => j,
            None => {
                proof {
                    lemma_items_fail(s@, cur as int, raw_views(acc@));
                }
                return None;
            },
        };
        proof {
            lemma_items_step(s@, cur as int, raw_views(acc@));
        }
        let raw = crate::util::copy_range(s, j1, j2);
        let ghost old_acc = raw_views(acc@);
        acc.push(raw);
        proof {
            assert(raw_views(acc@) =~~= old_acc.push(raw@));
        }
        let j3 = skip_ws(s, j2);
        if j3 < s.len() && s[j3] == 44 {
            cur = j3 + 1;
        } else if j3 < s.len() && s[j3] == 93 {
            return Some((acc, j3 + 1));
        } else {
            return None;
        }
    }
    proof {
        lemma_items_fail(s@, cur as int, raw_views(acc@));
    }
    None
}

/// Parses a whole input as one array with only surrounding whitespace.
pub fn parse_top_array(s: &Vec<u8>) -> (r: Option<Vec<Vec<u8>>>)
    ensures
        match r {
            Some(items) => sp_top_array(s@) == Some(raw_views(items@)),
            None => sp_top_array(s@) is None,
        },
{
    match parse_array(s, 0) {
        Some((items, j)) => {
            let j2 = skip_ws(s, j);
            if j2 == s.len() {
                Some(items)
            } else {
                None
            }
        },
        None => None,
    }
}

/// Parses a whole input as one quoted string.
pub fn parse_full_string(s: &Vec<u8>) -> (r: Option<Vec<u8>>)
    ensures
        match r {
            Some(k) => sp_full_string(s@) == Some(k@),
            None => sp_full_string(s@) is None,
        },
{
    match parse_string(s, 0) {
        Some((k, j)) => {
            if j == s.len() {
                Some(k)
            } else {
                None
            }
        },
        None => None,
    }
}


/// The escaped form of one byte inside a JSON string: quote and backslash
/// get a backslash, the named control escapes are used where they exist,
/// any other control byte becomes a `\\u00XX` escape, and everything else
/// stands as itself.
pub open spec fn esc_byte(c: u8) -> Seq<u8> {
    if c == 34 {
        seq![92u8, 34u8]
    } else if c == 92 {
        seq![92u8, 92u8]
    } else if c == 8 {
        seq![92u8, 98u8]
    } else if c == 12 {
        seq![92u8, 102u8]
    } else if c == 10 {
        seq![92u8, 110u8]
    } else if c == 13 {
        seq![92u8, 114u8]
    } else if c == 9 {
        seq![92u8, 116u8]
    } else if c < 32 {
        seq![92u8, 117u8, 48u8, 48u8, hex_digit((c / 16) as nat), hex_digit((c % 16) as nat)]
    } else {
        seq![c]
    }
}

pub open spec fn esc_str(t: Seq<u8>) -> Seq<u8>
    decreases t.len(),
{
    if t.len() == 0 {
        Seq::<u8>::empty()
    } else {
        esc_byte(t[0]) + esc_str(t.skip(1))
    }
}

/// The serialized form of a string value: quoted and escaped.
pub open spec fn ser_str(t: Seq<u8>) -> Seq<u8> {
    seq![34u8] + esc_str(t) + seq![34u8]
}

pub open spec fn ser_member(m: (Seq<u8>, Seq<u8>)) -> Seq<u8> {
    ser_str(m.0) + seq![58u8] + m.1
}

pub open spec fn ser_members(ms: Seq<(Seq<u8>, Seq<u8>)>) -> Seq<u8>
    decreases ms.len(),
{
    if ms.len() == 0 {
        Seq::<u8>::empty()
    } else if ms.len() == 1 {
        ser_member(ms[0])
    } else {
        ser_member(ms[0]) + seq![44u8] + ser_members(ms.skip(1))
    }
}

/// The serialized form of an object: escaped keys, raw member values.
pub open spec fn ser_object(ms: Seq<(Seq<u8>, Seq<u8>)>) -> Seq<u8> {
    seq![123u8] + ser_members(ms) + seq![125u8]
}

pub proof fn lemma_esc_str_snoc(t: Seq<u8>, c: u8)
    ensures
        esc_str(t.push(c)) == esc_str(t) + esc_byte(c),
    decreases t.len(),
{
    if t.len() == 0 {
        assert(t.push(c)[0] == c);
        assert(t.push(c).skip(1) =~= Seq::<u8>::empty());
        assert(esc_str(Seq::<u8>::empty()) =~= Seq::<u8>::empty());
        assert(esc_str(t.push(c)) == esc_byte(c) + esc_str(t.push(c).skip(1)));
        assert(t =~= Seq::<u8>::empty());
        assert(esc_str(t.push(c)) =~= esc_str(t) + esc_byte(c));
    } else {
        assert(t.push(c)[0] == t[0]);
        assert(t.push(c).skip(1) =~= t.skip(1).push(c));
        lemma_esc_str_snoc(t.skip(1), c);
        assert(esc_str(t.push(c)) =~= esc_str(t) + esc_byte(c));
    }
}

pub proof fn lemma_ser_members_snoc(ms: Seq<(Seq<u8>, Seq<u8>)>, m: (Seq<u8>, Seq<u8>))
    ensures
        ser_members(ms.push(m)) == if ms.len() == 0 {
            ser_member(m)
        } else {
            ser_members(ms) + seq![44u8] + ser_members(seq![m])
        },
    decreases ms.len(),
{
    if ms.len() == 0 {
        assert(ms.push(m).len() == 1);
        assert(ms.push(m)[0] == m);
    } else {
        assert(ms.push(m)[0] == ms[0]);
        assert(ms.push(m).skip(1) =~= ms.skip(1).push(m));
        lemma_ser_members_snoc(ms.skip(1), m);
        if ms.len() == 1 {
            assert(ms.skip(1).len() == 0);
            assert(ser_members(ms.push(m)) =~= ser_members(ms) + seq![44u8] + ser_members(
                seq![m],
            ));
        } else {
            assert(ser_members(ms.push(m)) =~= ser_members(ms) + seq![44u8] + ser_members(
                seq![m],
            ));
        }
    }
}

/// Appends the quoted, escaped form of `t` to `out`.
fn push_escaped(out: &mut Vec<u8>, t: &Vec<u8>)
    ensures
        final(out)@ == old(out)@ + ser_str(t@),
{
    out.push(34);
    let mut i: usize = 0;
    while i < t.len()
        invariant
            i <= t@.len(),
            out@ == old(out)@ + seq![34u8] + esc_str(t@.take(i as int)),
        decreases t@.len() - i,
    {
        let ghost pre = t@.take(i as int);
        let c = t[i];
        if c == 34 {
            out.push(92);
            out.push(34);
        } else if c == 92 {
            out.push(92);
            out.push(92);
        } else if c == 8 {
            out.push(92);
            out.push(98);
        } else if c == 12 {
            out.push(92);
            out.push(102);
        } else if c == 10 {
            out.push(92);
            out.push(110);
        } else if c == 13 {
            out.push(92);
            out.push(114);
        } else if c == 9 {
            out.push(92);
            out.push(116);
        } else if c < 32 {
            out.push(92);
            out.push(117);
            out.push(48);
            out.push(48);
            let hi = c / 16;
            let lo = c % 16;
            out.push(
                if hi < 10 {
                    48 + hi
                } else {
                    87 + hi
                },
            );
            out.push(
                if lo < 10 {
                    48 + lo
                } else {
                    87 + lo
                },
            );
        } else {
            out.push(c);
        }
        proof {
            lemma_esc_str_snoc(pre, c);
            assert(t@.take(i as int + 1) =~= pre.push(c));
            assert(out@ =~= old(out)@ + seq![34u8] + esc_str(t@.take(i as int + 1)));
        }
        i = i + 1;
    }
    out.push(34);
    proof {
        assert(t@.take(t@.len() as int) =~= t@);
        assert(final(out)@ =~= old(out)@ + ser_str(t@));
    }
}

/// Serializes an object from decoded keys and raw member values.
pub fn serialize_object(ms: &Vec<(Vec<u8>, Vec<u8>)>) -> (r: Vec<u8>)
    ensures
        r@ == ser_object(pair_views(ms@)),
{
    let mut out: Vec<u8> = Vec::new();
    out.push(123);
    let mut i: usize = 0;
    proof {
        assert(out@ =~= seq![123u8] + ser_members(pair_views(ms@).take(0)));
    }
    while i < ms.len()
        invariant
            i <= ms@.len(),
            out@ == seq![123u8] + ser_members(pair_views(ms@).take(i as int)),
        decreases ms@.len() - i,
    {
        let ghost pre = pair_views(ms@).take(i as int);
        if i > 0 {
            out.push(44);
        }
        push_escaped(&mut out, &ms[i].0);
        out.push(58);
        crate::util::push_all(&mut out, &ms[i].1);
        proof {
            let m = (ms@[i as int].0@, ms@[i as int].1@);
            lemma_ser_members_snoc(pre, m);
            assert(pair_views(ms@).take(i as int + 1) =~~= pre.push(m));
            assert(ser_members(seq![m]) == ser_member(m));
            assert(out@ =~= seq![123u8] + ser_members(pair_views(ms@).take(i as int + 1)));
        }
        i = i + 1;
    }
    out.push(125);
    proof {
        assert(pair_views(ms@).take(ms@.len() as int) =~~= pair_views(ms@));
        assert(out@ =~= ser_object(pair_views(ms@)));
    }
    out
}

/// Serializes one string value: quoted and escaped.
pub fn serialize_string(t: &Vec<u8>) -> (r: Vec<u8>)
    ensures
        r@ == ser_str(t@),
{
    let mut out: Vec<u8> = Vec::new();
    push_escaped(&mut out, t);
    proof {
        assert(out@ =~= ser_str(t@));
    }
    out
}


#[verifier::rlimit(100)]
proof fn lemma_body_escaped(s: Seq<u8>, i: int, e: int, acc: Seq<u8>, t: Seq<u8>)
    requires
        0 <= i <= e <= s.len(),
        s.subrange(i, e) == esc_str(t) + seq![34u8],
    ensures
        sp_str_body(s, i, acc) == Some((acc + t, e)),
    decreases t.len(),
{
    let sub = s.subrange(i, e);
    if t.len() == 0 {
        assert(esc_str(t) =~= Seq::<u8>::empty());
        assert(sub.len() == 1);
        assert(s[i] == sub[0]);
        assert(sub[0] == 34);
        assert(acc + t =~= acc);
    } else {
        let c = t[0];
        assert(esc_str(t) == esc_byte(c) + esc_str(t.skip(1)));
        let d = esc_byte(c).len() as int;
        let rest = esc_str(t.skip(1)) + seq![34u8];
        assert(sub.len() == e - i);
        assert(esc_str(t).len() == d + esc_str(t.skip(1)).len());
        assert(sub.len() == d + rest.len());
        assert forall|k: int| 0 <= k < d implies s[i + k] == esc_byte(c)[k] by {
            assert(0 <= k < sub.len());
            assert(sub[k] == s[i + k]);
            assert(sub[k] == (esc_byte(c) + esc_str(t.skip(1)) + seq![34u8])[k]);
            assert((esc_byte(c) + esc_str(t.skip(1)) + seq![34u8])[k] == esc_byte(c)[k]);
        }
        assert forall|k: int| 0 <= k < rest.len() implies s.subrange(i + d, e)[k] == rest[k] by {
            assert(s.subrange(i + d, e)[k] == s[i + d + k]);
            assert(0 <= d + k < sub.len());
            assert(sub[d + k] == s[i + d + k]);
            assert(sub[d + k] == (esc_byte(c) + esc_str(t.skip(1)) + seq![34u8])[d + k]);
            if k < esc_str(t.skip(1)).len() {
                assert((esc_byte(c) + esc_str(t.skip(1)) + seq![34u8])[d + k] == esc_str(
                    t.skip(1),
                )[k]);
                assert(rest[k] == esc_str(t.skip(1))[k]);
            } else {
                assert((esc_byte(c) + esc_str(t.skip(1)) + seq![34u8])[d + k] == 34);
                assert(rest[k] == 34);
            }
        }
        assert(s.subrange(i + d, e) =~= rest);
        assert(s[i + 0] == esc_byte(c)[0]);
        assert(d >= 2 ==> s[i + 1] == esc_byte(c)[1]);
        assert(d == 6 ==> s[i + 2] == esc_byte(c)[2] && s[i + 3] == esc_byte(c)[3] && s[i + 4]
            == esc_byte(c)[4] && s[i + 5] == esc_byte(c)[5]);
        if c == 34 || c == 92 || c == 8 || c == 12 || c == 10 || c == 13 || c == 9 {
            assert(d == 2);
            assert(s[i] == 92);
            assert(esc_char_val(s[i + 1]) == Some(c));
            lemma_body_escaped(s, i + 2, e, acc.push(c), t.skip(1));
            assert(acc.push(c) + t.skip(1) =~= acc + t);
        } else if c < 32 {
            assert(d == 6);
            assert(s[i] == 92);
            assert(s[i + 1] == 117);
            assert(esc_char_val(117u8) is None);
            assert(s[i + 2] == 48 && s[i + 3] == 48);
            assert(s[i + 4] == hex_digit((c / 16) as nat));
            assert(s[i + 5] == hex_digit((c % 16) as nat));
            assert(is_hex_digit(s[i + 2]) && hex_val(s[i + 2]) == 0);
            assert(is_hex_digit(s[i + 4]) && hex_val(s[i + 4]) == (c / 16) as nat);
            assert(is_hex_digit(s[i + 5]) && hex_val(s[i + 5]) == (c % 16) as nat);
            assert(hex4_ok(s, i + 2));
            assert(hex4_val(s, i + 2) == c);
            assert(utf8_enc(c as nat) =~= seq![c]);
            lemma_body_escaped(s, i + 6, e, acc + utf8_enc(c as nat), t.skip(1));
            assert(acc + utf8_enc(c as nat) + t.skip(1) =~= acc + t);
        } else {
            assert(d == 1);
            assert(s[i] == c);
            assert(c != 34 && c != 92 && c >= 32);
            lemma_body_escaped(s, i + 1, e, acc.push(c), t.skip(1));
            assert(acc.push(c) + t.skip(1) =~= acc + t);
        }
    }
}

/// A serialized string embedded in a larger text parses back to its
/// bytes, ending exactly where the serialization ends.
proof fn lemma_string_at(s: Seq<u8>, i: int, e: int, k: Seq<u8>)
    requires
        0 <= i <= e <= s.len(),
        s.subrange(i, e) == ser_str(k),
    ensures
        sp_string(s, i) == Some((k, e)),
{
    let sub = s.subrange(i, e);
    assert(ser_str(k).len() == 2 + esc_str(k).len());
    assert(sub.len() == 2 + esc_str(k).len());
    assert(s[i] == sub[0]);
    assert(sub[0] == 34);
    assert forall|j: int| 0 <= j < e - (i + 1) implies s.subrange(i + 1, e)[j] == (esc_str(k)
        + seq![34u8])[j] by {
        assert(s.subrange(i + 1, e)[j] == s[i + 1 + j]);
        assert(sub[1 + j] == s[i + 1 + j]);
        assert(sub[1 + j] == (seq![34u8] + esc_str(k) + seq![34u8])[1 + j]);
        if j < esc_str(k).len() {
            assert((seq![34u8] + esc_str(k) + seq![34u8])[1 + j] == esc_str(k)[j]);
            assert((esc_str(k) + seq![34u8])[j] == esc_str(k)[j]);
        } else {
            assert(j == esc_str(k).len());
            assert((seq![34u8] + esc_str(k) + seq![34u8])[1 + j] == 34);
            assert((esc_str(k) + seq![34u8])[j] == 34);
        }
    }
    assert(s.subrange(i + 1, e) =~= esc_str(k) + seq![34u8]);
    lemma_body_escaped(s, i + 1, e, Seq::<u8>::empty(), k);
    assert(Seq::<u8>::empty() + k =~= k);
}

/// Part of the round trip: a string value serialized by this codec parses
/// back to the same bytes.
pub proof fn lemma_string_round_trip(t: Seq<u8>)
    ensures
        sp_full_string(ser_str(t)) == Some(t),
{
    let s = ser_str(t);
    assert(s.subrange(0, s.len() as int) =~= s);
    lemma_string_at(s, 0, s.len() as int, t);
}


/// Object members whose values are string values, serialized.
pub open spec fn str_members(pairs: Seq<(Seq<u8>, Seq<u8>)>) -> Seq<(Seq<u8>, Seq<u8>)> {
    pairs.map_values(|p: (Seq<u8>, Seq<u8>)| (p.0, ser_str(p.1)))
}

proof fn lemma_subrange_shift(s: Seq<u8>, i: int, whole: Seq<u8>, a: int, b: int)
    requires
        0 <= i,
        i + whole.len() <= s.len(),
        s.subrange(i, i + whole.len()) == whole,
        0 <= a <= b <= whole.len(),
    ensures
        s.subrange(i + a, i + b) == whole.subrange(a, b),
{
    assert forall|k: int| 0 <= k < b - a implies s.subrange(i + a, i + b)[k] == whole.subrange(
        a,
        b,
    )[k] by {
        assert(s.subrange(i + a, i + b)[k] == s[i + a + k]);
        assert(s.subrange(i, i + whole.len())[a + k] == s[i + a + k]);
        assert(whole.subrange(a, b)[k] == whole[a + k]);
    }
    assert(s.subrange(i + a, i + b) =~= whole.subrange(a, b));
}

#[verifier::rlimit(100)]
proof fn lemma_members_ser(s: Seq<u8>, i: int, pairs: Seq<(Seq<u8>, Seq<u8>)>, acc: Seq<
    (Seq<u8>, Seq<u8>),
>)
    requires
        pairs.len() >= 1,
        0 <= i <= s.len(),
        s.subrange(i, s.len() as int) == ser_members(str_members(pairs)) + seq![125u8],
    ensures
        sp_members(s, i, acc) == Some((acc + str_members(pairs), s.len() as int)),
    decreases pairs.len(),
{
    reveal(sp_members);
    let mapped = str_members(pairs);
    let m0 = mapped[0];
    let k0 = pairs[0].0;
    let sv0 = ser_str(pairs[0].1);
    assert(m0 == (k0, sv0));
    let a0 = ser_str(k0).len() as int;
    let b0 = sv0.len() as int;
    let w = ser_members(mapped) + seq![125u8];
    assert(i + w.len() == s.len());
    assert(ser_member(m0) == ser_str(k0) + seq![58u8] + sv0);
    let e_k = i + a0;
    let j = e_k + 1 + b0;
    if pairs.len() == 1 {
        assert(mapped.len() == 1);
        assert(ser_members(mapped) == ser_member(m0));
        assert(w =~= ser_str(k0) + seq![58u8] + sv0 + seq![125u8]);
        assert(w.len() == a0 + 1 + b0 + 1);
        lemma_subrange_shift(s, i, w, 0, a0);
        assert(w.subrange(0, a0) =~= ser_str(k0));
        assert(s.subrange(i, e_k) == ser_str(k0));
        lemma_string_at(s, i, e_k, k0);
        lemma_subrange_shift(s, i, w, a0, a0 + 1);
        assert(w.subrange(a0, a0 + 1) =~= seq![58u8]);
        assert(s.subrange(e_k, e_k + 1)[0] == s[e_k]);
        assert(s[e_k] == 58);
        lemma_subrange_shift(s, i, w, a0 + 1, a0 + 1 + b0);
        assert(w.subrange(a0 + 1, a0 + 1 + b0) =~= sv0);
        assert(s.subrange(e_k + 1, j) == sv0);
        lemma_string_at(s, e_k + 1, j, pairs[0].1);
        lemma_subrange_shift(s, i, w, a0 + 1 + b0, a0 + 1 + b0 + 1);
        assert(w.subrange(a0 + 1 + b0, a0 + 1 + b0 + 1) =~= seq![125u8]);
        assert(s.subrange(j, j + 1)[0] == s[j]);
        assert(s[j] == 125);
        // no whitespace stands between the pieces
        assert(ser_str(k0)[0] == 34);
        assert(s.subrange(i, e_k)[0] == s[i]);
        assert(s[i] == 34);
        assert(sp_ws(s, i) == i);
        assert(sv0[0] == 34);
        assert(s.subrange(e_k + 1, j)[0] == s[e_k + 1]);
        assert(s[e_k + 1] == 34);
        assert(sp_ws(s, e_k) == e_k);
        assert(sp_ws(s, e_k + 1) == e_k + 1);
        assert(sp_ws(s, j) == j);
        assert(sp_string(s, i) == Some((k0, e_k)));
        assert(sp_scan_value(s, e_k + 1) == Some(j));
        assert(s.subrange(e_k + 1, j) == sv0);
        assert(j + 1 == s.len());
        assert(acc.push((k0, sv0)) =~~= acc + mapped);
        assert(sp_members(s, i, acc) == Some((acc.push((k0, sv0)), j + 1)));
    } else {
        assert(mapped.len() >= 2);
        assert(ser_members(mapped) == ser_member(m0) + seq![44u8] + ser_members(mapped.skip(1)));
        let restm = ser_members(mapped.skip(1));
        assert(w =~= ser_str(k0) + seq![58u8] + sv0 + seq![44u8] + (restm + seq![125u8]));
        assert(w.len() == a0 + 1 + b0 + 1 + restm.len() + 1);
        lemma_subrange_shift(s, i, w, 0, a0);
        assert(w.subrange(0, a0) =~= ser_str(k0));
        lemma_string_at(s, i, e_k, k0);
        lemma_subrange_shift(s, i, w, a0, a0 + 1);
        assert(w.subrange(a0, a0 + 1) =~= seq![58u8]);
        assert(s.subrange(e_k, e_k + 1)[0] == s[e_k]);
        assert(s[e_k] == 58);
        lemma_subrange_shift(s, i, w, a0 + 1, a0 + 1 + b0);
        assert(w.subrange(a0 + 1, a0 + 1 + b0) =~= sv0);
        lemma_string_at(s, e_k + 1, j, pairs[0].1);
        lemma_subrange_shift(s, i, w, a0 + 1 + b0, a0 + 1 + b0 + 1);
        assert(w.subrange(a0 + 1 + b0, a0 + 1 + b0 + 1) =~= seq![44u8]);
        assert(s.subrange(j, j + 1)[0] == s[j]);
        assert(s[j] == 44);
        lemma_subrange_shift(s, i, w, a0 + 1 + b0 + 1, w.len() as int);
        assert(w.subrange(a0 + 1 + b0 + 1, w.len() as int) =~= restm + seq![125u8]);
        assert(s.subrange(j + 1, s.len() as int) == restm + seq![125u8]);
        assert(mapped.skip(1) =~~= str_members(pairs.skip(1)));
        lemma_members_ser(s, j + 1, pairs.skip(1), acc.push((k0, sv0)));
        assert(ser_str(k0)[0] == 34);
        assert(s.subrange(i, e_k)[0] == s[i]);
        assert(s[i] == 34);
        assert(sp_ws(s, i) == i);
        assert(sv0[0] == 34);
        assert(s.subrange(e_k + 1, j)[0] == s[e_k + 1]);
        assert(s[e_k + 1] == 34);
        assert(sp_ws(s, e_k) == e_k);
        assert(sp_ws(s, e_k + 1) == e_k + 1);
        assert(sp_ws(s, j) == j);
        assert(sp_string(s, i) == Some((k0, e_k)));
        assert(sp_scan_value(s, e_k + 1) == Some(j));
        assert(s.subrange(e_k + 1, j) == sv0);
        assert(acc.push((k0, sv0)) + str_members(pairs.skip(1)) =~~= acc + mapped);
        assert(sp_members(s, i, acc) == sp_members(s, j + 1, acc.push((k0, sv0))));
    }
}

/// Part of the round trip: an object of string values serialized by this
/// codec parses back to the same members.
pub proof fn lemma_object_of_strings_parse(pairs: Seq<(Seq<u8>, Seq<u8>)>)
    ensures
        sp_top_object(ser_object(str_members(pairs))) == Some(str_members(pairs)),
{
    let mapped = str_members(pairs);
    let s = ser_object(mapped);
    assert(s[0] == 123);
    assert(sp_ws(s, 0) == 0);
    if pairs.len() == 0 {
        assert(mapped.len() == 0);
        assert(ser_members(mapped) =~= Seq::<u8>::empty());
        assert(s =~= seq![123u8, 125u8]);
        assert(s[1] == 125);
        assert(sp_ws(s, 1) == 1);
        assert(sp_object(s, 0) == Some((Seq::<(Seq<u8>, Seq<u8>)>::empty(), 2int)));
        assert(sp_ws(s, 2) == 2);
        assert(mapped =~~= Seq::<(Seq<u8>, Seq<u8>)>::empty());
    } else {
        let k0 = pairs[0].0;
        assert(mapped[0] == (k0, ser_str(pairs[0].1)));
        assert(ser_member(mapped[0]) == ser_str(k0) + seq![58u8] + ser_str(pairs[0].1));
        if mapped.len() == 1 {
            assert(ser_members(mapped) == ser_member(mapped[0]));
        } else {
            assert(ser_members(mapped) == ser_member(mapped[0]) + seq![44u8] + ser_members(
                mapped.skip(1),
            ));
        }
        assert(ser_str(k0)[0] == 34);
        assert(s[1] == 34);
        assert(sp_ws(s, 1) == 1);
        assert forall|k: int| 0 <= k < s.len() - 1 implies s.subrange(1, s.len() as int)[k] == (
        ser_members(mapped) + seq![125u8])[k] by {
            assert(s.subrange(1, s.len() as int)[k] == s[1 + k]);
            assert(s[1 + k] == (seq![123u8] + ser_members(mapped) + seq![125u8])[1 + k]);
        }
        assert(s.subrange(1, s.len() as int) =~= ser_members(mapped) + seq![125u8]);
        lemma_members_ser(s, 1, pairs, Seq::<(Seq<u8>, Seq<u8>)>::empty());
        assert(Seq::<(Seq<u8>, Seq<u8>)>::empty() + mapped =~~= mapped);
        assert(sp_object(s, 0) == Some((mapped, s.len() as int)));
        assert(sp_ws(s, s.len() as int) == s.len());
    }
}


/// One well-formed JSON value with only whitespace around it.
pub open spec fn sp_full_value(s: Seq<u8>) -> bool {
    let a = sp_ws(s, 0);
    match sp_scan_value(s, a) {
        Some(j) => sp_ws(s, j) == s.len(),
        None => false,
    }
}

/// Reports whether the input is one well-formed JSON value with only
/// whitespace around it.
pub fn is_full_value(s: &Vec<u8>) -> (r: bool)
    ensures
        r == sp_full_value(s@),
{
    let a = skip_ws(s, 0);
    match scan_value(s, a) {
        Some(j) => {
            let e = skip_ws(s, j);
            e == s.len()
        },
        None => false,
    }
}


/// Scanning a string body depends only on the bytes up to its closing
/// quote: the same bytes at another position in another text scan to the
/// same decoded string, ending at the shifted position.
#[verifier::rlimit(100)]
proof fn lemma_str_body_transplant(s: Seq<u8>, i: int, acc: Seq<u8>, s2: Seq<u8>, i2: int)
    requires
        sp_str_body(s, i, acc) is Some,
        0 <= i <= s.len(),
        0 <= i2,
        i2 + (sp_str_body(s, i, acc)->Some_0.1 - i) <= s2.len(),
        s2.subrange(i2, i2 + (sp_str_body(s, i, acc)->Some_0.1 - i)) == s.subrange(
            i,
            sp_str_body(s, i, acc)->Some_0.1,
        ),
    ensures
        sp_str_body(s2, i2, acc) == Some(
            (
                sp_str_body(s, i, acc)->Some_0.0,
                i2 + (sp_str_body(s, i, acc)->Some_0.1 - i),
            ),
        ),
    decreases s.len() - i,
{
    let (k, j) = sp_str_body(s, i, acc)->Some_0;
    lemma_str_body_progress(s, i, acc);
    let w = s.subrange(i, j);
    let n = j - i;
    assert forall|d: int| 0 <= d < n implies s2[i2 + d] == #[trigger] s[i + d] by {
        assert(s2.subrange(i2, i2 + n)[d] == s2[i2 + d]);
        assert(s.subrange(i, j)[d] == s[i + d]);
    }
    if s[i] == 34 {
        assert(s2[i2 + 0] == s[i + 0]);
        assert(j == i + 1);
    } else if s[i] == 92 {
        let e = s[i + 1];
        if esc_char_val(e) is Some {
            let acc2 = acc.push(esc_char_val(e)->Some_0);
            lemma_str_body_progress(s, i + 2, acc2);
            assert(s2[i2 + 0] == s[i + 0] && s2[i2 + 1] == s[i + 1]);
            lemma_subrange_shift(s2, i2, w, 2, n);
            lemma_subrange_shift(s, i, w, 2, n);
            lemma_str_body_transplant(s, i + 2, acc2, s2, i2 + 2);
        } else {
            let cp = hex4_val(s, i + 2);
            if 0xD800 <= cp < 0xDC00 {
                let cp2 = hex4_val(s, i + 8);
                let acc2 = acc + utf8_enc(
                    (0x10000 + (cp - 0xD800) * 0x400 + (cp2 - 0xDC00)) as nat,
                );
                lemma_str_body_progress(s, i + 12, acc2);
                assert forall|d: int| 0 <= d < 12 implies s2[i2 + d] == #[trigger] s[i + d] by {
                    assert(0 <= d < n);
                }
                assert(s2[i2 + 2] == s[i + 2] && s2[i2 + 3] == s[i + 3] && s2[i2 + 4] == s[i
                    + 4] && s2[i2 + 5] == s[i + 5]);
                assert(s2[i2 + 6] == s[i + 6] && s2[i2 + 7] == s[i + 7] && s2[i2 + 8] == s[i
                    + 8] && s2[i2 + 9] == s[i + 9] && s2[i2 + 10] == s[i + 10] && s2[i2 + 11]
                    == s[i + 11]);
                assert(hex4_ok(s2, i2 + 2) && hex4_val(s2, i2 + 2) == cp);
                assert(hex4_ok(s2, i2 + 8) && hex4_val(s2, i2 + 8) == cp2);
                lemma_subrange_shift(s2, i2, w, 12, n);
                lemma_subrange_shift(s, i, w, 12, n);
                lemma_str_body_transplant(s, i + 12, acc2, s2, i2 + 12);
            } else {
                let acc2 = acc + utf8_enc(cp);
                lemma_str_body_progress(s, i + 6, acc2);
                assert forall|d: int| 0 <= d < 6 implies s2[i2 + d] == #[trigger] s[i + d] by {
                    assert(0 <= d < n);
                }
                assert(s2[i2 + 2] == s[i + 2] && s2[i2 + 3] == s[i + 3] && s2[i2 + 4] == s[i
                    + 4] && s2[i2 + 5] == s[i + 5]);
                assert(hex4_ok(s2, i2 + 2) && hex4_val(s2, i2 + 2) == cp);
                lemma_subrange_shift(s2, i2, w, 6, n);
                lemma_subrange_shift(s, i, w, 6, n);
                lemma_str_body_transplant(s, i + 6, acc2, s2, i2 + 6);
            }
        }
    } else {
        let acc2 = acc.push(s[i]);
        lemma_str_body_progress(s, i + 1, acc2);
        assert(s2[i2 + 0] == s[i + 0]);
        lemma_subrange_shift(s2, i2, w, 1, n);
        lemma_subrange_shift(s, i, w, 1, n);
        lemma_str_body_transplant(s, i + 1, acc2, s2, i2 + 1);
    }
}

/// Scanning a whole quoted string transplants likewise.
proof fn lemma_string_transplant(s: Seq<u8>, i: int, s2: Seq<u8>, i2: int)
    requires
        sp_string(s, i) is Some,
        0 <= i <= s.len(),
        0 <= i2,
        i2 + (sp_string(s, i)->Some_0.1 - i) <= s2.len(),
        s2.subrange(i2, i2 + (sp_string(s, i)->Some_0.1 - i)) == s.subrange(
            i,
            sp_string(s, i)->Some_0.1,
        ),
    ensures
        sp_string(s2, i2) == Some(
            (sp_string(s, i)->Some_0.0, i2 + (sp_string(s, i)->Some_0.1 - i)),
        ),
{
    let (k, j) = sp_string(s, i)->Some_0;
    lemma_string_progress(s, i);
    let w = s.subrange(i, j);
    let n = j - i;
    assert(s2.subrange(i2, i2 + n)[0] == s2[i2]);
    assert(s.subrange(i, j)[0] == s[i]);
    assert(s2[i2] == 34);
    lemma_str_body_progress(s, i + 1, Seq::<u8>::empty());
    lemma_subrange_shift(s2, i2, w, 1, n);
    lemma_subrange_shift(s, i, w, 1, n);
    lemma_str_body_transplant(s, i + 1, Seq::<u8>::empty(), s2, i2 + 1);
}


/// Scanning a bracketed compound depends only on its own bytes: the same
/// bytes at another position scan to the shifted end.
#[verifier::rlimit(100)]
proof fn lemma_scan_nested_transplant(s: Seq<u8>, i: int, stack: Seq<u8>, s2: Seq<u8>, i2: int)
    requires
        sp_scan_nested(s, i, stack) is Some,
        0 <= i <= s.len(),
        0 <= i2,
        i2 + (sp_scan_nested(s, i, stack)->Some_0 - i) <= s2.len(),
        s2.subrange(i2, i2 + (sp_scan_nested(s, i, stack)->Some_0 - i)) == s.subrange(
            i,
            sp_scan_nested(s, i, stack)->Some_0,
        ),
    ensures
        sp_scan_nested(s2, i2, stack) == Some(i2 + (sp_scan_nested(s, i, stack)->Some_0 - i)),
    decreases s.len() - i,
{
    let j = sp_scan_nested(s, i, stack)->Some_0;
    lemma_scan_nested_progress(s, i, stack);
    let w = s.subrange(i, j);
    let n = j - i;
    if stack.len() == 0 {
        assert(j == i);
    } else {
        assert(i < j);
        assert(s2.subrange(i2, i2 + n)[0] == s2[i2]);
        assert(s.subrange(i, j)[0] == s[i]);
        assert(s2[i2] == s[i]);
        if s[i] == 34 {
            let (k0, j0) = sp_string(s, i)->Some_0;
            lemma_scan_nested_progress(s, j0, stack);
            lemma_subrange_shift(s2, i2, w, 0, j0 - i);
            lemma_subrange_shift(s, i, w, 0, j0 - i);
            lemma_string_transplant(s, i, s2, i2);
            lemma_subrange_shift(s2, i2, w, j0 - i, n);
            lemma_subrange_shift(s, i, w, j0 - i, n);
            lemma_scan_nested_transplant(s, j0, stack, s2, i2 + (j0 - i));
        } else if s[i] == 123 {
            lemma_scan_nested_progress(s, i + 1, stack.push(125));
            lemma_subrange_shift(s2, i2, w, 1, n);
            lemma_subrange_shift(s, i, w, 1, n);
            lemma_scan_nested_transplant(s, i + 1, stack.push(125), s2, i2 + 1);
        } else if s[i] == 91 {
            lemma_scan_nested_progress(s, i + 1, stack.push(93));
            lemma_subrange_shift(s2, i2, w, 1, n);
            lemma_subrange_shift(s, i, w, 1, n);
            lemma_scan_nested_transplant(s, i + 1, stack.push(93), s2, i2 + 1);
        } else if s[i] == 125 || s[i] == 93 {
            lemma_scan_nested_progress(s, i + 1, stack.drop_last());
            lemma_subrange_shift(s2, i2, w, 1, n);
            lemma_subrange_shift(s, i, w, 1, n);
            lemma_scan_nested_transplant(s, i + 1, stack.drop_last(), s2, i2 + 1);
        } else {
            lemma_scan_nested_progress(s, i + 1, stack);
            lemma_subrange_shift(s2, i2, w, 1, n);
            lemma_subrange_shift(s, i, w, 1, n);
            lemma_scan_nested_transplant(s, i + 1, stack, s2, i2 + 1);
        }
    }
}

proof fn lemma_prim_end_transplant(s: Seq<u8>, i: int, s2: Seq<u8>, i2: int)
    requires
        0 <= i <= s.len(),
        0 <= i2,
        i2 + (prim_end(s, i) - i) <= s2.len(),
        s2.subrange(i2, i2 + (prim_end(s, i) - i)) == s.subrange(i, prim_end(s, i)),
        i2 + (prim_end(s, i) - i) == s2.len() || is_delim(s2[i2 + (prim_end(s, i) - i)]),
    ensures
        prim_end(s2, i2) == i2 + (prim_end(s, i) - i),
    decreases s.len() - i,
{
    let j = prim_end(s, i);
    lemma_prim_end_bounds(s, i);
    let w = s.subrange(i, j);
    let n = j - i;
    if i < j {
        assert(!is_delim(s[i]));
        assert(s2.subrange(i2, i2 + n)[0] == s2[i2]);
        assert(s.subrange(i, j)[0] == s[i]);
        assert(prim_end(s, i) == prim_end(s, i + 1));
        lemma_subrange_shift(s2, i2, w, 1, n);
        lemma_subrange_shift(s, i, w, 1, n);
        lemma_prim_end_transplant(s, i + 1, s2, i2 + 1);
    }
}

/// Scanning one value depends only on its own bytes and on whether a
/// delimiter or the end of the text follows it: the same bytes at another
/// position scan to the shifted end.
proof fn lemma_scan_value_transplant(s: Seq<u8>, i: int, s2: Seq<u8>, i2: int)
    requires
        sp_scan_value(s, i) is Some,
        0 <= i <= s.len(),
        0 <= i2,
        i2 + (sp_scan_value(s, i)->Some_0 - i) <= s2.len(),
        s2.subrange(i2, i2 + (sp_scan_value(s, i)->Some_0 - i)) == s.subrange(
            i,
            sp_scan_value(s, i)->Some_0,
        ),
        i2 + (sp_scan_value(s, i)->Some_0 - i) == s2.len() || is_delim(
            s2[i2 + (sp_scan_value(s, i)->Some_0 - i)],
        ),
    ensures
        sp_scan_value(s2, i2) == Some(i2 + (sp_scan_value(s, i)->Some_0 - i)),
{
    let j = sp_scan_value(s, i)->Some_0;
    lemma_scan_value_progress(s, i);
    let w = s.subrange(i, j);
    let n = j - i;
    assert(s2.subrange(i2, i2 + n)[0] == s2[i2]);
    assert(s.subrange(i, j)[0] == s[i]);
    assert(s2[i2] == s[i]);
    if s[i] == 34 {
        lemma_string_transplant(s, i, s2, i2);
    } else if s[i] == 123 {
        lemma_scan_nested_progress(s, i + 1, seq![125u8]);
        lemma_subrange_shift(s2, i2, w, 1, n);
        lemma_subrange_shift(s, i, w, 1, n);
        lemma_scan_nested_transplant(s, i + 1, seq![125u8], s2, i2 + 1);
    } else if s[i] == 91 {
        lemma_scan_nested_progress(s, i + 1, seq![93u8]);
        lemma_subrange_shift(s2, i2, w, 1, n);
        lemma_subrange_shift(s, i, w, 1, n);
        lemma_scan_nested_transplant(s, i + 1, seq![93u8], s2, i2 + 1);
    } else {
        assert(prim_end(s, i) == j);
        lemma_prim_end_transplant(s, i, s2, i2);
        assert(s2.subrange(i2, i2 + n) =~= s.subrange(i, j));
        assert(is_valid_primitive(s2.subrange(i2, prim_end(s2, i2))));
    }
}


/// A raw member value as the scanners produce it: scanning it with a
/// delimiter following consumes it whole.
pub open spec fn raw_span_ok(raw: Seq<u8>) -> bool {
    sp_scan_value(raw.push(44u8), 0) == Some(raw.len() as int)
}

proof fn lemma_members_raws_ok(s: Seq<u8>, i: int, acc: Seq<(Seq<u8>, Seq<u8>)>)
    requires
        0 <= i <= s.len(),
        sp_members(s, i, acc) is Some,
        forall|k: int| 0 <= k < acc.len() ==> raw_span_ok((#[trigger] acc[k]).1),
    ensures
        forall|k: int|
            0 <= k < sp_members(s, i, acc)->Some_0.0.len() ==> raw_span_ok(
                (#[trigger] sp_members(s, i, acc)->Some_0.0[k]).1,
            ),
    decreases s.len() - i,
{
    reveal(sp_members);
    let i1 = sp_ws(s, i);
    lemma_ws_progress(s, i);
    let (key, i2) = sp_string(s, i1)->Some_0;
    lemma_string_progress(s, i1);
    let i3 = sp_ws(s, i2);
    lemma_ws_progress(s, i2);
    let i4 = sp_ws(s, i3 + 1);
    lemma_ws_progress(s, i3 + 1);
    let j = sp_scan_value(s, i4)->Some_0;
    lemma_scan_value_progress(s, i4);
    let raw = s.subrange(i4, j);
    assert(raw_span_ok(raw)) by {
        assert(raw.push(44u8).subrange(0, j - i4) =~= s.subrange(i4, j));
        assert(raw.push(44u8)[j - i4] == 44);
        assert(is_delim(44u8));
        lemma_scan_value_transplant(s, i4, raw.push(44u8), 0);
    }
    let acc2 = acc.push((key, raw));
    assert forall|k: int| 0 <= k < acc2.len() implies raw_span_ok(
        (#[trigger] acc2[k]).1,
    ) by {
        if k < acc.len() {
            assert(acc2[k] == acc[k]);
        }
    }
    let i5 = sp_ws(s, j);
    lemma_ws_progress(s, j);
    if 0 <= i5 && i5 < s.len() && s[i5] == 44 {
        lemma_members_raws_ok(s, i5 + 1, acc2);
    }
}

/// Every member value a parsed top-level object carries is a raw span
/// that re-scans whole.
pub proof fn lemma_top_object_raws_ok(s: Seq<u8>)
    requires
        sp_top_object(s) is Some,
    ensures
        forall|k: int|
            0 <= k < sp_top_object(s)->Some_0.len() ==> raw_span_ok(
                (#[trigger] sp_top_object(s)->Some_0[k]).1,
            ),
{
    let i1 = sp_ws(s, 0);
    lemma_ws_progress(s, 0);
    let i2 = sp_ws(s, i1 + 1);
    lemma_ws_progress(s, i1 + 1);
    if 0 <= i2 && i2 < s.len() && s[i2] == 125 {
    } else {
        lemma_members_raws_ok(s, i1 + 1, Seq::<(Seq<u8>, Seq<u8>)>::empty());
    }
}


proof fn lemma_raw_head_byte(raw: Seq<u8>)
    requires
        raw_span_ok(raw),
    ensures
        raw.len() >= 1,
        !is_ws(raw[0]),
        raw[0] != 58,
{
    lemma_scan_value_progress(raw.push(44u8), 0);
    assert(raw.push(44u8)[0] == raw[0]);
    assert(!(is_delim(raw.push(44u8)[0]) || raw.push(44u8)[0] == 58));
}

/// One serialized member sitting at `i` with a comma or closing brace
/// after it parses as its key, colon and raw value, with no whitespace
/// anywhere between.
#[verifier::rlimit(100)]
proof fn lemma_member_at(s: Seq<u8>, i: int, m: (Seq<u8>, Seq<u8>))
    requires
        raw_span_ok(m.1),
        0 <= i,
        i + ser_member(m).len() < s.len(),
        s.subrange(i, i + ser_member(m).len() as int) == ser_member(m),
        s[i + ser_member(m).len()] == 44 || s[i + ser_member(m).len()] == 125,
    ensures
        sp_ws(s, i) == i,
        sp_string(s, i) == Some((m.0, i + ser_str(m.0).len())),
        s[i + ser_str(m.0).len()] == 58,
        sp_ws(s, i + ser_str(m.0).len()) == i + ser_str(m.0).len(),
        sp_ws(s, i + ser_str(m.0).len() + 1) == i + ser_str(m.0).len() + 1,
        sp_scan_value(s, i + ser_str(m.0).len() + 1) == Some(i + ser_member(m).len() as int),
        s.subrange(i + ser_str(m.0).len() + 1, i + ser_member(m).len() as int) == m.1,
        sp_ws(s, i + ser_member(m).len() as int) == i + ser_member(m).len(),
{
    let k0 = m.0;
    let raw0 = m.1;
    lemma_raw_head_byte(raw0);
    let a0 = ser_str(k0).len() as int;
    let b0 = raw0.len() as int;
    let w = ser_member(m);
    assert(w == ser_str(k0) + seq![58u8] + raw0);
    assert(w.len() == a0 + 1 + b0);
    let e_k = i + a0;
    let j = e_k + 1 + b0;
    lemma_subrange_shift(s, i, w, 0, a0);
    assert(w.subrange(0, a0) =~= ser_str(k0));
    lemma_string_at(s, i, e_k, k0);
    lemma_subrange_shift(s, i, w, a0, a0 + 1);
    assert(w.subrange(a0, a0 + 1) =~= seq![58u8]);
    assert(s.subrange(e_k, e_k + 1)[0] == s[e_k]);
    assert(s[e_k] == 58);
    lemma_subrange_shift(s, i, w, a0 + 1, a0 + 1 + b0);
    assert(w.subrange(a0 + 1, a0 + 1 + b0) =~= raw0);
    assert(s.subrange(e_k + 1, j) == raw0);
    assert(raw0.push(44u8).subrange(0, b0) =~= raw0);
    assert(is_delim(s[j]));
    lemma_scan_value_transplant(raw0.push(44u8), 0, s, e_k + 1);
    assert(ser_str(k0)[0] == 34);
    assert(s.subrange(i, e_k)[0] == s[i]);
    assert(s[i] == 34);
    assert(sp_ws(s, i) == i);
    assert(s.subrange(e_k + 1, j)[0] == s[e_k + 1]);
    assert(s[e_k + 1] == raw0[0]);
    assert(sp_ws(s, e_k) == e_k);
    assert(sp_ws(s, e_k + 1) == e_k + 1);
    assert(sp_ws(s, j) == j);
}

#[verifier::rlimit(100)]
proof fn lemma_members_raw(s: Seq<u8>, i: int, ms: Seq<(Seq<u8>, Seq<u8>)>, acc: Seq<
    (Seq<u8>, Seq<u8>),
>)
    requires
        ms.len() >= 1,
        0 <= i <= s.len(),
        s.subrange(i, s.len() as int) == ser_members(ms) + seq![125u8],
        forall|k: int| 0 <= k < ms.len() ==> raw_span_ok((#[trigger] ms[k]).1),
    ensures
        sp_members(s, i, acc) == Some((acc + ms, s.len() as int)),
    decreases ms.len(),
{
    reveal(sp_members);
    let m0 = ms[0];
    let k0 = m0.0;
    let raw0 = m0.1;
    assert(raw_span_ok(ms[0].1));
    let a0 = ser_str(k0).len() as int;
    let b0 = raw0.len() as int;
    let w = ser_members(ms) + seq![125u8];
    assert(i + w.len() == s.len());
    assert(ser_member(m0) == ser_str(k0) + seq![58u8] + raw0);
    let d = ser_member(m0).len() as int;
    let e_k = i + a0;
    let j = e_k + 1 + b0;
    assert(j == i + d);
    if ms.len() == 1 {
        assert(ser_members(ms) == ser_member(m0));
        assert(w.len() == d + 1);
        lemma_subrange_shift(s, i, w, 0, d);
        assert(w.subrange(0, d) =~= ser_member(m0));
        lemma_subrange_shift(s, i, w, d, d + 1);
        assert(w.subrange(d, d + 1) =~= seq![125u8]);
        assert(s.subrange(j, j + 1)[0] == s[j]);
        assert(s[j] == 125);
        lemma_member_at(s, i, m0);
        assert(j + 1 == s.len());
        assert(acc.push((k0, raw0)) =~~= acc + ms);
        assert(sp_members(s, i, acc) == Some((acc.push((k0, raw0)), j + 1)));
    } else {
        assert(ser_members(ms) == ser_member(m0) + seq![44u8] + ser_members(ms.skip(1)));
        let restm = ser_members(ms.skip(1));
        assert(w =~= ser_member(m0) + seq![44u8] + (restm + seq![125u8]));
        assert(w.len() == d + 1 + restm.len() + 1);
        lemma_subrange_shift(s, i, w, 0, d);
        assert(w.subrange(0, d) =~= ser_member(m0));
        lemma_subrange_shift(s, i, w, d, d + 1);
        assert(w.subrange(d, d + 1) =~= seq![44u8]);
        assert(s.subrange(j, j + 1)[0] == s[j]);
        assert(s[j] == 44);
        lemma_member_at(s, i, m0);
        lemma_subrange_shift(s, i, w, d + 1, w.len() as int);
        assert(w.subrange(d + 1, w.len() as int) =~= restm + seq![125u8]);
        assert(s.subrange(j + 1, s.len() as int) == restm + seq![125u8]);
        assert forall|k: int| 0 <= k < ms.skip(1).len() implies raw_span_ok(
            (#[trigger] ms.skip(1)[k]).1,
        ) by {
            assert(ms.skip(1)[k] == ms[k + 1]);
        }
        lemma_members_raw(s, j + 1, ms.skip(1), acc.push((k0, raw0)));
        assert(acc.push((k0, raw0)) + ms.skip(1) =~~= acc + ms);
        assert(sp_members(s, i, acc) == sp_members(s, j + 1, acc.push((k0, raw0))));
    }
}

/// Part of the round trip: an object whose member values are raw spans as
/// the scanners produce them re-parses from its serialization to exactly
/// the same members.
pub proof fn lemma_object_raw_parse(ms: Seq<(Seq<u8>, Seq<u8>)>)
    requires
        forall|k: int| 0 <= k < ms.len() ==> raw_span_ok((#[trigger] ms[k]).1),
    ensures
        sp_top_object(ser_object(ms)) == Some(ms),
{
    let s = ser_object(ms);
    assert(s[0] == 123);
    assert(sp_ws(s, 0) == 0);
    if ms.len() == 0 {
        assert(ser_members(ms) =~= Seq::<u8>::empty());
        assert(s =~= seq![123u8, 125u8]);
        assert(s[1] == 125);
        assert(sp_ws(s, 1) == 1);
        assert(sp_object(s, 0) == Some((Seq::<(Seq<u8>, Seq<u8>)>::empty(), 2int)));
        assert(sp_ws(s, 2) == 2);
        assert(ms =~~= Seq::<(Seq<u8>, Seq<u8>)>::empty());
    } else {
        let k0 = ms[0].0;
        assert(ser_member(ms[0]) == ser_str(k0) + seq![58u8] + ms[0].1);
        if ms.len() == 1 {
            assert(ser_members(ms) == ser_member(ms[0]));
        } else {
            assert(ser_members(ms) == ser_member(ms[0]) + seq![44u8] + ser_members(ms.skip(1)));
        }
        assert(ser_str(k0)[0] == 34);
        assert(s[1] == 34);
        assert(sp_ws(s, 1) == 1);
        assert forall|k: int| 0 <= k < s.len() - 1 implies s.subrange(1, s.len() as int)[k] == (
        ser_members(ms) + seq![125u8])[k] by {
            assert(s.subrange(1, s.len() as int)[k] == s[1 + k]);
            assert(s[1 + k] == (seq![123u8] + ser_members(ms) + seq![125u8])[1 + k]);
        }
        assert(s.subrange(1, s.len() as int) =~= ser_members(ms) + seq![125u8]);
        lemma_members_raw(s, 1, ms, Seq::<(Seq<u8>, Seq<u8>)>::empty());
        assert(Seq::<(Seq<u8>, Seq<u8>)>::empty() + ms =~~= ms);
        assert(sp_object(s, 0) == Some((ms, s.len() as int)));
        assert(sp_ws(s, s.len() as int) == s.len());
    }
}

} // verus!
