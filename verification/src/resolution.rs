//! Parsing of `WIDTHxHEIGHT` resolution strings.

use vstd::prelude::*;
use crate::text::{chars_of, split_chars, split_on, trim, trim_chars, is_ascii_digit, lemma_split_on_nonempty};

verus! {

/// Base resolutions the scaler knows by name.
pub const SUPPORTED_RESOLUTIONS: [&'static str; 5] = ["1280x720", "1920x1080", "2560x1440", "3840x2160", "5120x2880"];

/// Decimal value of a string of ASCII digits.
pub open spec fn decimal_value(s: Seq<char>) -> nat
    decreases s.len(),
{
    if s.len() == 0 {
        0
    } else {
        decimal_value(s.drop_last()) * 10 + ((s.last() as u32) - ('0' as u32)) as nat
    }
}

pub open spec fn all_digits(s: Seq<char>) -> bool {
    forall|i: int| 0 <= i < s.len() ==> is_ascii_digit(#[trigger] s[i])
}

/// `u32::from_str`: an optional `+`, then one or more ASCII digits whose value
/// fits in 32 bits.
pub open spec fn parse_u32(s: Seq<char>) -> Option<u32> {
    let digits = if s.len() > 0 && s[0] == '+' {
        s.skip(1)
    } else {
        s
    };
    if digits.len() > 0 && all_digits(digits) && decimal_value(digits) <= u32::MAX {
        Some(decimal_value(digits) as u32)
    } else {
        None
    }
}

/// Parses a decimal `u32` as `str::parse::<u32>` does.
pub fn parse_u32_chars(s: &[char]) -> (r: Option<u32>)
    ensures
        r == parse_u32(s@),
{
    let start: usize = if s.len() > 0 && s[0] == '+' { 1 } else { 0 };
    let ghost digits = if s@.len() > 0 && s@[0] == '+' { s@.skip(1) } else { s@ };
    assert(digits =~= s@.subrange(start as int, s@.len() as int));
    if start == s.len() {
        return None;
    }
    // Value so far, capped at 2^32 once it no longer fits.
    let cap: u64 = 0x1_0000_0000;
    let mut acc: u64 = 0;
    let mut i: usize = start;
    while i < s.len()
        invariant
            start <= i <= s@.len(),
            digits == s@.subrange(start as int, s@.len() as int),
            digits == (if s@.len() > 0 && s@[0] == '+' { s@.skip(1) } else { s@ }),
            cap == 0x1_0000_0000u64,
            all_digits(digits.take(i - start)),
            acc == (if decimal_value(digits.take(i - start)) < cap { decimal_value(digits.take(i - start)) } else { cap as nat }),
        decreases s@.len() - i,
    {
        let c = s[i];
        if !('0' <= c && c <= '9') {
            assert(digits[i - start] == c);
            assert(!is_ascii_digit(digits[i - start]));
            assert(!all_digits(digits));
            return None;
        }
        let d = (c as u32 - '0' as u32) as u64;
        let ghost pre = digits.take(i - start);
        assert(digits.take(i - start + 1).drop_last() =~= pre);
        assert(digits.take(i - start + 1).last() == c);
        let next = acc * 10 + d;
        acc = if next >= cap { cap } else { next };
        proof {
            let v = decimal_value(pre);
            assert(decimal_value(digits.take(i - start + 1)) == v * 10 + d);
            assert(all_digits(digits.take(i - start + 1))) by {
                assert forall|k: int| 0 <= k < digits.take(i - start + 1).len() implies is_ascii_digit(
                    #[trigger] digits.take(i - start + 1)[k],
                ) by {
                    if k < i - start {
                        assert(digits.take(i - start + 1)[k] == pre[k]);
                    }
                }
            }
        }
        i += 1;
    }
    assert(digits.take(s@.len() - start) =~= digits);
    if acc >= cap {
        None
    } else {
        Some(acc as u32)
    }
}

/// `WIDTHxHEIGHT` split on `x` only, both parts parsed without trimming.
pub open spec fn parse_resolution_spec(res: Seq<char>) -> Option<(u32, u32)> {
    let parts = split_on(res, seq!['x']);
    if parts.len() != 2 {
        None
    } else {
        match (parse_u32(parts[0]), parse_u32(parts[1])) {
            (Some(w), Some(h)) => Some((w, h)),
            _ => None,
        }
    }
}

/// Parses a resolution string such as `"1920x1080"`.
pub fn parse_resolution(res: &str) -> (r: Option<(u32, u32)>)
    ensures
        r == parse_resolution_spec(res@),
{
    let rv = chars_of(res);
    let seps = vec!['x'];
    assert(seps@ =~= seq!['x']);
    let parts = split_chars(rv.as_slice(), seps.as_slice());
    if parts.len() != 2 {
        return None;
    }
    let w = parse_u32_chars(parts[0].as_slice());
    let h = parse_u32_chars(parts[1].as_slice());
    match (w, h) {
        (Some(w), Some(h)) => Some((w, h)),
        _ => None,
    }
}

/// The ASCII digit of a value below ten.
pub open spec fn digit_char(d: nat) -> char {
    (48 + d) as char
}

/// The decimal digits of a number, most significant first, without leading
/// zeros.
pub open spec fn decimal_digits(v: nat) -> Seq<char>
    decreases v,
{
    if v < 10 {
        seq![digit_char(v)]
    } else {
        decimal_digits(v / 10).push(digit_char(v % 10))
    }
}

proof fn lemma_decimal_digits(v: nat)
    ensures
        decimal_digits(v).len() > 0,
        all_digits(decimal_digits(v)),
        decimal_value(decimal_digits(v)) == v,
    decreases v,
{
    assert((digit_char(v % 10) as u32) == 48 + v % 10);
    assert(('0' as u32) == 48);
    if v < 10 {
        assert(decimal_digits(v).drop_last() =~= Seq::<char>::empty());
        assert(decimal_value(decimal_digits(v)) == decimal_value(Seq::<char>::empty()) * 10 + v);
    }
    if v >= 10 {
        lemma_decimal_digits(v / 10);
        let d = decimal_digits(v);
        assert(d.drop_last() =~= decimal_digits(v / 10));
        assert(d.last() == digit_char(v % 10));
        assert(v == (v / 10) * 10 + v % 10);
        assert(decimal_value(d) == decimal_value(decimal_digits(v / 10)) * 10 + v % 10);
    }
}

/// Splitting a text that holds no separator gives the text itself.
proof fn lemma_split_without_separator(s: Seq<char>, seps: Seq<char>)
    requires
        forall|i: int| 0 <= i < s.len() ==> !seps.contains(#[trigger] s[i]),
    ensures
        split_on(s, seps) == seq![s],
    decreases s.len(),
{
    if s.len() > 0 {
        lemma_split_without_separator(s.drop_last(), seps);
        assert(s.drop_last().push(s.last()) =~= s);
    } else {
        assert(s =~= Seq::<char>::empty());
    }
}

/// Appending separator-free characters extends the last part.
proof fn lemma_split_append(s: Seq<char>, t: Seq<char>, seps: Seq<char>)
    requires
        forall|i: int| 0 <= i < t.len() ==> !seps.contains(#[trigger] t[i]),
    ensures
        split_on(s + t, seps) == split_on(s, seps).update(split_on(s, seps).len() - 1, split_on(s, seps).last() + t),
    decreases t.len(),
{
    lemma_split_on_nonempty(s, seps);
    if t.len() == 0 {
        assert(s + t =~= s);
        assert(split_on(s, seps).last() + t =~= split_on(s, seps).last());
        assert(split_on(s, seps).update(split_on(s, seps).len() - 1, split_on(s, seps).last() + t) =~= split_on(s, seps));
    } else {
        lemma_split_append(s, t.drop_last(), seps);
        assert((s + t).drop_last() =~= s + t.drop_last());
        assert((s + t).last() == t.last());
        let r = split_on(s, seps);
        assert(r.last() + t.drop_last() + seq![t.last()] =~= r.last() + t);
        assert((r.last() + t.drop_last()).push(t.last()) =~= r.last() + t);
        assert(r.update(r.len() - 1, r.last() + t.drop_last()).update(r.len() - 1, (r.last() + t.drop_last()).push(t.last()))
            =~= r.update(r.len() - 1, r.last() + t));
    }
}

/// Writing a width and a height in decimal around an `x` and parsing the
/// text gives back the width and the height.
pub proof fn lemma_resolution_round_trip(w: u32, h: u32)
    ensures
        parse_resolution_spec(decimal_digits(w as nat) + seq!['x'] + decimal_digits(h as nat)) == Some((w, h)),
{
    let a = decimal_digits(w as nat);
    let b = decimal_digits(h as nat);
    let sep = seq!['x'];
    lemma_decimal_digits(w as nat);
    lemma_decimal_digits(h as nat);
    assert forall|i: int| 0 <= i < a.len() implies !sep.contains(#[trigger] a[i]) by {
        assert(is_ascii_digit(a[i]));
    }
    assert forall|i: int| 0 <= i < b.len() implies !sep.contains(#[trigger] b[i]) by {
        assert(is_ascii_digit(b[i]));
    }
    lemma_split_without_separator(a, sep);
    assert((a + sep).drop_last() =~= a);
    assert(split_on(a + sep, sep) =~= seq![a, Seq::<char>::empty()]);
    lemma_split_append(a + sep, b, sep);
    assert(Seq::<char>::empty() + b =~= b);
    assert(split_on(a + sep + b, sep) =~= seq![a, b]);
    assert(is_ascii_digit(a[0]) && is_ascii_digit(b[0]));
}

/// Width and height of a `WIDTHxHEIGHT` (or `WIDTHXHEIGHT`) string, each part
/// trimmed; `None` unless both parse.
pub open spec fn resolution_parts(res: Seq<char>) -> Option<(u32, u32)> {
    let parts = split_on(res, seq!['x', 'X']);
    if parts.len() != 2 {
        None
    } else {
        match (parse_u32(trim(parts[0])), parse_u32(trim(parts[1]))) {
            (Some(w), Some(h)) => Some((w, h)),
            _ => None,
        }
    }
}

pub fn resolution_parts_exec(res: &str) -> (r: Option<(u32, u32)>)
    ensures
        r == resolution_parts(res@),
{
    let rv = chars_of(res);
    let seps = vec!['x', 'X'];
    assert(seps@ =~= seq!['x', 'X']);
    let parts = split_chars(rv.as_slice(), seps.as_slice());
    if parts.len() != 2 {
        return None;
    }
    let a = trim_chars(parts[0].as_slice());
    let b = trim_chars(parts[1].as_slice());
    let w = parse_u32_chars(a.as_slice());
    let h = parse_u32_chars(b.as_slice());
    match (w, h) {
        (Some(w), Some(h)) => Some((w, h)),
        _ => None,
    }
}

/// The region base resolution: both parts positive, or 1920x1080.
pub open spec fn base_resolution(res: Seq<char>) -> (u32, u32) {
    match resolution_parts(res) {
        Some((w, h)) => if w > 0 && h > 0 {
            (w, h)
        } else {
            (1920u32, 1080u32)
        },
        None => (1920u32, 1080u32),
    }
}

/// Parses the region base resolution, falling back to 1920x1080.
pub fn parse_base_resolution(res: &str) -> (r: (u32, u32))
    ensures
        r == base_resolution(res@),
{
    match resolution_parts_exec(res) {
        Some((w, h)) => if w > 0 && h > 0 {
            (w, h)
        } else {
            (1920, 1080)
        },
        None => (1920, 1080),
    }
}

} // verus!
