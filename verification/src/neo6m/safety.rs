//! The texts that the NMEA parser takes without panicking.
//!
//! `nmea_parser::NmeaParser::parse_sentence` panics on four kinds of text
//! (nmea-parser 0.11.0): a checksum slice that cuts a character, a GSV
//! sentence count of `u32::MAX`, a ZDA time-zone offset outside `i32`, and
//! an AIS payload that decodes below `'0'` or is too short for message types
//! 25 and 26. `nmea_parse_panics` names these on the text's bytes.

use vstd::prelude::*;
use vstd::slice::slice_subrange;

use crate::neo6m::framing::{
    byte_views, lemma_split_on_concat, lemma_split_on_len, lemma_split_on_without_sep, split_fields,
    split_on,
};

verus! {

pub const DOLLAR: u8 = 0x24;

pub const BANG: u8 = 0x21;

pub const STAR: u8 = 0x2a;

pub const COMMA: u8 = 0x2c;

pub const PLUS: u8 = 0x2b;

pub const MINUS: u8 = 0x2d;

/// Largest value a digit run is counted up to; above every bound used here.
pub const DIGITS_CAP: u64 = 0x100_0000_0000;

/// A byte that starts an NMEA sentence.
pub open spec fn is_start(b: u8) -> bool {
    b == DOLLAR || b == BANG
}

/// A UTF-8 continuation byte.
pub open spec fn is_continuation(b: u8) -> bool {
    0x80 <= b <= 0xbf
}

/// A decimal digit.
pub open spec fn is_digit(b: u8) -> bool {
    0x30 <= b <= 0x39
}

/// Index of the first `$` or `!` at or after `i`; -1 if there is none.
pub open spec fn first_start_from(b: Seq<u8>, i: int) -> int
    decreases b.len() - i,
{
    if i < 0 || i >= b.len() {
        -1
    } else if is_start(b[i]) {
        i
    } else {
        first_start_from(b, i + 1)
    }
}

/// Index of the last `*` before position `i`; -1 if there is none.
pub open spec fn last_star_before(b: Seq<u8>, i: int) -> int
    decreases i,
{
    if i <= 0 {
        -1
    } else if b[i - 1] == STAR {
        i - 1
    } else {
        last_star_before(b, i - 1)
    }
}

/// What the parser reads of a text: from its first `$` or `!` up to the last
/// `*` after it (where the checksum starts), or to the end.
pub open spec fn nmea_body(b: Seq<u8>) -> Seq<u8> {
    let s = first_start_from(b, 0);
    let t = last_star_before(b, b.len() as int);
    if s < 0 {
        Seq::empty()
    } else if t > s {
        b.subrange(s, t)
    } else {
        b.subrange(s, b.len() as int)
    }
}

/// The comma-separated fields of what the parser reads; the first is the
/// sentence type.
pub open spec fn nmea_fields(b: Seq<u8>) -> Seq<Seq<u8>> {
    split_on(nmea_body(b), COMMA)
}

/// The sentence type `t` names the message `k` (four bytes such as `$GSV`):
/// it is `k`, or six bytes long with a two-letter talker after the start byte.
pub open spec fn is_kind(t: Seq<u8>, k: Seq<u8>) -> bool {
    (t.len() == 6 && t[0] == k[0] && t[3] == k[1] && t[4] == k[2] && t[5] == k[3]) || t == k
}

/// Every byte is a decimal digit.
pub open spec fn all_digits(d: Seq<u8>) -> bool {
    forall|i: int| 0 <= i < d.len() ==> is_digit(#[trigger] d[i])
}

/// The value of a run of decimal digits.
pub open spec fn digits_value(d: Seq<u8>) -> int
    decreases d.len(),
{
    if d.len() == 0 {
        0
    } else {
        digits_value(d.drop_last()) * 10 + (d.last() - 0x30)
    }
}

/// `f` without its leading sign (`+`, or for a signed field also `-`), if it
/// has one.
pub open spec fn unsigned_part(f: Seq<u8>, signed: bool) -> Seq<u8> {
    if f.len() > 0 && (f[0] == PLUS || (signed && f[0] == MINUS)) {
        f.drop_first()
    } else {
        f
    }
}

/// What `u32::from_str` makes of a field: an optional `+`, at least one
/// digit, and a value that fits.
pub open spec fn u32_field(f: Seq<u8>) -> Option<int> {
    let d = unsigned_part(f, false);
    if d.len() > 0 && all_digits(d) && digits_value(d) <= 0xffff_ffff {
        Some(digits_value(d))
    } else {
        None
    }
}

/// What `i32::from_str` makes of a field: an optional sign, at least one
/// digit, and a value that fits.
pub open spec fn i32_field(f: Seq<u8>) -> Option<int> {
    let d = unsigned_part(f, true);
    let v = if f.len() > 0 && f[0] == MINUS {
        -digits_value(d)
    } else {
        digits_value(d)
    };
    if d.len() > 0 && all_digits(d) && in_i32(v) {
        Some(v)
    } else {
        None
    }
}

/// `x` fits an `i32`.
pub open spec fn in_i32(x: int) -> bool {
    -0x8000_0000 <= x <= 0x7fff_ffff
}

/// The ZDA time-zone offset `hour * 3600 + hour.signum() * minute * 60`
/// leaves `i32` at some step.
pub open spec fn offset_overflows(hour: int, minute: int) -> bool {
    let a = hour * 3600;
    let b = if hour > 0 {
        minute
    } else if hour < 0 {
        -minute
    } else {
        0
    };
    let c = b * 60;
    !in_i32(a) || !in_i32(b) || !in_i32(c) || !in_i32(a + c)
}

/// A character of `p` ends at byte `j`.
pub open spec fn char_ends_at(p: Seq<u8>, j: int) -> bool {
    0 <= j < p.len() && (j + 1 == p.len() || !is_continuation(p[j + 1]))
}

/// The low byte of the code point of the character that ends at byte `j`
/// (what `c as u8` gives).
pub open spec fn char_low_byte(p: Seq<u8>, j: int) -> int {
    if p[j] < 0x80 {
        p[j] as int
    } else if j == 0 {
        (p[j] % 64) as int
    } else {
        (p[j - 1] % 4) * 64 + p[j] % 64
    }
}

/// The first byte at or after `j` at which a character ends; -1 if none.
pub open spec fn first_char_end_from(p: Seq<u8>, j: int) -> int
    decreases p.len() - j,
{
    if j < 0 || j >= p.len() {
        -1
    } else if char_ends_at(p, j) {
        j
    } else {
        first_char_end_from(p, j + 1)
    }
}

/// An AIS payload with a character below `'0'`, which the decoding's
/// `(c as u8) - 48` underflows on.
pub open spec fn payload_underflows(p: Seq<u8>) -> bool {
    exists|j: int| char_ends_at(p, j) && #[trigger] char_low_byte(p, j) < 48
}

/// The AIS message type that the first character of a payload gives.
pub open spec fn ais_type(p: Seq<u8>) -> int {
    let ci = char_low_byte(p, first_char_end_from(p, 0)) - 48;
    (if ci > 40 {
        ci - 8
    } else {
        ci
    }) % 64
}

pub open spec fn kind_gsv() -> Seq<u8> {
    seq![DOLLAR, 0x47, 0x53, 0x56]
}

pub open spec fn kind_zda() -> Seq<u8> {
    seq![DOLLAR, 0x5a, 0x44, 0x41]
}

pub open spec fn kind_vdm() -> Seq<u8> {
    seq![BANG, 0x56, 0x44, 0x4d]
}

pub open spec fn kind_vdo() -> Seq<u8> {
    seq![BANG, 0x56, 0x44, 0x4f]
}

/// The parser can panic on the text with bytes `b`: the two checksum bytes
/// after the last `*` cut a character; a GSV sentence counts `u32::MAX`
/// messages; a ZDA time-zone offset overflows; or an AIS sentence's payload
/// has a character below `'0'` or announces message type 25 or 26 (whose
/// decoding slices past the end of a short payload). Each kind is named
/// whether or not the checksum or an earlier field would have refused the
/// sentence first, and types 25 and 26 whatever their length.
pub open spec fn nmea_parse_panics(b: Seq<u8>) -> bool {
    let s = first_start_from(b, 0);
    let t = last_star_before(b, b.len() as int);
    let fs = nmea_fields(b);
    let ais = is_kind(fs[0], kind_vdm()) || is_kind(fs[0], kind_vdo());
    ||| s >= 0 && t > s && t + 3 < b.len() && is_continuation(b[t + 3])
    ||| is_kind(fs[0], kind_gsv()) && fs.len() > 1 && u32_field(fs[1]) == Some(0xffff_ffffint)
    ||| is_kind(fs[0], kind_zda()) && fs.len() > 5 && i32_field(fs[5]) is Some && (if fs.len()
        > 6 {
        i32_field(fs[6])
    } else {
        Some(0int)
    }) is Some && offset_overflows(
        i32_field(fs[5])->0,
        if fs.len() > 6 {
            i32_field(fs[6])->0
        } else {
            0
        },
    )
    ||| ais && fs.len() > 5 && payload_underflows(fs[5])
    ||| ais && fs.len() > 5 && fs[5].len() > 0 && (ais_type(fs[5]) == 25 || ais_type(fs[5])
        == 26)
}

/// A first start found is a start byte inside `b`.
proof fn lemma_first_start_range(b: Seq<u8>, i: int)
    requires
        0 <= i,
    ensures
        first_start_from(b, i) == -1 || (i <= first_start_from(b, i) < b.len() && is_start(
            b[first_start_from(b, i)],
        )),
    decreases b.len() - i,
{
    if i < b.len() && !is_start(b[i]) {
        lemma_first_start_range(b, i + 1);
    }
}

/// A last `*` found before `i` is a `*` inside `b` before `i`.
proof fn lemma_last_star_range(b: Seq<u8>, i: int)
    requires
        0 <= i <= b.len(),
    ensures
        last_star_before(b, i) == -1 || (0 <= last_star_before(b, i) < i && b[last_star_before(b, i)]
            == STAR),
    decreases i,
{
    if i > 0 && b[i - 1] != STAR {
        lemma_last_star_range(b, i - 1);
    }
}

/// The first `$` or `!` of `b`.
fn first_start(b: &[u8]) -> (s: Option<usize>)
    ensures
        match s {
            Some(k) => k as int == first_start_from(b@, 0),
            None => first_start_from(b@, 0) == -1,
        },
{
    let n = b.len();
    for i in 0..n
        invariant
            n == b@.len(),
            first_start_from(b@, 0) == first_start_from(b@, i as int),
    {
        if b[i] == DOLLAR || b[i] == BANG {
            return Some(i);
        }
    }
    None
}

/// The last `*` of `b`.
fn last_star(b: &[u8]) -> (t: Option<usize>)
    ensures
        match t {
            Some(k) => k as int == last_star_before(b@, b@.len() as int),
            None => last_star_before(b@, b@.len() as int) == -1,
        },
{
    let n = b.len();
    let mut last: Option<usize> = None;
    for i in 0..n
        invariant
            n == b@.len(),
            match last {
                Some(k) => k as int == last_star_before(b@, i as int),
                None => last_star_before(b@, i as int) == -1,
            },
    {
        if b[i] == STAR {
            last = Some(i);
        }
    }
    last
}

/// Whether the sentence type `t` names the message `k0 k1 k2 k3`.
fn kind_is(t: &[u8], k0: u8, k1: u8, k2: u8, k3: u8) -> (yes: bool)
    ensures
        yes == is_kind(t@, seq![k0, k1, k2, k3]),
{
    let ghost k = seq![k0, k1, k2, k3];
    if t.len() == 6 && t[0] == k0 && t[3] == k1 && t[4] == k2 && t[5] == k3 {
        return true;
    }
    if t.len() == 4 && t[0] == k0 && t[1] == k1 && t[2] == k2 && t[3] == k3 {
        assert(t@ =~= k);
        return true;
    }
    proof {
        if t@ == k {
            assert(t@[0] == k0 && t@[1] == k1 && t@[2] == k2 && t@[3] == k3);
        }
    }
    false
}

/// Whether every byte of `d` is a decimal digit.
fn digits_only(d: &[u8]) -> (yes: bool)
    ensures
        yes == all_digits(d@),
{
    let n = d.len();
    for i in 0..n
        invariant
            n == d@.len(),
            forall|j: int| 0 <= j < i ==> is_digit(#[trigger] d@[j]),
    {
        if !(0x30 <= d[i] && d[i] <= 0x39) {
            assert(!is_digit(d@[i as int]));
            return false;
        }
    }
    true
}

/// The value of a run of digits, counted up to `DIGITS_CAP`.
fn digits_capped(d: &[u8]) -> (v: u64)
    requires
        all_digits(d@),
    ensures
        v == (if digits_value(d@) < DIGITS_CAP {
            digits_value(d@)
        } else {
            DIGITS_CAP as int
        }),
{
    let n = d.len();
    let mut v: u64 = 0;
    assert(d@.take(0) =~= Seq::<u8>::empty());
    for i in 0..n
        invariant
            n == d@.len(),
            all_digits(d@),
            digits_value(d@.take(i as int)) >= 0,
            v == (if digits_value(d@.take(i as int)) < DIGITS_CAP {
                digits_value(d@.take(i as int))
            } else {
                DIGITS_CAP as int
            }),
    {
        assert(d@.take(i + 1).drop_last() =~= d@.take(i as int));
        assert(d@.take(i + 1).last() == d@[i as int]);
        assert(is_digit(d@[i as int]));
        if v < DIGITS_CAP {
            let next: u64 = v * 10 + (d[i] - 0x30) as u64;
            v = if next < DIGITS_CAP {
                next
            } else {
                DIGITS_CAP
            };
        }
    }
    assert(d@.take(n as int) =~= d@);
    v
}

/// Whether `u32::from_str` reads `f` as `u32::MAX`.
fn u32_field_is_max(f: &[u8]) -> (yes: bool)
    ensures
        yes == (u32_field(f@) == Some(0xffff_ffffint)),
{
    let d: &[u8] = if f.len() > 0 && f[0] == PLUS {
        slice_subrange(f, 1, f.len())
    } else {
        f
    };
    assert(d@ =~= unsigned_part(f@, false));
    if d.len() == 0 || !digits_only(d) {
        return false;
    }
    digits_capped(d) == 0xffff_ffff
}

/// What `i32::from_str` reads `f` as.
fn i32_field_value(f: &[u8]) -> (r: Option<i64>)
    ensures
        match r {
            Some(v) => i32_field(f@) == Some(v as int),
            None => i32_field(f@) is None,
        },
{
    let signed = f.len() > 0 && (f[0] == PLUS || f[0] == MINUS);
    let d: &[u8] = if signed {
        slice_subrange(f, 1, f.len())
    } else {
        f
    };
    assert(d@ =~= unsigned_part(f@, true));
    if d.len() == 0 || !digits_only(d) {
        return None;
    }
    let c = digits_capped(d);
    if c > 0x8000_0000 {
        return None;
    }
    let v: i64 = if f[0] == MINUS {
        -(c as i64)
    } else {
        c as i64
    };
    if v < -0x8000_0000 || v > 0x7fff_ffff {
        return None;
    }
    Some(v)
}

/// Whether the ZDA time-zone offset overflows for `hour` and `minute`.
fn offset_overflows_exec(hour: i64, minute: i64) -> (yes: bool)
    requires
        in_i32(hour as int),
        in_i32(minute as int),
    ensures
        yes == offset_overflows(hour as int, minute as int),
{
    let a: i64 = hour * 3600;
    let b: i64 = if hour > 0 {
        minute
    } else if hour < 0 {
        -minute
    } else {
        0
    };
    let c: i64 = b * 60;
    let lo: i64 = -0x8000_0000;
    let hi: i64 = 0x7fff_ffff;
    a < lo || a > hi || b < lo || b > hi || c < lo || c > hi || a + c < lo || a + c > hi
}

/// The low byte of the code point of the character ending at byte `j`.
fn low_byte_at(p: &[u8], j: usize) -> (lb: u8)
    requires
        j < p@.len(),
    ensures
        lb as int == char_low_byte(p@, j as int),
{
    if p[j] < 0x80 {
        p[j]
    } else if j == 0 {
        p[j] % 64
    } else {
        (p[j - 1] % 4) * 64 + p[j] % 64
    }
}

/// Whether an AIS payload makes the parser panic.
fn payload_panics(p: &[u8]) -> (yes: bool)
    ensures
        yes == (payload_underflows(p@) || (p@.len() > 0 && (ais_type(p@) == 25 || ais_type(p@)
            == 26))),
{
    let n = p.len();
    for j in 0..n
        invariant
            n == p@.len(),
            forall|k: int| 0 <= k < j ==> !(char_ends_at(p@, k) && #[trigger] char_low_byte(p@, k) < 48),
    {
        let ends = j + 1 == n || !(0x80 <= p[j + 1] && p[j + 1] <= 0xbf);
        assert(ends == char_ends_at(p@, j as int));
        if ends && low_byte_at(p, j) < 48 {
            return true;
        }
    }
    if n == 0 {
        return false;
    }
    let mut e: usize = 0;
    while e + 1 < n && 0x80 <= p[e + 1] && p[e + 1] <= 0xbf
        invariant
            n == p@.len(),
            n > 0,
            e < n,
            first_char_end_from(p@, 0) == first_char_end_from(p@, e as int),
        decreases n - e,
    {
        e = e + 1;
    }
    assert(char_ends_at(p@, e as int));
    assert(first_char_end_from(p@, e as int) == e);
    let lb = low_byte_at(p, e);
    assert(char_low_byte(p@, e as int) >= 48);
    let ci: u8 = lb - 48;
    let ci2: u8 = if ci > 40 {
        ci - 8
    } else {
        ci
    };
    let t = ci2 % 64;
    t == 25 || t == 26
}

/// Whether the parser takes the text with bytes `b` without panicking.
pub fn parses_safely(b: &[u8]) -> (ok: bool)
    ensures
        ok == !nmea_parse_panics(b@),
{
    let n = b.len();
    let s = first_start(b);
    let t = last_star(b);
    let ghost sg = first_start_from(b@, 0);
    let ghost tg = last_star_before(b@, n as int);
    proof {
        lemma_first_start_range(b@, 0);
        lemma_last_star_range(b@, n as int);
    }
    if let (Some(si), Some(ti)) = (s, t) {
        if ti > si && n - ti > 3 && 0x80 <= b[ti + 3] && b[ti + 3] <= 0xbf {
            return false;
        }
    }
    assert(!(sg >= 0 && tg > sg && tg + 3 < n && is_continuation(b@[tg + 3])));
    let empty: Vec<u8> = Vec::new();
    let body: &[u8] = match s {
        None => empty.as_slice(),
        Some(si) => match t {
            Some(ti) => if ti > si {
                slice_subrange(b, si, ti)
            } else {
                slice_subrange(b, si, n)
            },
            None => slice_subrange(b, si, n),
        },
    };
    assert(body@ =~= nmea_body(b@));
    let fs = split_fields(body, COMMA);
    proof {
        lemma_split_on_len(body@, COMMA);
    }
    let ghost fsg = nmea_fields(b@);
    assert(byte_views(fs@) == fsg);
    assert(fs@[0]@ == fsg[0]);
    let kind = fs[0].as_slice();
    let nf = fs.len();
    if kind_is(kind, DOLLAR, 0x47, 0x53, 0x56) && nf > 1 {
        assert(fs@[1]@ == fsg[1]);
        if u32_field_is_max(fs[1].as_slice()) {
            return false;
        }
    }
    if kind_is(kind, DOLLAR, 0x5a, 0x44, 0x41) && nf > 5 {
        assert(fs@[5]@ == fsg[5]);
        if nf > 6 {
            assert(fs@[6]@ == fsg[6]);
        }
        let h = i32_field_value(fs[5].as_slice());
        let m = if nf > 6 {
            i32_field_value(fs[6].as_slice())
        } else {
            Some(0)
        };
        if let (Some(hv), Some(mv)) = (h, m) {
            if offset_overflows_exec(hv, mv) {
                return false;
            }
        }
    }
    if (kind_is(kind, BANG, 0x56, 0x44, 0x4d) || kind_is(kind, BANG, 0x56, 0x44, 0x4f)) && nf > 5 {
        assert(fs@[5]@ == fsg[5]);
        if payload_panics(fs[5].as_slice()) {
            return false;
        }
    }
    true
}

/// With no `*` before `i`, none is found.
proof fn lemma_no_star_before(b: Seq<u8>, i: int)
    requires
        0 <= i <= b.len(),
        forall|j: int| 0 <= j < i ==> b[j] != STAR,
    ensures
        last_star_before(b, i) == -1,
    decreases i,
{
    if i > 0 {
        lemma_no_star_before(b, i - 1);
    }
}

/// The last `*` before `i` is found.
proof fn lemma_last_star_at(b: Seq<u8>, k: int, i: int)
    requires
        0 <= k < i <= b.len(),
        b[k] == STAR,
        forall|j: int| k < j < i ==> b[j] != STAR,
    ensures
        last_star_before(b, i) == k,
    decreases i,
{
    if i - 1 > k {
        lemma_last_star_at(b, k, i - 1);
    }
}

/// A start byte at `k` bounds the first one found from `i`.
proof fn lemma_first_start_at_most(b: Seq<u8>, i: int, k: int)
    requires
        0 <= i <= k < b.len(),
        is_start(b[k]),
    ensures
        i <= first_start_from(b, i) <= k,
    decreases k - i,
{
    if !is_start(b[i]) {
        lemma_first_start_at_most(b, i + 1, k);
    }
}

/// With no start byte from `i` on, none is found.
proof fn lemma_no_start_from(b: Seq<u8>, i: int)
    requires
        0 <= i,
        forall|j: int| i <= j < b.len() ==> !is_start(b[j]),
    ensures
        first_start_from(b, i) == -1,
    decreases b.len() - i,
{
    if i < b.len() {
        lemma_no_start_from(b, i + 1);
    }
}

/// Text with neither `$` nor `!` is safe: the parser refuses it before
/// looking further.
pub proof fn lemma_no_start_safe(b: Seq<u8>)
    requires
        forall|j: int| 0 <= j < b.len() ==> b[j] != DOLLAR && b[j] != BANG,
    ensures
        !nmea_parse_panics(b),
{
    lemma_no_start_from(b, 0);
    let one: Seq<Seq<u8>> = seq![Seq::empty()];
    assert(split_on(Seq::<u8>::empty(), COMMA) == one);
    assert(nmea_fields(b) == one);
}

/// ASCII text without a comma is safe: the checksum slice cuts no character
/// and there is no field after the sentence type.
pub proof fn lemma_ascii_without_comma_safe(b: Seq<u8>)
    requires
        forall|j: int| 0 <= j < b.len() ==> b[j] < 0x80 && b[j] != COMMA,
    ensures
        !nmea_parse_panics(b),
{
    let body = nmea_body(b);
    lemma_first_start_range(b, 0);
    lemma_last_star_range(b, b.len() as int);
    assert(!body.contains(COMMA)) by {
        if body.contains(COMMA) {
            let j = choose|j: int| 0 <= j < body.len() && body[j] == COMMA;
            let s = first_start_from(b, 0);
            assert(body[j] == b[s + j]);
        }
    }
    lemma_split_on_without_sep(body, COMMA);
}

/// The bytes of `u32::MAX` in decimal.
pub open spec fn u32_max_digits() -> Seq<u8> {
    seq![0x34, 0x32, 0x39, 0x34, 0x39, 0x36, 0x37, 0x32, 0x39, 0x35]
}

/// A GSV sentence, with any talker and any fields after it, whose message
/// count is `4294967295` is flagged: the parser's `msg_count + 1` overflows.
pub proof fn lemma_gsv_count_max_flagged(talker: Seq<u8>, rest: Seq<u8>)
    requires
        talker.len() == 2,
        !talker.contains(COMMA),
        !talker.contains(STAR),
        !rest.contains(STAR),
    ensures
        nmea_parse_panics(
            seq![DOLLAR] + talker + seq![0x47, 0x53, 0x56] + seq![COMMA] + u32_max_digits() + seq![
                COMMA,
            ] + rest,
        ),
{
    let a = seq![DOLLAR] + talker + seq![0x47, 0x53, 0x56];
    let d = u32_max_digits();
    let tail = d + seq![COMMA] + rest;
    let b = seq![DOLLAR] + talker + seq![0x47, 0x53, 0x56] + seq![COMMA] + d + seq![COMMA] + rest;
    assert(b =~= a + seq![COMMA] + tail);
    assert(b[0] == DOLLAR);
    assert(first_start_from(b, 0) == 0);
    assert forall|j: int| 0 <= j < b.len() implies b[j] != STAR by {
        if 1 <= j < 3 {
            assert(b[j] == talker[j - 1]);
        } else if j >= 18 {
            assert(b[j] == rest[j - 18]);
        }
    }
    lemma_no_star_before(b, b.len() as int);
    assert(nmea_body(b) =~= b);
    assert(!a.contains(COMMA)) by {
        if a.contains(COMMA) {
            let j = choose|j: int| 0 <= j < a.len() && a[j] == COMMA;
            if 1 <= j < 3 {
                assert(talker[j - 1] == COMMA);
            }
        }
    }
    assert(!d.contains(COMMA));
    lemma_split_on_concat(a, tail, COMMA);
    lemma_split_on_concat(d, rest, COMMA);
    lemma_split_on_without_sep(a, COMMA);
    lemma_split_on_without_sep(d, COMMA);
    let fs = nmea_fields(b);
    assert(fs =~= seq![a] + (seq![d] + split_on(rest, COMMA)));
    assert(fs[0] == a);
    assert(fs[1] == d);
    assert(is_kind(a, kind_gsv()));
    assert(unsigned_part(d, false) == d);
    assert(all_digits(d));
    reveal_with_fuel(digits_value, 11);
    assert(digits_value(d) == 0xffff_ffff);
}

/// A dollar or bang, a `*`, two bytes and then a continuation byte: the
/// parser's two-byte checksum slice ends inside a character, whatever comes
/// before and after.
pub proof fn lemma_checksum_cut_flagged(pre: Seq<u8>, k: int, x: u8, y: u8, z: u8, post: Seq<u8>)
    requires
        0 <= k < pre.len(),
        is_start(pre[k]),
        x != STAR,
        y != STAR,
        is_continuation(z),
        !post.contains(STAR),
    ensures
        nmea_parse_panics(pre + seq![STAR, x, y, z] + post),
{
    let b = pre + seq![STAR, x, y, z] + post;
    let t = pre.len() as int;
    assert(b[k] == pre[k]);
    lemma_first_start_at_most(b, 0, k);
    assert(b[t] == STAR);
    assert forall|j: int| t < j < b.len() implies b[j] != STAR by {
        if j >= t + 4 {
            assert(b[j] == post[j - t - 4]);
        }
    }
    lemma_last_star_at(b, t, b.len() as int);
    assert(b[t + 3] == z);
}

/// The bytes of an AIS VDM or VDO sentence with the given talker and fields.
pub open spec fn ais_sentence(
    talker: Seq<u8>,
    last: u8,
    f1: Seq<u8>,
    f2: Seq<u8>,
    f3: Seq<u8>,
    f4: Seq<u8>,
    payload: Seq<u8>,
    rest: Seq<u8>,
) -> Seq<u8> {
    seq![BANG] + talker + seq![0x56, 0x44, last] + seq![COMMA] + f1 + seq![COMMA] + f2 + seq![COMMA]
        + f3 + seq![COMMA] + f4 + seq![COMMA] + payload + seq![COMMA] + rest
}

/// What the parser reads of such a sentence: an AIS type and the payload as
/// the fifth field.
proof fn lemma_ais_sentence_fields(
    talker: Seq<u8>,
    last: u8,
    f1: Seq<u8>,
    f2: Seq<u8>,
    f3: Seq<u8>,
    f4: Seq<u8>,
    payload: Seq<u8>,
    rest: Seq<u8>,
)
    requires
        talker.len() == 2,
        last == 0x4d || last == 0x4f,
        !talker.contains(COMMA) && !talker.contains(STAR),
        !f1.contains(COMMA) && !f1.contains(STAR),
        !f2.contains(COMMA) && !f2.contains(STAR),
        !f3.contains(COMMA) && !f3.contains(STAR),
        !f4.contains(COMMA) && !f4.contains(STAR),
        !payload.contains(COMMA) && !payload.contains(STAR),
        !rest.contains(STAR),
    ensures
        ({
            let fs = nmea_fields(ais_sentence(talker, last, f1, f2, f3, f4, payload, rest));
            &&& fs.len() > 5
            &&& is_kind(fs[0], kind_vdm()) || is_kind(fs[0], kind_vdo())
            &&& fs[5] == payload
        }),
{
    let a = seq![BANG] + talker + seq![0x56, 0x44, last];
    let b = seq![BANG] + talker + seq![0x56, 0x44, last] + seq![COMMA] + f1 + seq![COMMA] + f2
        + seq![COMMA] + f3 + seq![COMMA] + f4 + seq![COMMA] + payload + seq![COMMA] + rest;
    let t5 = payload + seq![COMMA] + rest;
    let t4 = f4 + seq![COMMA] + t5;
    let t3 = f3 + seq![COMMA] + t4;
    let t2 = f2 + seq![COMMA] + t3;
    let t1 = f1 + seq![COMMA] + t2;
    assert(b =~= a + seq![COMMA] + t1);
    assert(b[0] == BANG);
    assert(first_start_from(b, 0) == 0);
    assert(!a.contains(STAR) && !a.contains(COMMA)) by {
        if a.contains(STAR) || a.contains(COMMA) {
            let i = choose|i: int| 0 <= i < a.len() && (a[i] == STAR || a[i] == COMMA);
            if 1 <= i < 3 {
                assert(talker[i - 1] == a[i]);
            }
        }
    }
    lemma_no_star_in_concat(a, seq![COMMA]);
    lemma_no_star_in_concat(a + seq![COMMA], f1);
    lemma_no_star_in_concat(a + seq![COMMA] + f1, seq![COMMA]);
    lemma_no_star_in_concat(a + seq![COMMA] + f1 + seq![COMMA], f2);
    lemma_no_star_in_concat(a + seq![COMMA] + f1 + seq![COMMA] + f2, seq![COMMA]);
    lemma_no_star_in_concat(a + seq![COMMA] + f1 + seq![COMMA] + f2 + seq![COMMA], f3);
    lemma_no_star_in_concat(a + seq![COMMA] + f1 + seq![COMMA] + f2 + seq![COMMA] + f3, seq![COMMA]);
    lemma_no_star_in_concat(a + seq![COMMA] + f1 + seq![COMMA] + f2 + seq![COMMA] + f3 + seq![COMMA], f4);
    lemma_no_star_in_concat(
        a + seq![COMMA] + f1 + seq![COMMA] + f2 + seq![COMMA] + f3 + seq![COMMA] + f4,
        seq![COMMA],
    );
    lemma_no_star_in_concat(
        a + seq![COMMA] + f1 + seq![COMMA] + f2 + seq![COMMA] + f3 + seq![COMMA] + f4 + seq![COMMA],
        payload,
    );
    lemma_no_star_in_concat(
        a + seq![COMMA] + f1 + seq![COMMA] + f2 + seq![COMMA] + f3 + seq![COMMA] + f4 + seq![COMMA]
            + payload,
        seq![COMMA],
    );
    lemma_no_star_in_concat(
        a + seq![COMMA] + f1 + seq![COMMA] + f2 + seq![COMMA] + f3 + seq![COMMA] + f4 + seq![COMMA]
            + payload + seq![COMMA],
        rest,
    );
    assert forall|i: int| 0 <= i < b.len() implies b[i] != STAR by {
        assert(!b.contains(STAR));
    }
    lemma_no_star_before(b, b.len() as int);
    assert(nmea_body(b) =~= b);
    lemma_split_on_concat(a, t1, COMMA);
    lemma_split_on_concat(f1, t2, COMMA);
    lemma_split_on_concat(f2, t3, COMMA);
    lemma_split_on_concat(f3, t4, COMMA);
    lemma_split_on_concat(f4, t5, COMMA);
    lemma_split_on_concat(payload, rest, COMMA);
    lemma_split_on_without_sep(a, COMMA);
    lemma_split_on_without_sep(f1, COMMA);
    lemma_split_on_without_sep(f2, COMMA);
    lemma_split_on_without_sep(f3, COMMA);
    lemma_split_on_without_sep(f4, COMMA);
    lemma_split_on_without_sep(payload, COMMA);
    let fs = nmea_fields(b);
    assert(fs =~= seq![a] + (seq![f1] + (seq![f2] + (seq![f3] + (seq![f4] + (seq![payload]
        + split_on(rest, COMMA)))))));
    assert(fs[0] == a);
    assert(fs[5] == payload);
    assert(is_kind(a, kind_vdm()) || is_kind(a, kind_vdo()));
}

/// An AIS VDM or VDO sentence, with any talker and fields, whose payload
/// (the fifth field) holds an ASCII byte below `'0'` is flagged: the
/// parser's `(c as u8) - 48` underflows.
pub proof fn lemma_ais_low_payload_flagged(
    talker: Seq<u8>,
    last: u8,
    f1: Seq<u8>,
    f2: Seq<u8>,
    f3: Seq<u8>,
    f4: Seq<u8>,
    payload: Seq<u8>,
    j: int,
    rest: Seq<u8>,
)
    requires
        talker.len() == 2,
        last == 0x4d || last == 0x4f,
        !talker.contains(COMMA) && !talker.contains(STAR),
        !f1.contains(COMMA) && !f1.contains(STAR),
        !f2.contains(COMMA) && !f2.contains(STAR),
        !f3.contains(COMMA) && !f3.contains(STAR),
        !f4.contains(COMMA) && !f4.contains(STAR),
        !payload.contains(COMMA) && !payload.contains(STAR),
        !rest.contains(STAR),
        0 <= j < payload.len(),
        payload[j] < 0x30,
        j + 1 == payload.len() || payload[j + 1] < 0x80,
    ensures
        nmea_parse_panics(ais_sentence(talker, last, f1, f2, f3, f4, payload, rest)),
{
    lemma_ais_sentence_fields(talker, last, f1, f2, f3, f4, payload, rest);
    assert(char_ends_at(payload, j));
    assert(char_low_byte(payload, j) < 48);
}

/// An AIS VDM or VDO sentence, with any talker and fields, whose payload
/// starts with `I` or `J` (message type 25 or 26) is flagged: the decoders of
/// these types slice past the end of a short payload.
pub proof fn lemma_ais_type_25_26_flagged(
    talker: Seq<u8>,
    last: u8,
    f1: Seq<u8>,
    f2: Seq<u8>,
    f3: Seq<u8>,
    f4: Seq<u8>,
    payload: Seq<u8>,
    rest: Seq<u8>,
)
    requires
        talker.len() == 2,
        last == 0x4d || last == 0x4f,
        !talker.contains(COMMA) && !talker.contains(STAR),
        !f1.contains(COMMA) && !f1.contains(STAR),
        !f2.contains(COMMA) && !f2.contains(STAR),
        !f3.contains(COMMA) && !f3.contains(STAR),
        !f4.contains(COMMA) && !f4.contains(STAR),
        !payload.contains(COMMA) && !payload.contains(STAR),
        !rest.contains(STAR),
        payload.len() > 0,
        payload[0] == 0x49 || payload[0] == 0x4a,
        payload.len() == 1 || payload[1] < 0x80,
    ensures
        nmea_parse_panics(ais_sentence(talker, last, f1, f2, f3, f4, payload, rest)),
{
    lemma_ais_sentence_fields(talker, last, f1, f2, f3, f4, payload, rest);
    assert(char_ends_at(payload, 0));
    assert(first_char_end_from(payload, 0) == 0);
    assert(ais_type(payload) == 25 || ais_type(payload) == 26);
}

/// A ZDA sentence, with any talker and fields, whose time-zone hour is a
/// plain number from 596524 up to `i32::MAX` and whose minute is `0` is
/// flagged: the parser's `hour * 3600` overflows.
pub proof fn lemma_zda_hour_overflow_flagged(
    talker: Seq<u8>,
    f1: Seq<u8>,
    f2: Seq<u8>,
    f3: Seq<u8>,
    f4: Seq<u8>,
    hour: Seq<u8>,
    rest: Seq<u8>,
)
    requires
        talker.len() == 2,
        !talker.contains(COMMA) && !talker.contains(STAR),
        !f1.contains(COMMA) && !f1.contains(STAR),
        !f2.contains(COMMA) && !f2.contains(STAR),
        !f3.contains(COMMA) && !f3.contains(STAR),
        !f4.contains(COMMA) && !f4.contains(STAR),
        hour.len() > 0,
        all_digits(hour),
        596524 <= digits_value(hour) <= 0x7fff_ffff,
        !rest.contains(STAR),
    ensures
        nmea_parse_panics(
            seq![DOLLAR] + talker + seq![0x5a, 0x44, 0x41] + seq![COMMA] + f1 + seq![COMMA] + f2
                + seq![COMMA] + f3 + seq![COMMA] + f4 + seq![COMMA] + hour + seq![COMMA] + seq![0x30]
                + seq![COMMA] + rest,
        ),
{
    let a = seq![DOLLAR] + talker + seq![0x5a, 0x44, 0x41];
    let m = seq![0x30u8];
    let b = seq![DOLLAR] + talker + seq![0x5a, 0x44, 0x41] + seq![COMMA] + f1 + seq![COMMA] + f2
        + seq![COMMA] + f3 + seq![COMMA] + f4 + seq![COMMA] + hour + seq![COMMA] + seq![0x30]
        + seq![COMMA] + rest;
    let t6 = m + seq![COMMA] + rest;
    let t5 = hour + seq![COMMA] + t6;
    let t4 = f4 + seq![COMMA] + t5;
    let t3 = f3 + seq![COMMA] + t4;
    let t2 = f2 + seq![COMMA] + t3;
    let t1 = f1 + seq![COMMA] + t2;
    assert(b =~= a + seq![COMMA] + t1);
    assert(b[0] == DOLLAR);
    assert(first_start_from(b, 0) == 0);
    assert(!a.contains(STAR) && !a.contains(COMMA)) by {
        if a.contains(STAR) || a.contains(COMMA) {
            let i = choose|i: int| 0 <= i < a.len() && (a[i] == STAR || a[i] == COMMA);
            if 1 <= i < 3 {
                assert(talker[i - 1] == a[i]);
            }
        }
    }
    assert(!hour.contains(STAR) && !hour.contains(COMMA)) by {
        if hour.contains(STAR) || hour.contains(COMMA) {
            let i = choose|i: int| 0 <= i < hour.len() && (hour[i] == STAR || hour[i] == COMMA);
            assert(is_digit(hour[i]));
        }
    }
    assert(!m.contains(STAR) && !m.contains(COMMA));
    assert(!t6.contains(STAR)) by {
        lemma_no_star_in_concat(m, seq![COMMA]);
        lemma_no_star_in_concat(m + seq![COMMA], rest);
    }
    assert(!t5.contains(STAR)) by {
        lemma_no_star_in_concat(hour, seq![COMMA]);
        lemma_no_star_in_concat(hour + seq![COMMA], t6);
    }
    assert(!t4.contains(STAR)) by {
        lemma_no_star_in_concat(f4, seq![COMMA]);
        lemma_no_star_in_concat(f4 + seq![COMMA], t5);
    }
    assert(!t3.contains(STAR)) by {
        lemma_no_star_in_concat(f3, seq![COMMA]);
        lemma_no_star_in_concat(f3 + seq![COMMA], t4);
    }
    assert(!t2.contains(STAR)) by {
        lemma_no_star_in_concat(f2, seq![COMMA]);
        lemma_no_star_in_concat(f2 + seq![COMMA], t3);
    }
    assert(!t1.contains(STAR)) by {
        lemma_no_star_in_concat(f1, seq![COMMA]);
        lemma_no_star_in_concat(f1 + seq![COMMA], t2);
    }
    assert(!b.contains(STAR)) by {
        lemma_no_star_in_concat(a, seq![COMMA]);
        lemma_no_star_in_concat(a + seq![COMMA], t1);
    }
    assert forall|i: int| 0 <= i < b.len() implies b[i] != STAR by {
        assert(!b.contains(STAR));
    }
    lemma_no_star_before(b, b.len() as int);
    assert(nmea_body(b) =~= b);
    lemma_split_on_concat(a, t1, COMMA);
    lemma_split_on_concat(f1, t2, COMMA);
    lemma_split_on_concat(f2, t3, COMMA);
    lemma_split_on_concat(f3, t4, COMMA);
    lemma_split_on_concat(f4, t5, COMMA);
    lemma_split_on_concat(hour, t6, COMMA);
    lemma_split_on_concat(m, rest, COMMA);
    lemma_split_on_without_sep(a, COMMA);
    lemma_split_on_without_sep(f1, COMMA);
    lemma_split_on_without_sep(f2, COMMA);
    lemma_split_on_without_sep(f3, COMMA);
    lemma_split_on_without_sep(f4, COMMA);
    lemma_split_on_without_sep(hour, COMMA);
    lemma_split_on_without_sep(m, COMMA);
    let fs = nmea_fields(b);
    assert(fs =~= seq![a] + (seq![f1] + (seq![f2] + (seq![f3] + (seq![f4] + (seq![hour] + (seq![m]
        + split_on(rest, COMMA))))))));
    assert(fs[0] == a);
    assert(fs[5] == hour);
    assert(fs[6] == m);
    assert(is_kind(a, kind_zda()));
    assert(unsigned_part(hour, true) == hour);
    assert(i32_field(hour) == Some(digits_value(hour)));
    assert(unsigned_part(m, true) == m);
    assert(all_digits(m));
    reveal_with_fuel(digits_value, 2);
    assert(digits_value(m) == 0);
    assert(i32_field(m) == Some(0int));
    assert(offset_overflows(digits_value(hour), 0));
}

/// Text without `*` followed by text without `*` has none.
proof fn lemma_no_star_in_concat(x: Seq<u8>, y: Seq<u8>)
    requires
        !x.contains(STAR),
        !y.contains(STAR),
    ensures
        !(x + y).contains(STAR),
{
    assert forall|j: int| 0 <= j < (x + y).len() implies (x + y)[j] != STAR by {
        if j < x.len() {
            assert((x + y)[j] == x[j]);
        } else {
            assert((x + y)[j] == y[j - x.len()]);
        }
    }
}

} // verus!
