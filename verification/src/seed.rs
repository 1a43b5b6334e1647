use vstd::prelude::*;
use vstd::string::*;
use vstd::utf8::*;
use crate::utf8_text::string_from_utf8;

verus! {

/// Deterministic seed for a fingerprint identity: the same seed gives the
/// same fingerprint every time.
#[derive(Debug, Clone, Copy, PartialEq, Eq, Structural)]
pub struct Seed {
    /// Selects the hardware profile, browser version and HTTP/2 profile.
    pub hw_seed: u64,
    /// Canvas fingerprint noise.
    pub canvas_seed: u64,
    /// WebGL readPixels noise.
    pub webgl_seed: u64,
    /// AudioContext noise.
    pub audio_seed: u64,
    /// getBoundingClientRect noise.
    pub client_rects_seed: u64,
}

/// `16` to the power `n`.
pub open spec fn pow16(n: nat) -> nat
    decreases n,
{
    if n == 0 {
        1
    } else {
        16 * pow16((n - 1) as nat)
    }
}

/// The lowercase ASCII hex digit for `d` (`0 <= d < 16`).
pub open spec fn hex_digit_byte(d: int) -> u8 {
    if d < 10 {
        (48 + d) as u8
    } else {
        (87 + d) as u8
    }
}

/// The lowest `n` hex digits of `v`, most significant first, in lowercase
/// ASCII with leading zeros: what `format!("{:0n$x}", v)` writes when
/// `v < 16^n`.
pub open spec fn hex_bytes(v: nat, n: nat) -> Seq<u8>
    decreases n,
{
    if n == 0 {
        seq![]
    } else {
        hex_bytes(v / 16, (n - 1) as nat).push(hex_digit_byte((v % 16) as int))
    }
}

/// The bytes of the 80-character hex form of a seed: each of the five
/// values as 16 lowercase hex digits, in field order.
pub open spec fn seed_hex_bytes(s: Seed) -> Seq<u8> {
    hex_bytes(s.hw_seed as nat, 16) + hex_bytes(s.canvas_seed as nat, 16) + hex_bytes(
        s.webgl_seed as nat,
        16,
    ) + hex_bytes(s.audio_seed as nat, 16) + hex_bytes(s.client_rects_seed as nat, 16)
}

/// ASCII bytes read as characters.
pub open spec fn ascii_chars(b: Seq<u8>) -> Seq<char> {
    b.map_values(|x: u8| x as char)
}

/// The 80-character hex form of a seed.
pub open spec fn seed_hex(s: Seed) -> Seq<char> {
    ascii_chars(seed_hex_bytes(s))
}

/// `b` is an ASCII hex digit, in either case.
pub open spec fn is_hex_digit(b: u8) -> bool {
    (48 <= b <= 57) || (97 <= b <= 102) || (65 <= b <= 70)
}

/// `b` is a lowercase ASCII hex digit.
pub open spec fn is_lower_hex_digit(b: u8) -> bool {
    (48 <= b <= 57) || (97 <= b <= 102)
}

/// The value of an ASCII hex digit.
pub open spec fn hex_digit_value(b: u8) -> int {
    if b <= 57 {
        b - 48
    } else if b >= 97 {
        b - 87
    } else {
        b - 55
    }
}

/// The number that a string of hex digits denotes, most significant first.
pub open spec fn digits_value(bs: Seq<u8>) -> nat
    decreases bs.len(),
{
    if bs.len() == 0 {
        0
    } else {
        digits_value(bs.drop_last()) * 16 + hex_digit_value(bs.last()) as nat
    }
}

/// Every byte of `bs` is an ASCII hex digit.
pub open spec fn all_hex_digits(bs: Seq<u8>) -> bool {
    forall|i: int| 0 <= i < bs.len() ==> is_hex_digit(#[trigger] bs[i])
}

/// The digits part of a radix-16 number: `bs` without one leading `+`.
pub open spec fn radix16_digits(bs: Seq<u8>) -> Seq<u8> {
    if bs.len() > 0 && bs[0] == 43u8 {
        bs.drop_first()
    } else {
        bs
    }
}

/// What `u64::from_str_radix(s, 16)` gives for the string with bytes `bs`:
/// an optional leading `+`, then at least one hex digit of either case and
/// nothing else, denoting a number that fits in a `u64`.
pub open spec fn parse_u64_radix16(bs: Seq<u8>) -> Option<u64> {
    let digits = radix16_digits(bs);
    if digits.len() == 0 {
        None
    } else if !all_hex_digits(digits) {
        None
    } else if digits_value(digits) > u64::MAX {
        None
    } else {
        Some(digits_value(digits) as u64)
    }
}

/// The seed that the 80 bytes `b` spell, read as five 16-byte chunks each
/// parsed as by `u64::from_str_radix(chunk, 16)`; `None` when `b` is not
/// 80 bytes long or a chunk does not parse.
pub open spec fn spec_from_hex(b: Seq<u8>) -> Option<Seed> {
    if b.len() != 80 {
        None
    } else {
        match (
            parse_u64_radix16(b.subrange(0, 16)),
            parse_u64_radix16(b.subrange(16, 32)),
            parse_u64_radix16(b.subrange(32, 48)),
            parse_u64_radix16(b.subrange(48, 64)),
            parse_u64_radix16(b.subrange(64, 80)),
        ) {
            (Some(hw), Some(canvas), Some(webgl), Some(audio), Some(client_rects)) => Some(
                Seed {
                    hw_seed: hw,
                    canvas_seed: canvas,
                    webgl_seed: webgl,
                    audio_seed: audio,
                    client_rects_seed: client_rects,
                },
            ),
            _ => None,
        }
    }
}

/// Cutting an 80-byte UTF-8 string into 16-byte chunks falls on character
/// boundaries (slicing a `str` elsewhere panics).
pub open spec fn chunk_boundaries_ok(b: Seq<u8>) -> bool {
    b.len() == 80 ==> {
        &&& is_char_boundary(b, 16)
        &&& is_char_boundary(b, 32)
        &&& is_char_boundary(b, 48)
        &&& is_char_boundary(b, 64)
    }
}

proof fn lemma_hex_bytes_shape(v: nat, n: nat)
    ensures
        hex_bytes(v, n).len() == n,
        forall|i: int| 0 <= i < n ==> is_lower_hex_digit(#[trigger] hex_bytes(v, n)[i]),
    decreases n,
{
    if n > 0 {
        lemma_hex_bytes_shape(v / 16, (n - 1) as nat);
    }
}

proof fn lemma_seed_hex_bytes_shape(s: Seed)
    ensures
        seed_hex_bytes(s).len() == 80,
        forall|i: int| 0 <= i < 80 ==> is_lower_hex_digit(#[trigger] seed_hex_bytes(s)[i]),
{
    lemma_hex_bytes_shape(s.hw_seed as nat, 16);
    lemma_hex_bytes_shape(s.canvas_seed as nat, 16);
    lemma_hex_bytes_shape(s.webgl_seed as nat, 16);
    lemma_hex_bytes_shape(s.audio_seed as nat, 16);
    lemma_hex_bytes_shape(s.client_rects_seed as nat, 16);
    let b = seed_hex_bytes(s);
    assert forall|i: int| 0 <= i < 80 implies is_lower_hex_digit(#[trigger] b[i]) by {
        if i < 16 {
            assert(b[i] == hex_bytes(s.hw_seed as nat, 16)[i]);
        } else if i < 32 {
            assert(b[i] == hex_bytes(s.canvas_seed as nat, 16)[i - 16]);
        } else if i < 48 {
            assert(b[i] == hex_bytes(s.webgl_seed as nat, 16)[i - 32]);
        } else if i < 64 {
            assert(b[i] == hex_bytes(s.audio_seed as nat, 16)[i - 48]);
        } else {
            assert(b[i] == hex_bytes(s.client_rects_seed as nat, 16)[i - 64]);
        }
    }
}

fn hex_digit_byte_exec(d: u64) -> (b: u8)
    requires
        d < 16,
    ensures
        b == hex_digit_byte(d as int),
{
    if d < 10 {
        48 + d as u8
    } else {
        87 + d as u8
    }
}

/// Appends the lowest `n` hex digits of `v` to `out`.
fn push_hex_digits(v: u64, n: usize, out: &mut Vec<u8>)
    ensures
        final(out)@ == old(out)@ + hex_bytes(v as nat, n as nat),
    decreases n,
{
    if n > 0 {
        push_hex_digits(v / 16, n - 1, out);
        out.push(hex_digit_byte_exec(v % 16));
    } else {
        assert(old(out)@ + hex_bytes(v as nat, 0) =~= old(out)@);
    }
}

proof fn lemma_ascii_text(b: Seq<u8>)
    requires
        forall|i: int| 0 <= i < b.len() ==> b[i] < 128,
    ensures
        encode_utf8(ascii_chars(b)) == b,
        valid_utf8(b),
        decode_utf8(b) == ascii_chars(b),
{
    let c = ascii_chars(b);
    assert(is_ascii_chars(c)) by {
        assert forall|i: int| 0 <= i < c.len() implies '\0' <= #[trigger] c[i] <= '\u{7f}' by {
            let x = b[i];
            assert(c[i] == x as char);
        }
    }
    is_ascii_chars_encode_utf8(c);
    assert forall|i: int| 0 <= i < b.len() implies #[trigger] encode_utf8(c)[i] == b[i] by {
        let x = b[i];
        assert(c[i] == x as char);
        assert((x as char) as u8 == x);
    }
    assert(encode_utf8(c) =~= b);
    encode_utf8_valid_utf8(c);
    encode_utf8_decode_utf8(c);
}

proof fn lemma_pow16_mono(m: nat, n: nat)
    requires
        m <= n,
    ensures
        pow16(m) <= pow16(n),
    decreases n,
{
    if m < n {
        lemma_pow16_mono(m, (n - 1) as nat);
    }
}

proof fn lemma_pow16_16()
    ensures
        pow16(16) == 0x1_0000_0000_0000_0000,
{
    reveal_with_fuel(pow16, 17);
}

proof fn lemma_digits_value_bound(bs: Seq<u8>)
    requires
        forall|i: int| 0 <= i < bs.len() ==> is_hex_digit(#[trigger] bs[i]),
    ensures
        digits_value(bs) < pow16(bs.len()),
    decreases bs.len(),
{
    if bs.len() > 0 {
        let p = bs.drop_last();
        assert forall|i: int| 0 <= i < p.len() implies is_hex_digit(#[trigger] p[i]) by {
            assert(p[i] == bs[i]);
        }
        lemma_digits_value_bound(p);
        assert(is_hex_digit(bs[bs.len() - 1]));
    }
}

fn hex_digit_value_exec(b: u8) -> (r: Option<u64>)
    ensures
        r is Some <==> is_hex_digit(b),
        r matches Some(d) ==> d == hex_digit_value(b) && d < 16,
{
    if 48 <= b && b <= 57 {
        Some((b - 48) as u64)
    } else if 97 <= b && b <= 102 {
        Some((b - 87) as u64)
    } else if 65 <= b && b <= 70 {
        Some((b - 55) as u64)
    } else {
        None
    }
}

/// Parses `bytes[start..end]` as `u64::from_str_radix` does with radix 16.
fn parse_radix16_at(bytes: &[u8], start: usize, end: usize) -> (r: Option<u64>)
    requires
        start <= end <= bytes@.len(),
        end - start <= 16,
    ensures
        r == parse_u64_radix16(bytes@.subrange(start as int, end as int)),
{
    let ghost whole = bytes@.subrange(start as int, end as int);
    let mut i = start;
    if start < end && bytes[start] == 43u8 {
        i = start + 1;
    }
    proof {
        assert(radix16_digits(whole) =~= bytes@.subrange(i as int, end as int));
    }
    if i == end {
        return None;
    }
    let ghost digits = bytes@.subrange(i as int, end as int);
    let mut acc: u64 = 0;
    let mut j = i;
    while j < end
        invariant
            start <= i < end <= bytes@.len(),
            end - i <= 16,
            i <= j <= end,
            digits == bytes@.subrange(i as int, end as int),
            whole == bytes@.subrange(start as int, end as int),
            digits == radix16_digits(whole),
            forall|k: int| i <= k < j ==> is_hex_digit(#[trigger] bytes@[k]),
            acc as nat == digits_value(bytes@.subrange(i as int, j as int)),
        decreases end - j,
    {
        let ghost pre = bytes@.subrange(i as int, j as int);
        match hex_digit_value_exec(bytes[j]) {
            None => {
                assert(digits[j - i] == bytes@[j as int]);
                assert(!is_hex_digit(digits[j - i]));
                return None;
            },
            Some(d) => {
                proof {
                    assert forall|k: int| 0 <= k < pre.len() implies is_hex_digit(#[trigger] pre[k]) by {
                        assert(pre[k] == bytes@[i + k]);
                    }
                    lemma_digits_value_bound(pre);
                    lemma_pow16_mono(pre.len(), 15);
                    lemma_pow16_16();
                    assert(pow16(16) == 16 * pow16(15));
                }
                acc = acc * 16 + d;
                proof {
                    let next = bytes@.subrange(i as int, j + 1);
                    assert(next.drop_last() =~= pre);
                }
            },
        }
        j = j + 1;
    }
    proof {
        assert(bytes@.subrange(i as int, j as int) =~= digits);
        assert forall|k: int| 0 <= k < digits.len() implies is_hex_digit(#[trigger] digits[k]) by {
            assert(digits[k] == bytes@[i + k]);
        }
    }
    Some(acc)
}

proof fn lemma_pow16_positive(n: nat)
    ensures
        pow16(n) > 0,
    decreases n,
{
    if n > 0 {
        lemma_pow16_positive((n - 1) as nat);
    }
}

proof fn lemma_digits_value_of_hex_bytes(v: nat, n: nat)
    ensures
        digits_value(hex_bytes(v, n)) == v % pow16(n),
    decreases n,
{
    if n > 0 {
        let hb = hex_bytes(v, n);
        lemma_digits_value_of_hex_bytes(v / 16, (n - 1) as nat);
        lemma_hex_bytes_shape(v / 16, (n - 1) as nat);
        assert(hb.drop_last() =~= hex_bytes(v / 16, (n - 1) as nat));
        lemma_pow16_positive((n - 1) as nat);
        vstd::arithmetic::div_mod::lemma_mod_breakdown(v as int, 16, pow16((n - 1) as nat) as int);
    }
}

proof fn lemma_parse_hex_bytes(v: u64)
    ensures
        parse_u64_radix16(hex_bytes(v as nat, 16)) == Some(v),
{
    let hb = hex_bytes(v as nat, 16);
    lemma_hex_bytes_shape(v as nat, 16);
    assert(is_lower_hex_digit(hb[0]));
    assert(radix16_digits(hb) == hb);
    assert(all_hex_digits(hb));
    lemma_digits_value_of_hex_bytes(v as nat, 16);
    lemma_pow16_16();
}

proof fn lemma_hex_bytes_of_digits_value(x: Seq<u8>)
    requires
        forall|i: int| 0 <= i < x.len() ==> is_lower_hex_digit(#[trigger] x[i]),
    ensures
        hex_bytes(digits_value(x), x.len()) == x,
    decreases x.len(),
{
    if x.len() > 0 {
        let p = x.drop_last();
        assert forall|i: int| 0 <= i < p.len() implies is_lower_hex_digit(#[trigger] p[i]) by {
            assert(p[i] == x[i]);
        }
        lemma_hex_bytes_of_digits_value(p);
        let l = x.last();
        assert(is_lower_hex_digit(l));
        let d = hex_digit_value(l);
        assert(0 <= d < 16);
        let v = digits_value(x);
        assert(v == digits_value(p) * 16 + d);
        assert(v / 16 == digits_value(p));
        assert(v % 16 == d);
        assert(hex_digit_byte(d) == l);
        assert(hex_bytes(v, x.len()) =~= x);
    }
}

proof fn lemma_lower_hex_chunk(x: Seq<u8>)
    requires
        x.len() == 16,
        forall|i: int| 0 <= i < x.len() ==> is_lower_hex_digit(#[trigger] x[i]),
    ensures
        parse_u64_radix16(x) matches Some(v) && hex_bytes(v as nat, 16) == x,
{
    assert(is_lower_hex_digit(x[0]));
    assert(radix16_digits(x) == x);
    assert(all_hex_digits(x));
    lemma_digits_value_bound(x);
    lemma_pow16_16();
    lemma_hex_bytes_of_digits_value(x);
}

proof fn lemma_lower_hex_not_continuation(b: Seq<u8>, i: int)
    requires
        valid_utf8(b),
        0 <= i < b.len(),
        is_lower_hex_digit(b[i]),
    ensures
        is_char_boundary(b, i),
{
    is_char_boundary_iff_not_is_continuation_byte(b, i);
}

/// The character view of lowercase ASCII hex digits.
pub open spec fn is_lower_hex_char(c: char) -> bool {
    ('0' <= c <= '9') || ('a' <= c <= 'f')
}

/// Reading back the hex form of a seed gives the seed: `from_hex` accepts
/// every string that `to_hex` produces (its chunks fall on character
/// boundaries) and returns the seed the string came from.
pub proof fn lemma_from_hex_of_to_hex(seed: Seed)
    ensures
        chunk_boundaries_ok(encode_utf8(seed_hex(seed))),
        spec_from_hex(encode_utf8(seed_hex(seed))) == Some(seed),
{
    let b = seed_hex_bytes(seed);
    lemma_seed_hex_bytes_shape(seed);
    lemma_ascii_text(b);
    assert(encode_utf8(seed_hex(seed)) == b);
    lemma_lower_hex_not_continuation(b, 16);
    lemma_lower_hex_not_continuation(b, 32);
    lemma_lower_hex_not_continuation(b, 48);
    lemma_lower_hex_not_continuation(b, 64);
    lemma_hex_bytes_shape(seed.hw_seed as nat, 16);
    lemma_hex_bytes_shape(seed.canvas_seed as nat, 16);
    lemma_hex_bytes_shape(seed.webgl_seed as nat, 16);
    lemma_hex_bytes_shape(seed.audio_seed as nat, 16);
    lemma_hex_bytes_shape(seed.client_rects_seed as nat, 16);
    assert(b.subrange(0, 16) =~= hex_bytes(seed.hw_seed as nat, 16));
    assert(b.subrange(16, 32) =~= hex_bytes(seed.canvas_seed as nat, 16));
    assert(b.subrange(32, 48) =~= hex_bytes(seed.webgl_seed as nat, 16));
    assert(b.subrange(48, 64) =~= hex_bytes(seed.audio_seed as nat, 16));
    assert(b.subrange(64, 80) =~= hex_bytes(seed.client_rects_seed as nat, 16));
    lemma_parse_hex_bytes(seed.hw_seed);
    lemma_parse_hex_bytes(seed.canvas_seed);
    lemma_parse_hex_bytes(seed.webgl_seed);
    lemma_parse_hex_bytes(seed.audio_seed);
    lemma_parse_hex_bytes(seed.client_rects_seed);
}

/// Different seeds have different hex forms.
pub proof fn lemma_to_hex_injective(a: Seed, b: Seed)
    requires
        seed_hex(a) == seed_hex(b),
    ensures
        a == b,
{
    lemma_from_hex_of_to_hex(a);
    lemma_from_hex_of_to_hex(b);
}

/// Every string of 80 lowercase hex digits is read by `from_hex` into a
/// seed whose hex form is that same string.
pub proof fn lemma_to_hex_of_from_hex(c: Seq<char>)
    requires
        c.len() == 80,
        forall|i: int| 0 <= i < c.len() ==> is_lower_hex_char(#[trigger] c[i]),
    ensures
        chunk_boundaries_ok(encode_utf8(c)),
        spec_from_hex(encode_utf8(c)) matches Some(seed) && seed_hex(seed) == c,
{
    let b = Seq::new(80, |i: int| c[i] as u8);
    assert forall|i: int| 0 <= i < 80 implies is_lower_hex_digit(#[trigger] b[i]) && b[i] < 128 by {
        assert(is_lower_hex_char(c[i]));
    }
    assert(ascii_chars(b) =~= c) by {
        assert forall|i: int| 0 <= i < 80 implies #[trigger] ascii_chars(b)[i] == c[i] by {
            assert(is_lower_hex_char(c[i]));
            let ch = c[i];
            assert(((ch as u8) as char) == ch);
        }
    }
    lemma_ascii_text(b);
    assert(encode_utf8(c) == b);
    lemma_lower_hex_not_continuation(b, 16);
    lemma_lower_hex_not_continuation(b, 32);
    lemma_lower_hex_not_continuation(b, 48);
    lemma_lower_hex_not_continuation(b, 64);
    let x0 = b.subrange(0, 16);
    let x1 = b.subrange(16, 32);
    let x2 = b.subrange(32, 48);
    let x3 = b.subrange(48, 64);
    let x4 = b.subrange(64, 80);
    lemma_lower_hex_chunk(x0);
    lemma_lower_hex_chunk(x1);
    lemma_lower_hex_chunk(x2);
    lemma_lower_hex_chunk(x3);
    lemma_lower_hex_chunk(x4);
    let seed = spec_from_hex(b).unwrap();
    assert(seed_hex_bytes(seed) =~= b);
}

/// The ASCII lowercase of a byte: `A`..`Z` become `a`..`z`, every other
/// byte stays.
pub open spec fn ascii_lower(b: u8) -> u8 {
    if 65 <= b <= 90 {
        (b + 32) as u8
    } else {
        b
    }
}

/// The ASCII lowercase of a byte string.
pub open spec fn ascii_lowercase(bs: Seq<u8>) -> Seq<u8> {
    bs.map_values(|b: u8| ascii_lower(b))
}

proof fn lemma_digits_value_lowercase(d: Seq<u8>)
    requires
        all_hex_digits(d),
    ensures
        digits_value(ascii_lowercase(d)) == digits_value(d),
    decreases d.len(),
{
    if d.len() > 0 {
        let p = d.drop_last();
        assert(ascii_lowercase(d).drop_last() =~= ascii_lowercase(p));
        assert forall|i: int| 0 <= i < p.len() implies is_hex_digit(#[trigger] p[i]) by {
            assert(p[i] == d[i]);
        }
        lemma_digits_value_lowercase(p);
        assert(is_hex_digit(d[d.len() - 1]));
        assert(ascii_lowercase(d).last() == ascii_lower(d.last()));
    }
}

proof fn lemma_parse_lowercase(x: Seq<u8>)
    ensures
        parse_u64_radix16(ascii_lowercase(x)) == parse_u64_radix16(x),
{
    let l = ascii_lowercase(x);
    let d = radix16_digits(x);
    let ld = radix16_digits(l);
    if x.len() > 0 {
        assert(l[0] == ascii_lower(x[0]));
    }
    assert(ld =~= ascii_lowercase(d));
    assert(all_hex_digits(ld) <==> all_hex_digits(d)) by {
        if all_hex_digits(d) {
            assert forall|i: int| 0 <= i < ld.len() implies is_hex_digit(#[trigger] ld[i]) by {
                assert(is_hex_digit(d[i]));
            }
        }
        if all_hex_digits(ld) {
            assert forall|i: int| 0 <= i < d.len() implies is_hex_digit(#[trigger] d[i]) by {
                assert(is_hex_digit(ld[i]));
            }
        }
    }
    if all_hex_digits(d) {
        lemma_digits_value_lowercase(d);
    }
}

/// Case does not matter to `from_hex`: a string and its ASCII lowercase
/// are read into the same seed, or are both refused.
pub proof fn lemma_from_hex_ignores_case(b: Seq<u8>)
    ensures
        spec_from_hex(ascii_lowercase(b)) == spec_from_hex(b),
{
    let l = ascii_lowercase(b);
    if b.len() == 80 {
        assert(l.subrange(0, 16) =~= ascii_lowercase(b.subrange(0, 16)));
        assert(l.subrange(16, 32) =~= ascii_lowercase(b.subrange(16, 32)));
        assert(l.subrange(32, 48) =~= ascii_lowercase(b.subrange(32, 48)));
        assert(l.subrange(48, 64) =~= ascii_lowercase(b.subrange(48, 64)));
        assert(l.subrange(64, 80) =~= ascii_lowercase(b.subrange(64, 80)));
        lemma_parse_lowercase(b.subrange(0, 16));
        lemma_parse_lowercase(b.subrange(16, 32));
        lemma_parse_lowercase(b.subrange(32, 48));
        lemma_parse_lowercase(b.subrange(48, 64));
        lemma_parse_lowercase(b.subrange(64, 80));
    }
}

/// Each hex digit, in either case, stands for its value: a 16-byte chunk of
/// fifteen `0`s and one digit is read as that digit's value, `0`..`9` for
/// `'0'`..`'9'` and `10`..`15` for `'a'`..`'f'` and `'A'`..`'F'`.
pub proof fn lemma_single_digit_chunk(d: u8, c: u8)
    requires
        d < 16,
        c == (if d < 10 {
            (48 + d) as u8
        } else {
            (87 + d) as u8
        }) || (10 <= d && c == (55 + d) as u8),
    ensures
        parse_u64_radix16(Seq::new(15, |i: int| 48u8).push(c)) == Some(d as u64),
{
    let x = Seq::new(15, |i: int| 48u8).push(c);
    assert(x[0] == 48u8);
    assert(radix16_digits(x) == x);
    assert(all_hex_digits(x)) by {
        assert forall|i: int| 0 <= i < x.len() implies is_hex_digit(#[trigger] x[i]) by {
            if i < 15 {
                assert(x[i] == 48u8);
            }
        }
    }
    assert forall|k: int| 0 <= k <= 15 implies digits_value(#[trigger] x.take(k)) == 0 by {
        lemma_zero_prefix_value(x, k);
    }
    assert(x.drop_last() =~= x.take(15));
    assert(digits_value(x) == d);
}

proof fn lemma_zero_prefix_value(x: Seq<u8>, k: int)
    requires
        0 <= k <= 15,
        x.len() == 16,
        forall|i: int| 0 <= i < 15 ==> x[i] == 48u8,
    ensures
        digits_value(x.take(k)) == 0,
    decreases k,
{
    if k > 0 {
        lemma_zero_prefix_value(x, k - 1);
        assert(x.take(k).drop_last() =~= x.take(k - 1));
        assert(x.take(k).last() == 48u8);
    }
}

impl Seed {
    /// Creates a seed from five raw values.
    pub fn new(hw: u64, canvas: u64, webgl: u64, audio: u64, client_rects: u64) -> (res: Self)
        ensures
            res == (Seed {
                hw_seed: hw,
                canvas_seed: canvas,
                webgl_seed: webgl,
                audio_seed: audio,
                client_rects_seed: client_rects,
            }),
    {
        Seed {
            hw_seed: hw,
            canvas_seed: canvas,
            webgl_seed: webgl,
            audio_seed: audio,
            client_rects_seed: client_rects,
        }
    }

    /// The seed as an 80-character string: the five values in field order,
    /// each as 16 lowercase hex digits with leading zeros.
    pub fn to_hex(&self) -> (res: String)
        ensures
            res@ == seed_hex(*self),
            res@.len() == 80,
    {
        let mut out: Vec<u8> = Vec::with_capacity(80);
        push_hex_digits(self.hw_seed, 16, &mut out);
        push_hex_digits(self.canvas_seed, 16, &mut out);
        push_hex_digits(self.webgl_seed, 16, &mut out);
        push_hex_digits(self.audio_seed, 16, &mut out);
        push_hex_digits(self.client_rects_seed, 16, &mut out);
        proof {
            let b = seed_hex_bytes(*self);
            assert(out@ =~= b);
            lemma_seed_hex_bytes_shape(*self);
            lemma_ascii_text(b);
        }
        match string_from_utf8(out) {
            Some(s) => s,
            None => String::new(),
        }
    }

    /// Parses the 80-character form that [`Seed::to_hex`] produces: five
    /// 16-byte chunks, each read by `u64::from_str_radix(chunk, 16)`.
    /// `None` when the string is not 80 bytes long or a chunk does not parse.
    pub fn from_hex(s: &str) -> (res: Option<Self>)
        requires
            chunk_boundaries_ok(s.spec_bytes()),
        ensures
            res == spec_from_hex(s.spec_bytes()),
    {
        let bytes = s.as_bytes();
        if bytes.len() != 80 {
            return None;
        }
        let hw = match parse_radix16_at(bytes, 0, 16) {
            Some(v) => v,
            None => return None,
        };
        let canvas = match parse_radix16_at(bytes, 16, 32) {
            Some(v) => v,
            None => return None,
        };
        let webgl = match parse_radix16_at(bytes, 32, 48) {
            Some(v) => v,
            None => return None,
        };
        let audio = match parse_radix16_at(bytes, 48, 64) {
            Some(v) => v,
            None => return None,
        };
        let client_rects = match parse_radix16_at(bytes, 64, 80) {
            Some(v) => v,
            None => return None,
        };
        Some(
            Seed {
                hw_seed: hw,
                canvas_seed: canvas,
                webgl_seed: webgl,
                audio_seed: audio,
                client_rects_seed: client_rects,
            },
        )
    }
}

} // verus!
