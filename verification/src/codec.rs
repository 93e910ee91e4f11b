//! Primitives of the token wire codec.
//!
//! Integers travel as fixed-width lower-case hexadecimal digit strings,
//! byte strings as a hex length prefix followed by the raw bytes, and a
//! whole claims string as unpadded base64url. Each encoder has a matching
//! parser, and the round trip is proved.

use vstd::prelude::*;
use vstd::arithmetic::div_mod::lemma_fundamental_div_mod;

verus! {

// ------------------------------------------------------------------
// hex digits
// ------------------------------------------------------------------

/// Numeric value of one lower-case hex digit byte; negative for others.
pub open spec fn hex_val(c: u8) -> int {
    if 0x30 <= c && c <= 0x39 {
        c - 0x30
    } else if 0x61 <= c && c <= 0x66 {
        c - 0x61 + 10
    } else {
        -1
    }
}

/// The lower-case hex digit byte of a value below 16.
pub open spec fn hex_digit(v: u8) -> u8
    recommends
        v < 16,
{
    if v < 10 {
        (0x30 + v) as u8
    } else {
        (0x57 + v) as u8
    }
}

pub proof fn lemma_hex_digit_val(v: u8)
    requires
        v < 16,
    ensures
        hex_val(hex_digit(v)) == v as int,
{
}

/// All bytes of `s` are hex digits.
pub open spec fn all_hex(s: Seq<u8>) -> bool {
    forall|i: int| 0 <= i < s.len() ==> hex_val(s[i]) >= 0
}

pub fn hex_val_ex(c: u8) -> (r: Option<u8>)
    ensures
        match r {
            Some(v) => hex_val(c) == v as int && v < 16,
            None => hex_val(c) < 0,
        },
{
    if 0x30 <= c && c <= 0x39 {
        Some(c - 0x30)
    } else if 0x61 <= c && c <= 0x66 {
        Some(c - 0x61 + 10)
    } else {
        None
    }
}

pub fn hex_digit_ex(v: u8) -> (r: u8)
    requires
        v < 16,
    ensures
        r == hex_digit(v),
{
    if v < 10 {
        0x30 + v
    } else {
        0x57 + v
    }
}

// ------------------------------------------------------------------
// powers of 16
// ------------------------------------------------------------------

pub open spec fn pow16(w: nat) -> nat
    decreases w,
{
    if w == 0 {
        1
    } else {
        16 * pow16((w - 1) as nat)
    }
}

pub proof fn lemma_pow16_pos(w: nat)
    ensures
        pow16(w) >= 1,
    decreases w,
{
    if w > 0 {
        lemma_pow16_pos((w - 1) as nat);
    }
}

pub proof fn lemma_pow16_mono(a: nat, b: nat)
    requires
        a <= b,
    ensures
        pow16(a) <= pow16(b),
    decreases b,
{
    if a < b {
        lemma_pow16_mono(a, (b - 1) as nat);
        lemma_pow16_pos((b - 1) as nat);
    }
}

pub proof fn lemma_pow16_widths()
    ensures
        pow16(2) == 0x100,
        pow16(8) == 0x1_0000_0000,
        pow16(16) == 0x1_0000_0000_0000_0000,
        pow16(32) == 0x1_0000_0000_0000_0000_0000_0000_0000_0000,
{
    reveal_with_fuel(pow16, 33);
}

// ------------------------------------------------------------------
// fixed-width hex numbers
// ------------------------------------------------------------------

/// `width` hex digits of `n`, most significant first, leading zeros kept.
pub open spec fn spec_hex(n: u128, width: nat) -> Seq<u8>
    decreases width,
{
    if width == 0 {
        Seq::empty()
    } else {
        spec_hex(n / 16, (width - 1) as nat).push(hex_digit((n % 16) as u8))
    }
}

/// Value of a big-endian hex digit string.
pub open spec fn hex_value(s: Seq<u8>) -> int
    decreases s.len(),
{
    if s.len() == 0 {
        0
    } else {
        hex_value(s.drop_last()) * 16 + hex_val(s.last())
    }
}

pub proof fn lemma_spec_hex_len(n: u128, width: nat)
    ensures
        spec_hex(n, width).len() == width,
    decreases width,
{
    if width > 0 {
        lemma_spec_hex_len(n / 16, (width - 1) as nat);
    }
}

pub proof fn lemma_spec_hex_all_hex(n: u128, width: nat)
    ensures
        all_hex(spec_hex(n, width)),
    decreases width,
{
    if width > 0 {
        lemma_spec_hex_all_hex(n / 16, (width - 1) as nat);
        lemma_spec_hex_len(n / 16, (width - 1) as nat);
        let prev = spec_hex(n / 16, (width - 1) as nat);
        let d = hex_digit((n % 16) as u8);
        lemma_hex_digit_val((n % 16) as u8);
        assert forall|i: int| 0 <= i < spec_hex(n, width).len() implies hex_val(
            spec_hex(n, width)[i],
        ) >= 0 by {
            if i < prev.len() {
                assert(spec_hex(n, width)[i] == prev[i]);
            } else {
                assert(spec_hex(n, width)[i] == d);
            }
        }
    }
}

pub proof fn lemma_hex_value_bound(s: Seq<u8>)
    requires
        all_hex(s),
    ensures
        0 <= hex_value(s) < pow16(s.len()),
    decreases s.len(),
{
    if s.len() > 0 {
        assert(all_hex(s.drop_last())) by {
            assert(forall|i: int|
                0 <= i < s.drop_last().len() ==> s.drop_last()[i] == s[i]);
        }
        lemma_hex_value_bound(s.drop_last());
        assert(hex_val(s.last()) >= 0);
        assert(hex_val(s.last()) < 16);
    }
}

pub proof fn lemma_hex_round_trip(n: u128, width: nat)
    requires
        n < pow16(width),
    ensures
        hex_value(spec_hex(n, width)) == n as int,
    decreases width,
{
    if width == 0 {
        assert(pow16(0) == 1);
    } else {
        let q = n / 16;
        let d = (n % 16) as u8;
        lemma_fundamental_div_mod(n as int, 16);
        assert(q as int == n as int / 16);
        assert(d as int == n as int % 16);
        assert(q < pow16((width - 1) as nat)) by {
            if q >= pow16((width - 1) as nat) {
                assert(n as int == 16 * (n as int / 16) + n as int % 16);
                assert(16 * (q as int) >= 16 * pow16((width - 1) as nat));
            }
        }
        lemma_hex_round_trip(q, (width - 1) as nat);
        let prev = spec_hex(q, (width - 1) as nat);
        let s = spec_hex(n, width);
        assert(s == prev.push(hex_digit(d)));
        assert(s.drop_last() =~= prev);
        assert(s.last() == hex_digit(d));
        lemma_hex_digit_val(d);
        assert(hex_value(s) == (q as int) * 16 + d as int);
    }
}

// ------------------------------------------------------------------
// spec-level parsers
// ------------------------------------------------------------------

/// Parse `width` hex digits off the front of `s`; yields the value and the
/// rest of the input.
pub open spec fn spec_parse_hex(s: Seq<u8>, width: nat) -> Option<(u128, Seq<u8>)> {
    if s.len() >= width && all_hex(s.take(width as int)) {
        Some((hex_value(s.take(width as int)) as u128, s.skip(width as int)))
    } else {
        None
    }
}

/// A length-prefixed byte string: eight hex digits of length, then the bytes.
pub open spec fn enc_lp(b: Seq<u8>) -> Seq<u8>
    recommends
        b.len() < 0x1_0000_0000,
{
    spec_hex(b.len() as u128, 8) + b
}

pub open spec fn spec_parse_lp(s: Seq<u8>) -> Option<(Seq<u8>, Seq<u8>)> {
    match spec_parse_hex(s, 8) {
        None => None,
        Some((n, rest)) => if rest.len() >= n {
            Some((rest.take(n as int), rest.skip(n as int)))
        } else {
            None
        },
    }
}

/// The round trip of a fixed-width number in front of any suffix.
pub proof fn lemma_parse_hex_enc(n: u128, width: nat, rest: Seq<u8>)
    requires
        n < pow16(width),
    ensures
        spec_parse_hex(spec_hex(n, width) + rest, width) == Some((n, rest)),
{
    let s = spec_hex(n, width) + rest;
    lemma_spec_hex_len(n, width);
    assert(s.take(width as int) =~= spec_hex(n, width));
    lemma_spec_hex_all_hex(n, width);
    lemma_hex_round_trip(n, width);
    assert(s.skip(width as int) =~= rest);
}

/// The round trip of a length-prefixed byte string in front of any suffix.
pub proof fn lemma_parse_lp_enc(b: Seq<u8>, rest: Seq<u8>)
    requires
        b.len() < 0x1_0000_0000,
    ensures
        spec_parse_lp(enc_lp(b) + rest) == Some((b, rest)),
{
    let n = b.len() as u128;
    lemma_pow16_widths();
    assert(enc_lp(b) + rest =~= spec_hex(n, 8) + (b + rest));
    lemma_parse_hex_enc(n, 8, b + rest);
    assert((b + rest).take(b.len() as int) =~= b);
    assert((b + rest).skip(b.len() as int) =~= rest);
}

// ------------------------------------------------------------------
// base64url armor of whole byte strings
// ------------------------------------------------------------------

/// Numeric value of one base64url alphabet byte; negative for others.
pub open spec fn b64_val(c: u8) -> int {
    if 0x41 <= c && c <= 0x5a {
        c - 0x41
    } else if 0x61 <= c && c <= 0x7a {
        c - 0x61 + 26
    } else if 0x30 <= c && c <= 0x39 {
        c - 0x30 + 52
    } else if c == 0x2d {
        62
    } else if c == 0x5f {
        63
    } else {
        -1
    }
}

/// The base64url alphabet byte of a value below 64.
pub open spec fn b64_char(v: u8) -> u8
    recommends
        v < 64,
{
    if v < 26 {
        (0x41 + v) as u8
    } else if v < 52 {
        (0x61 + (v - 26)) as u8
    } else if v < 62 {
        (0x30 + (v - 52)) as u8
    } else if v == 62 {
        0x2d
    } else {
        0x5f
    }
}

pub proof fn lemma_b64_char_val(v: u8)
    requires
        v < 64,
    ensures
        b64_val(b64_char(v)) == v as int,
{
}

/// Base64url without padding: the armor of the claims segment of a token.
pub open spec fn b64_bytes(s: Seq<u8>) -> Seq<u8>
    decreases s.len(),
{
    if s.len() == 0 {
        Seq::empty()
    } else if s.len() == 1 {
        seq![b64_char(s[0] >> 2), b64_char((s[0] & 3) << 4)]
    } else if s.len() == 2 {
        seq![
            b64_char(s[0] >> 2),
            b64_char(((s[0] & 3) << 4) | (s[1] >> 4)),
            b64_char((s[1] & 15) << 2),
        ]
    } else {
        seq![
            b64_char(s[0] >> 2),
            b64_char(((s[0] & 3) << 4) | (s[1] >> 4)),
            b64_char(((s[1] & 15) << 2) | (s[2] >> 6)),
            b64_char(s[2] & 63),
        ] + b64_bytes(s.skip(3))
    }
}

/// The alphabet value as a byte (meaningful where `b64_val` is not
/// negative).
pub open spec fn b64_valu(c: u8) -> u8 {
    b64_val(c) as u8
}

/// Inverse of `b64_bytes`: canonical unpadded base64url only.
pub open spec fn spec_unb64_bytes(s: Seq<u8>) -> Option<Seq<u8>>
    decreases s.len(),
{
    if s.len() == 0 {
        Some(Seq::empty())
    } else if s.len() == 1 {
        None
    } else if b64_val(s[0]) < 0 || b64_val(s[1]) < 0 {
        None
    } else if s.len() == 2 {
        if b64_valu(s[1]) & 15 == 0 {
            Some(seq![(b64_valu(s[0]) << 2) | (b64_valu(s[1]) >> 4)])
        } else {
            None
        }
    } else if b64_val(s[2]) < 0 {
        None
    } else if s.len() == 3 {
        if b64_valu(s[2]) & 3 == 0 {
            Some(
                seq![
                    (b64_valu(s[0]) << 2) | (b64_valu(s[1]) >> 4),
                    ((b64_valu(s[1]) & 15) << 4) | (b64_valu(s[2]) >> 2),
                ],
            )
        } else {
            None
        }
    } else if b64_val(s[3]) < 0 {
        None
    } else {
        match spec_unb64_bytes(s.skip(4)) {
            None => None,
            Some(rest) => Some(
                seq![
                    (b64_valu(s[0]) << 2) | (b64_valu(s[1]) >> 4),
                    ((b64_valu(s[1]) & 15) << 4) | (b64_valu(s[2]) >> 2),
                    ((b64_valu(s[2]) & 3) << 6) | b64_valu(s[3]),
                ] + rest,
            ),
        }
    }
}

pub proof fn lemma_b64_bytes_alphabet(s: Seq<u8>)
    ensures
        forall|i: int| 0 <= i < b64_bytes(s).len() ==> b64_val(#[trigger] b64_bytes(s)[i]) >= 0,
    decreases s.len(),
{
    if s.len() == 0 {
    } else if s.len() == 1 {
        let b0 = s[0];
        assert(b0 >> 2 < 64 && (b0 & 3) << 4 < 64) by (bit_vector);
        lemma_b64_char_val(b0 >> 2);
        lemma_b64_char_val((b0 & 3) << 4);
    } else if s.len() == 2 {
        let b0 = s[0];
        let b1 = s[1];
        assert(b0 >> 2 < 64 && ((b0 & 3) << 4) | (b1 >> 4) < 64 && (b1 & 15) << 2
            < 64) by (bit_vector);
        lemma_b64_char_val(b0 >> 2);
        lemma_b64_char_val(((b0 & 3) << 4) | (b1 >> 4));
        lemma_b64_char_val((b1 & 15) << 2);
    } else {
        let b0 = s[0];
        let b1 = s[1];
        let b2 = s[2];
        assert(b0 >> 2 < 64 && ((b0 & 3) << 4) | (b1 >> 4) < 64 && ((b1 & 15) << 2) | (b2 >> 6)
            < 64 && b2 & 63 < 64) by (bit_vector);
        lemma_b64_char_val(b0 >> 2);
        lemma_b64_char_val(((b0 & 3) << 4) | (b1 >> 4));
        lemma_b64_char_val(((b1 & 15) << 2) | (b2 >> 6));
        lemma_b64_char_val(b2 & 63);
        lemma_b64_bytes_alphabet(s.skip(3));
        assert forall|i: int| 0 <= i < b64_bytes(s).len() implies b64_val(
            #[trigger] b64_bytes(s)[i],
        ) >= 0 by {
            if i >= 4 {
                assert(b64_bytes(s)[i] == b64_bytes(s.skip(3))[i - 4]);
            }
        }
    }
}

/// The armor round trip: decoding an armored byte string gives it back.
pub proof fn lemma_unb64_b64(s: Seq<u8>)
    ensures
        spec_unb64_bytes(b64_bytes(s)) == Some(s),
    decreases s.len(),
{
    if s.len() == 0 {
    } else if s.len() == 1 {
        let b0 = s[0];
        assert(b0 >> 2 < 64 && (b0 & 3) << 4 < 64) by (bit_vector);
        lemma_b64_char_val(b0 >> 2);
        lemma_b64_char_val((b0 & 3) << 4);
        assert(((b0 & 3) << 4) & 15 == 0 && ((b0 >> 2) << 2) | (((b0 & 3) << 4) >> 4)
            == b0) by (bit_vector);
        assert(seq![b0] =~= s);
    } else if s.len() == 2 {
        let b0 = s[0];
        let b1 = s[1];
        assert(b0 >> 2 < 64 && ((b0 & 3) << 4) | (b1 >> 4) < 64 && (b1 & 15) << 2
            < 64) by (bit_vector);
        lemma_b64_char_val(b0 >> 2);
        lemma_b64_char_val(((b0 & 3) << 4) | (b1 >> 4));
        lemma_b64_char_val((b1 & 15) << 2);
        assert(((b1 & 15) << 2) & 3 == 0 && ((b0 >> 2) << 2) | ((((b0 & 3) << 4) | (b1 >> 4))
            >> 4) == b0 && (((((b0 & 3) << 4) | (b1 >> 4)) & 15) << 4) | (((b1 & 15) << 2) >> 2)
            == b1) by (bit_vector);
        assert(seq![b0, b1] =~= s);
    } else {
        let b0 = s[0];
        let b1 = s[1];
        let b2 = s[2];
        assert(b0 >> 2 < 64 && ((b0 & 3) << 4) | (b1 >> 4) < 64 && ((b1 & 15) << 2) | (b2 >> 6)
            < 64 && b2 & 63 < 64) by (bit_vector);
        lemma_b64_char_val(b0 >> 2);
        lemma_b64_char_val(((b0 & 3) << 4) | (b1 >> 4));
        lemma_b64_char_val(((b1 & 15) << 2) | (b2 >> 6));
        lemma_b64_char_val(b2 & 63);
        assert(((b0 >> 2) << 2) | ((((b0 & 3) << 4) | (b1 >> 4)) >> 4) == b0 && (((((b0 & 3)
            << 4) | (b1 >> 4)) & 15) << 4) | ((((b1 & 15) << 2) | (b2 >> 6)) >> 2) == b1 && ((((
        (b1 & 15) << 2) | (b2 >> 6)) & 3) << 6) | (b2 & 63) == b2) by (bit_vector);
        let h = b64_bytes(s);
        assert(h.skip(4) =~= b64_bytes(s.skip(3)));
        lemma_unb64_b64(s.skip(3));
        if s.skip(3).len() == 0 {
            assert(h.len() == 4);
        } else if s.skip(3).len() == 1 {
            assert(h.len() == 6);
        } else if s.skip(3).len() == 2 {
            assert(h.len() == 7);
        } else {
            assert(h.len() >= 8);
        }
        assert(seq![b0, b1, b2] + s.skip(3) =~= s);
    }
}

/// Armor a byte string as unpadded base64url.
pub fn b64_encode(b: &Vec<u8>) -> (r: Vec<u8>)
    ensures
        r@ == b64_bytes(b@),
{
    let mut out: Vec<u8> = Vec::new();
    let mut i: usize = 0;
    let n = b.len();
    proof {
        assert(b@.skip(0) =~= b@);
        assert(out@ + b64_bytes(b@) =~= b64_bytes(b@));
    }
    while n - i >= 3
        invariant
            i <= n,
            n == b@.len(),
            out@ + b64_bytes(b@.skip(i as int)) == b64_bytes(b@),
        decreases n - i,
    {
        let b0 = b[i];
        let b1 = b[i + 1];
        let b2 = b[i + 2];
        proof {
            assert(b0 >> 2 < 64 && ((b0 & 3) << 4) | (b1 >> 4) < 64 && ((b1 & 15) << 2) | (b2
                >> 6) < 64 && b2 & 63 < 64) by (bit_vector);
            let rest = b@.skip(i as int);
            assert(rest[0] == b@[i as int]);
            assert(rest[1] == b@[i as int + 1]);
            assert(rest[2] == b@[i as int + 2]);
            assert(rest.skip(3) =~= b@.skip(i as int + 3));
        }
        let before = Ghost(out@);
        out.push(b64_char_ex(b0 >> 2));
        out.push(b64_char_ex(((b0 & 3) << 4) | (b1 >> 4)));
        out.push(b64_char_ex(((b1 & 15) << 2) | (b2 >> 6)));
        out.push(b64_char_ex(b2 & 63));
        proof {
            let rest = b@.skip(i as int);
            assert(out@ =~= before@ + seq![
                b64_char(rest[0] >> 2),
                b64_char(((rest[0] & 3) << 4) | (rest[1] >> 4)),
                b64_char(((rest[1] & 15) << 2) | (rest[2] >> 6)),
                b64_char(rest[2] & 63),
            ]);
            assert(out@ + b64_bytes(b@.skip(i as int + 3)) =~= before@ + b64_bytes(rest));
        }
        i += 3;
    }
    if n - i == 1 {
        let b0 = b[i];
        proof {
            assert(b0 >> 2 < 64 && (b0 & 3) << 4 < 64) by (bit_vector);
            let rest = b@.skip(i as int);
            assert(rest[0] == b@[i as int]);
            assert(rest.len() == 1);
        }
        let before = Ghost(out@);
        out.push(b64_char_ex(b0 >> 2));
        out.push(b64_char_ex((b0 & 3) << 4));
        proof {
            let rest = b@.skip(i as int);
            assert(out@ =~= before@ + b64_bytes(rest));
        }
    } else if n - i == 2 {
        let b0 = b[i];
        let b1 = b[i + 1];
        proof {
            assert(b0 >> 2 < 64 && ((b0 & 3) << 4) | (b1 >> 4) < 64 && (b1 & 15) << 2
                < 64) by (bit_vector);
            let rest = b@.skip(i as int);
            assert(rest[0] == b@[i as int]);
            assert(rest[1] == b@[i as int + 1]);
            assert(rest.len() == 2);
        }
        let before = Ghost(out@);
        out.push(b64_char_ex(b0 >> 2));
        out.push(b64_char_ex(((b0 & 3) << 4) | (b1 >> 4)));
        out.push(b64_char_ex((b1 & 15) << 2));
        proof {
            let rest = b@.skip(i as int);
            assert(out@ =~= before@ + b64_bytes(rest));
        }
    } else {
        proof {
            assert(b@.skip(i as int).len() == 0);
            assert(b64_bytes(b@.skip(i as int)) =~= Seq::<u8>::empty());
            assert(out@ + Seq::<u8>::empty() =~= out@);
        }
    }
    out
}

fn b64_char_ex(v: u8) -> (r: u8)
    requires
        v < 64,
    ensures
        r == b64_char(v),
{
    if v < 26 {
        0x41 + v
    } else if v < 52 {
        0x61 + (v - 26)
    } else if v < 62 {
        0x30 + (v - 52)
    } else if v == 62 {
        0x2d
    } else {
        0x5f
    }
}

fn b64_val_ex(c: u8) -> (r: Option<u8>)
    ensures
        match r {
            Some(v) => b64_val(c) == v as int && v < 64,
            None => b64_val(c) < 0,
        },
{
    if 0x41 <= c && c <= 0x5a {
        Some(c - 0x41)
    } else if 0x61 <= c && c <= 0x7a {
        Some(c - 0x61 + 26)
    } else if 0x30 <= c && c <= 0x39 {
        Some(c - 0x30 + 52)
    } else if c == 0x2d {
        Some(62)
    } else if c == 0x5f {
        Some(63)
    } else {
        None
    }
}

/// Undo the armor; `None` exactly where `spec_unb64_bytes` rejects.
pub fn b64_decode(s: &Vec<u8>) -> (r: Option<Vec<u8>>)
    ensures
        match (r, spec_unb64_bytes(s@)) {
            (Some(v), Some(d)) => v@ == d,
            (None, None) => true,
            _ => false,
        },
{
    let mut out: Vec<u8> = Vec::new();
    let mut i: usize = 0;
    let n = s.len();
    proof {
        assert(s@.skip(0) =~= s@);
    }
    while i < n
        invariant
            i <= n,
            n == s@.len(),
            ({
                let full = spec_unb64_bytes(s@);
                let rem = spec_unb64_bytes(s@.skip(i as int));
                match (full, rem) {
                    (Some(f), Some(rm)) => f == out@ + rm,
                    (None, None) => true,
                    _ => false,
                }
            }),
        decreases n - i,
    {
        let rem_len = n - i;
        proof {
            let rest = s@.skip(i as int);
            assert(rest.len() == rem_len);
            if rem_len >= 1 {
                assert(rest[0] == s@[i as int]);
            }
            if rem_len >= 2 {
                assert(rest[1] == s@[i as int + 1]);
            }
            if rem_len >= 3 {
                assert(rest[2] == s@[i as int + 2]);
            }
            if rem_len >= 4 {
                assert(rest[3] == s@[i as int + 3]);
                assert(rest.skip(4) =~= s@.skip(i as int + 4));
            }
        }
        if rem_len == 1 {
            return None;
        }
        let v0 = match b64_val_ex(s[i]) {
            Some(v) => v,
            None => {
                return None;
            },
        };
        let v1 = match b64_val_ex(s[i + 1]) {
            Some(v) => v,
            None => {
                return None;
            },
        };
        if rem_len == 2 {
            if v1 & 15 != 0 {
                return None;
            }
            out.push((v0 << 2) | (v1 >> 4));
            proof {
                let rest = s@.skip(i as int);
                assert(s@.skip(n as int) =~= Seq::<u8>::empty());
                let rm = spec_unb64_bytes(rest).unwrap();
                assert(out@ + Seq::<u8>::empty() =~= out@);
                assert(out@ =~= out@.drop_last() + rm);
            }
            i += 2;
        } else {
            let v2 = match b64_val_ex(s[i + 2]) {
                Some(v) => v,
                None => {
                    return None;
                },
            };
            if rem_len == 3 {
                if v2 & 3 != 0 {
                    return None;
                }
                let before = Ghost(out@);
                out.push((v0 << 2) | (v1 >> 4));
                out.push(((v1 & 15) << 4) | (v2 >> 2));
                proof {
                    let rest = s@.skip(i as int);
                    assert(s@.skip(n as int) =~= Seq::<u8>::empty());
                    let rm = spec_unb64_bytes(rest).unwrap();
                    assert(out@ =~= before@ + rm);
                }
                i += 3;
            } else {
                let v3 = match b64_val_ex(s[i + 3]) {
                    Some(v) => v,
                    None => {
                        return None;
                    },
                };
                proof {
                    let rest = s@.skip(i as int);
                    let rem2 = spec_unb64_bytes(s@.skip(i as int + 4));
                    match rem2 {
                        Some(r2) => {
                            let y0 = (b64_valu(rest[0]) << 2) | (b64_valu(rest[1]) >> 4);
                            let y1 = ((b64_valu(rest[1]) & 15) << 4) | (b64_valu(rest[2]) >> 2);
                            let y2 = ((b64_valu(rest[2]) & 3) << 6) | b64_valu(rest[3]);
                            assert(out@ + (seq![y0, y1, y2] + r2) =~= ((out@.push(y0).push(
                                y1,
                            ).push(y2)) + r2));
                        },
                        None => {},
                    }
                }
                out.push((v0 << 2) | (v1 >> 4));
                out.push(((v1 & 15) << 4) | (v2 >> 2));
                out.push(((v2 & 3) << 6) | v3);
                i += 4;
            }
        }
    }
    proof {
        assert(s@.skip(n as int) =~= Seq::<u8>::empty());
        if spec_unb64_bytes(s@) is Some {
            assert(out@ + Seq::<u8>::empty() =~= out@);
        }
    }
    Some(out)
}

/// Byte-wise equality of two vectors.
pub fn bytes_eq(a: &Vec<u8>, b: &Vec<u8>) -> (r: bool)
    ensures
        r == (a@ == b@),
{
    if a.len() != b.len() {
        return false;
    }
    let mut i: usize = 0;
    while i < a.len()
        invariant
            i <= a@.len(),
            a@.len() == b@.len(),
            forall|j: int| 0 <= j < i ==> a@[j] == b@[j],
        decreases a@.len() - i,
    {
        if a[i] != b[i] {
            return false;
        }
        i += 1;
    }
    proof {
        assert(a@ =~= b@);
    }
    true
}

// ------------------------------------------------------------------
// executable encoders
// ------------------------------------------------------------------

/// Append the `width`-digit hex form of `n`.
pub fn push_hex(out: &mut Vec<u8>, n: u128, width: usize)
    ensures
        final(out)@ == old(out)@ + spec_hex(n, width as nat),
    decreases width,
{
    if width == 0 {
        proof {
            assert(old(out)@ + spec_hex(n, 0) =~= old(out)@);
        }
    } else {
        push_hex(out, n / 16, width - 1);
        let d = hex_digit_ex((n % 16) as u8);
        out.push(d);
        proof {
            assert((old(out)@ + spec_hex(n / 16, (width - 1) as nat)).push(d) =~= old(out)@
                + spec_hex(n, width as nat));
        }
    }
}

/// Append the bytes of `b`.
pub fn push_bytes(out: &mut Vec<u8>, b: &Vec<u8>)
    ensures
        final(out)@ == old(out)@ + b@,
{
    let mut i: usize = 0;
    proof {
        assert(out@ =~= old(out)@ + b@.take(0));
    }
    while i < b.len()
        invariant
            i <= b@.len(),
            out@ == old(out)@ + b@.take(i as int),
        decreases b@.len() - i,
    {
        out.push(b[i]);
        proof {
            assert((old(out)@ + b@.take(i as int)).push(b@[i as int]) =~= old(out)@ + b@.take(
                i as int + 1,
            ));
        }
        i += 1;
    }
    proof {
        assert(b@.take(b@.len() as int) =~= b@);
    }
}

/// Append a length-prefixed byte string.
pub fn push_lp(out: &mut Vec<u8>, b: &Vec<u8>)
    requires
        b@.len() < 0x1_0000_0000,
    ensures
        final(out)@ == old(out)@ + enc_lp(b@),
{
    push_hex(out, b.len() as u128, 8);
    push_bytes(out, b);
    proof {
        assert((old(out)@ + spec_hex(b@.len() as u128, 8)) + b@ =~= old(out)@ + enc_lp(b@));
    }
}

// ------------------------------------------------------------------
// executable parsers
// ------------------------------------------------------------------

/// Copy `input[from..to]`.
pub fn copy_range(input: &Vec<u8>, from: usize, to: usize) -> (r: Vec<u8>)
    requires
        from <= to,
        to <= input@.len(),
    ensures
        r@ == input@.subrange(from as int, to as int),
{
    let mut out: Vec<u8> = Vec::new();
    let mut i: usize = from;
    proof {
        assert(out@ =~= input@.subrange(from as int, from as int));
    }
    while i < to
        invariant
            from <= i <= to,
            to <= input@.len(),
            out@ == input@.subrange(from as int, i as int),
        decreases to - i,
    {
        out.push(input[i]);
        proof {
            assert(input@.subrange(from as int, i as int).push(input@[i as int]) =~= input@
                .subrange(from as int, i as int + 1));
        }
        i += 1;
    }
    out
}

/// Parse `width` hex digits at `pos`; on success the value and the position
/// just past them.
pub fn parse_hex_at(input: &Vec<u8>, pos: usize, width: usize) -> (r: Option<(u128, usize)>)
    requires
        pos <= input@.len(),
        width <= 32,
    ensures
        match (r, spec_parse_hex(input@.skip(pos as int), width as nat)) {
            (Some(vp), Some(sp)) => {
                &&& vp.0 == sp.0
                &&& vp.1 as int == input@.len() - sp.1.len()
                &&& vp.1 == pos + width
                &&& sp.1 =~= input@.skip(vp.1 as int)
            },
            (None, None) => true,
            _ => false,
        },
{
    let s = Ghost(input@.skip(pos as int));
    let ilen = input.len();
    if ilen - pos < width {
        return None;
    }
    let mut acc: u128 = 0;
    let mut i: usize = 0;
    proof {
        lemma_pow16_widths();
        assert(s@.take(0) =~= Seq::<u8>::empty());
    }
    while i < width
        invariant
            ilen == input@.len(),
            pos + width <= ilen,
            i <= width,
            width <= 32,
            s@ == input@.skip(pos as int),
            all_hex(s@.take(i as int)),
            acc as int == hex_value(s@.take(i as int)),
            acc < pow16(i as nat),
            pow16(32) == 0x1_0000_0000_0000_0000_0000_0000_0000_0000,
        decreases width - i,
    {
        let c = input[pos + i];
        proof {
            assert(s@[i as int] == input@[pos + i]);
        }
        match hex_val_ex(c) {
            None => {
                proof {
                    assert(s@.take(width as int)[i as int] == c);
                }
                return None;
            },
            Some(d) => {
                proof {
                    lemma_pow16_mono(i as nat + 1, 32);
                    lemma_pow16_pos(i as nat);
                    assert(16 * acc as int + d < 16 * pow16(i as nat));
                    let t = s@.take(i as int + 1);
                    assert(t.drop_last() =~= s@.take(i as int));
                    assert(t.last() == c);
                }
                acc = acc * 16 + (d as u128);
            },
        }
        i += 1;
    }
    proof {
        lemma_hex_value_bound(s@.take(width as int));
        assert(input@.skip(pos as int).skip(width as int) =~= input@.skip(pos as int + width));
    }
    Some((acc, pos + width))
}

/// Parse a length-prefixed byte string at `pos`.
pub fn parse_lp_at(input: &Vec<u8>, pos: usize) -> (r: Option<(Vec<u8>, usize)>)
    requires
        pos <= input@.len(),
    ensures
        match (r, spec_parse_lp(input@.skip(pos as int))) {
            (Some(vp), Some(sp)) => {
                &&& vp.0@ == sp.0
                &&& vp.1 as int == input@.len() - sp.1.len()
                &&& pos <= vp.1 <= input@.len()
                &&& sp.1 =~= input@.skip(vp.1 as int)
            },
            (None, None) => true,
            _ => false,
        },
{
    match parse_hex_at(input, pos, 8) {
        None => None,
        Some((n, p2)) => {
            if ((input.len() - p2) as u128) < n {
                None
            } else {
                let len = n as usize;
                let out = copy_range(input, p2, p2 + len);
                proof {
                    let rest = input@.skip(p2 as int);
                    assert(rest.take(len as int) =~= input@.subrange(p2 as int, p2 as int + len));
                    assert(rest.skip(len as int) =~= input@.skip(p2 as int + len));
                }
                Some((out, p2 + len))
            }
        },
    }
}

} // verus!
