//! Text normalisation in front of the hash.
//!
//! A leading byte-order mark picks the encoding (`EF BB BF` for UTF-8,
//! `FF FE` for UTF-16LE, `FE FF` for UTF-16BE; otherwise UTF-8 with
//! nothing consumed).  The remainder is decoded strictly under that
//! encoding and re-encoded as UTF-16LE.  When the remainder is not valid
//! under the detected encoding, the whole attempt is discarded and the
//! raw input bytes stand unchanged: normalisation never produces a
//! partial transform.

use crate::hasher::digest_of;
use crate::hasher::hash;
use vstd::arithmetic::div_mod::lemma_div_denominator;
use vstd::arithmetic::div_mod::lemma_fundamental_div_mod;
use vstd::prelude::*;
use vstd::slice::slice_subrange;
use vstd::slice::slice_to_vec;

verus! {

/// A Unicode scalar value: any code point except the surrogate range.
pub open spec fn is_scalar(c: u32) -> bool {
    c < 0xD800 || (0xE000 <= c && c <= 0x10FFFF)
}

/// Every element of the sequence is a Unicode scalar value.
pub open spec fn all_scalars(s: Seq<u32>) -> bool {
    forall|i: int| 0 <= i < s.len() ==> is_scalar(#[trigger] s[i])
}

/// Prefixes one decoded scalar onto the result of decoding the rest;
/// failure passes through.
pub open spec fn prepend(c: u32, r: Option<Seq<u32>>) -> Option<Seq<u32>> {
    match r {
        Some(s) => Some(seq![c] + s),
        None => None,
    }
}

/// A UTF-8 continuation byte.
pub open spec fn utf8_cont(b: u8) -> bool {
    0x80 <= b <= 0xBF
}

/// The allowed second byte of a three-byte UTF-8 sequence, which rules
/// out overlong forms and surrogate code points.
pub open spec fn utf8_second3(b0: u8, b1: u8) -> bool {
    if b0 == 0xE0 {
        0xA0 <= b1 <= 0xBF
    } else if b0 == 0xED {
        0x80 <= b1 <= 0x9F
    } else {
        utf8_cont(b1)
    }
}

/// The allowed second byte of a four-byte UTF-8 sequence, which rules
/// out overlong forms and code points above 0x10FFFF.
pub open spec fn utf8_second4(b0: u8, b1: u8) -> bool {
    if b0 == 0xF0 {
        0x90 <= b1 <= 0xBF
    } else if b0 == 0xF4 {
        0x80 <= b1 <= 0x8F
    } else {
        utf8_cont(b1)
    }
}

/// The code point of a two-byte UTF-8 sequence.
pub open spec fn utf8_cp2(b0: u8, b1: u8) -> u32 {
    ((b0 - 0xC0) * 0x40 + (b1 - 0x80)) as u32
}

/// The code point of a three-byte UTF-8 sequence.
pub open spec fn utf8_cp3(b0: u8, b1: u8, b2: u8) -> u32 {
    ((b0 - 0xE0) * 0x1000 + (b1 - 0x80) * 0x40 + (b2 - 0x80)) as u32
}

/// The code point of a four-byte UTF-8 sequence.
pub open spec fn utf8_cp4(b0: u8, b1: u8, b2: u8, b3: u8) -> u32 {
    ((b0 - 0xF0) * 0x4_0000 + (b1 - 0x80) * 0x1000 + (b2 - 0x80) * 0x40 + (b3 - 0x80)) as u32
}

/// Strict UTF-8 decoding to a sequence of scalar values: `None` exactly
/// when the bytes are not valid UTF-8.
pub open spec fn utf8_decode(b: Seq<u8>) -> Option<Seq<u32>>
    decreases b.len(),
{
    if b.len() == 0 {
        Some(Seq::empty())
    } else {
        let b0 = b[0];
        if b0 < 0x80 {
            prepend(b0 as u32, utf8_decode(b.skip(1)))
        } else if 0xC2 <= b0 && b0 <= 0xDF {
            if b.len() >= 2 && utf8_cont(b[1]) {
                prepend(utf8_cp2(b0, b[1]), utf8_decode(b.skip(2)))
            } else {
                None
            }
        } else if 0xE0 <= b0 && b0 <= 0xEF {
            if b.len() >= 3 && utf8_second3(b0, b[1]) && utf8_cont(b[2]) {
                prepend(utf8_cp3(b0, b[1], b[2]), utf8_decode(b.skip(3)))
            } else {
                None
            }
        } else if 0xF0 <= b0 && b0 <= 0xF4 {
            if b.len() >= 4 && utf8_second4(b0, b[1]) && utf8_cont(b[2]) && utf8_cont(b[3]) {
                prepend(utf8_cp4(b0, b[1], b[2], b[3]), utf8_decode(b.skip(4)))
            } else {
                None
            }
        } else {
            None
        }
    }
}

/// The 16-bit code unit at unit index `j`, read from two bytes in the
/// given byte order.
pub open spec fn unit_at(b: Seq<u8>, big: bool, j: int) -> u16 {
    if big {
        (b[2 * j] * 0x100 + b[2 * j + 1]) as u16
    } else {
        (b[2 * j] + b[2 * j + 1] * 0x100) as u16
    }
}

/// The sequence of 16-bit code units of a byte sequence of even length.
pub open spec fn utf16_units(b: Seq<u8>, big: bool) -> Seq<u16> {
    Seq::new(b.len() / 2, |j: int| unit_at(b, big, j))
}

/// A leading (high) surrogate code unit.
pub open spec fn is_high_surrogate(u: u16) -> bool {
    0xD800 <= u <= 0xDBFF
}

/// A trailing (low) surrogate code unit.
pub open spec fn is_low_surrogate(u: u16) -> bool {
    0xDC00 <= u <= 0xDFFF
}

/// The scalar value of a surrogate pair.
pub open spec fn pair_value(hi: u16, lo: u16) -> u32 {
    (0x1_0000 + (hi - 0xD800) * 0x400 + (lo - 0xDC00)) as u32
}

/// Strict decoding of a sequence of UTF-16 code units: `None` exactly
/// when a surrogate stands alone or a pair is malformed.
pub open spec fn decode_units(us: Seq<u16>) -> Option<Seq<u32>>
    decreases us.len(),
{
    if us.len() == 0 {
        Some(Seq::empty())
    } else {
        let u = us[0];
        if !is_high_surrogate(u) && !is_low_surrogate(u) {
            prepend(u as u32, decode_units(us.skip(1)))
        } else if is_high_surrogate(u) {
            if us.len() >= 2 && is_low_surrogate(us[1]) {
                prepend(pair_value(u, us[1]), decode_units(us.skip(2)))
            } else {
                None
            }
        } else {
            None
        }
    }
}

/// Strict UTF-16 decoding of a byte sequence: `None` when the length is
/// odd or the unit sequence is malformed.
pub open spec fn utf16_decode(b: Seq<u8>, big: bool) -> Option<Seq<u32>> {
    if b.len() % 2 != 0 {
        None
    } else {
        decode_units(utf16_units(b, big))
    }
}

/// The UTF-16LE bytes of one scalar value: two little-endian bytes
/// below 0x10000, else a surrogate pair of four bytes.
pub open spec fn utf16le_cp_bytes(c: u32) -> Seq<u8> {
    if c < 0x1_0000 {
        seq![(c % 0x100) as u8, (c / 0x100) as u8]
    } else {
        let hi = 0xD800 + (c - 0x1_0000) / 0x400;
        let lo = 0xDC00 + (c - 0x1_0000) % 0x400;
        seq![(hi % 0x100) as u8, (hi / 0x100) as u8, (lo % 0x100) as u8, (lo / 0x100) as u8]
    }
}

/// The UTF-16LE encoding of a sequence of scalar values.  Every scalar
/// value is encodable, so encoding is total and drops nothing.
pub open spec fn utf16le_encode(s: Seq<u32>) -> Seq<u8>
    decreases s.len(),
{
    if s.len() == 0 {
        Seq::empty()
    } else {
        utf16le_cp_bytes(s[0]) + utf16le_encode(s.skip(1))
    }
}

/// The input starts with the UTF-8 byte-order mark.
pub open spec fn bom_utf8(b: Seq<u8>) -> bool {
    b.len() >= 3 && b[0] == 0xEF && b[1] == 0xBB && b[2] == 0xBF
}

/// The input starts with the UTF-16 little-endian byte-order mark.
pub open spec fn bom_utf16le(b: Seq<u8>) -> bool {
    b.len() >= 2 && b[0] == 0xFF && b[1] == 0xFE
}

/// The input starts with the UTF-16 big-endian byte-order mark.
pub open spec fn bom_utf16be(b: Seq<u8>) -> bool {
    b.len() >= 2 && b[0] == 0xFE && b[1] == 0xFF
}

/// The scalar values of the input under its detected encoding, with the
/// byte-order mark consumed; `None` when the remainder is invalid under
/// that encoding.
pub open spec fn decoded_text(raw: Seq<u8>) -> Option<Seq<u32>> {
    if bom_utf8(raw) {
        utf8_decode(raw.skip(3))
    } else if bom_utf16le(raw) {
        utf16_decode(raw.skip(2), false)
    } else if bom_utf16be(raw) {
        utf16_decode(raw.skip(2), true)
    } else {
        utf8_decode(raw)
    }
}

/// The normalised bytes: the detected text re-encoded as UTF-16LE, or
/// the raw input unchanged when decoding fails.
pub open spec fn normalized(raw: Seq<u8>) -> Seq<u8> {
    match decoded_text(raw) {
        Some(cps) => utf16le_encode(cps),
        None => raw,
    }
}

/// Normalisation is all-or-nothing: an input that is invalid under its
/// detected encoding is returned unchanged, so hashing its normalised
/// form equals hashing the raw bytes.
pub proof fn lemma_normalization_fallback(raw: Seq<u8>)
    requires
        decoded_text(raw) is None,
    ensures
        normalized(raw) == raw,
{
}

/// Advances a UTF-8 parse by one decoded scalar: if the bytes from `i`
/// decode to `c` followed by the bytes from `i + k`, the accumulated
/// output absorbs `c`.
proof fn lemma_utf8_advance(full: Seq<u8>, done: Seq<u32>, i: int, k: int, c: u32)
    requires
        0 <= i,
        1 <= k,
        i + k <= full.len(),
        utf8_decode(full.skip(i)) == prepend(c, utf8_decode(full.skip(i + k))),
        (match utf8_decode(full.skip(i)) {
            Some(rest) => utf8_decode(full) == Some(done + rest),
            None => utf8_decode(full) is None,
        }),
    ensures
        (match utf8_decode(full.skip(i + k)) {
            Some(rest) => utf8_decode(full) == Some(done.push(c) + rest),
            None => utf8_decode(full) is None,
        }),
{
    match utf8_decode(full.skip(i + k)) {
        Some(rest) => {
            assert(done + (seq![c] + rest) =~= done.push(c) + rest);
        },
        None => {},
    }
}

/// Advances a UTF-16 unit parse by one decoded scalar.
proof fn lemma_units_advance(us: Seq<u16>, done: Seq<u32>, j: int, k: int, c: u32)
    requires
        0 <= j,
        1 <= k,
        j + k <= us.len(),
        decode_units(us.skip(j)) == prepend(c, decode_units(us.skip(j + k))),
        (match decode_units(us.skip(j)) {
            Some(rest) => decode_units(us) == Some(done + rest),
            None => decode_units(us) is None,
        }),
    ensures
        (match decode_units(us.skip(j + k)) {
            Some(rest) => decode_units(us) == Some(done.push(c) + rest),
            None => decode_units(us) is None,
        }),
{
    match decode_units(us.skip(j + k)) {
        Some(rest) => {
            assert(done + (seq![c] + rest) =~= done.push(c) + rest);
        },
        None => {},
    }
}

/// Whatever strict UTF-8 decoding returns consists of scalar values.
pub proof fn lemma_utf8_decode_scalars(b: Seq<u8>)
    ensures
        utf8_decode(b) is Some ==> all_scalars(utf8_decode(b)->Some_0),
    decreases b.len(),
{
    if b.len() > 0 && utf8_decode(b) is Some {
        let b0 = b[0];
        if b0 < 0x80 {
            lemma_utf8_decode_scalars(b.skip(1));
        } else if 0xC2 <= b0 && b0 <= 0xDF {
            lemma_utf8_decode_scalars(b.skip(2));
        } else if 0xE0 <= b0 && b0 <= 0xEF {
            lemma_utf8_decode_scalars(b.skip(3));
        } else {
            lemma_utf8_decode_scalars(b.skip(4));
        }
    }
}

/// Whatever strict UTF-16 unit decoding returns consists of scalar
/// values.
pub proof fn lemma_decode_units_scalars(us: Seq<u16>)
    ensures
        decode_units(us) is Some ==> all_scalars(decode_units(us)->Some_0),
    decreases us.len(),
{
    if us.len() > 0 && decode_units(us) is Some {
        let u = us[0];
        if !is_high_surrogate(u) && !is_low_surrogate(u) {
            lemma_decode_units_scalars(us.skip(1));
        } else {
            lemma_decode_units_scalars(us.skip(2));
        }
    }
}

/// Strict UTF-8 decoder.  Returns the decoded scalar values, or `None`
/// exactly when the input is not valid UTF-8.
pub fn decode_utf8(b: &[u8]) -> (r: Option<Vec<u32>>)
    ensures
        (match r {
            Some(v) => utf8_decode(b@) == Some(v@),
            None => utf8_decode(b@) is None,
        }),
{
    let n = b.len();
    let mut out: Vec<u32> = Vec::new();
    let mut i: usize = 0;
    proof {
        assert(b@.skip(0) =~= b@);
        match utf8_decode(b@) {
            Some(rest) => {
                assert(Seq::<u32>::empty() + rest =~= rest);
            },
            None => {},
        }
    }
    while i < n
        invariant
            i <= n,
            n == b@.len(),
            (match utf8_decode(b@.skip(i as int)) {
                Some(rest) => utf8_decode(b@) == Some(out@ + rest),
                None => utf8_decode(b@) is None,
            }),
        decreases n - i,
    {
        let ghost pre = b@.skip(i as int);
        let ghost done = out@;
        let b0 = b[i];
        proof {
            assert(pre[0] == b@[i as int]);
        }
        if b0 < 0x80 {
            let c = b0 as u32;
            out.push(c);
            proof {
                assert(pre.skip(1) =~= b@.skip(i + 1));
                lemma_utf8_advance(b@, done, i as int, 1, c);
            }
            i = i + 1;
        } else if 0xC2 <= b0 && b0 <= 0xDF {
            if i + 1 < n && 0x80 <= b[i + 1] && b[i + 1] <= 0xBF {
                let c = (b0 as u32 - 0xC0) * 0x40 + (b[i + 1] as u32 - 0x80);
                out.push(c);
                proof {
                    assert(pre[1] == b@[i + 1]);
                    assert(c == utf8_cp2(b0, b@[i + 1]));
                    assert(pre.skip(2) =~= b@.skip(i + 2));
                    lemma_utf8_advance(b@, done, i as int, 2, c);
                }
                i = i + 2;
            } else {
                proof {
                    assert(utf8_decode(pre) is None);
                }
                return None;
            }
        } else if 0xE0 <= b0 && b0 <= 0xEF {
            let second_ok = i + 1 < n && (if b0 == 0xE0 {
                0xA0 <= b[i + 1] && b[i + 1] <= 0xBF
            } else if b0 == 0xED {
                0x80 <= b[i + 1] && b[i + 1] <= 0x9F
            } else {
                0x80 <= b[i + 1] && b[i + 1] <= 0xBF
            });
            if second_ok && i + 2 < n && 0x80 <= b[i + 2] && b[i + 2] <= 0xBF {
                let c = (b0 as u32 - 0xE0) * 0x1000 + (b[i + 1] as u32 - 0x80) * 0x40 + (b[i + 2]
                    as u32 - 0x80);
                out.push(c);
                proof {
                    assert(pre[1] == b@[i + 1]);
                    assert(pre[2] == b@[i + 2]);
                    assert(c == utf8_cp3(b0, b@[i + 1], b@[i + 2]));
                    assert(pre.skip(3) =~= b@.skip(i + 3));
                    lemma_utf8_advance(b@, done, i as int, 3, c);
                }
                i = i + 3;
            } else {
                proof {
                    assert(utf8_decode(pre) is None);
                }
                return None;
            }
        } else if 0xF0 <= b0 && b0 <= 0xF4 {
            let second_ok = i + 1 < n && (if b0 == 0xF0 {
                0x90 <= b[i + 1] && b[i + 1] <= 0xBF
            } else if b0 == 0xF4 {
                0x80 <= b[i + 1] && b[i + 1] <= 0x8F
            } else {
                0x80 <= b[i + 1] && b[i + 1] <= 0xBF
            });
            if second_ok && n - i > 3 && 0x80 <= b[i + 2] && b[i + 2] <= 0xBF && 0x80 <= b[i + 3]
                && b[i + 3] <= 0xBF {
                let c = (b0 as u32 - 0xF0) * 0x4_0000 + (b[i + 1] as u32 - 0x80) * 0x1000 + (b[i
                    + 2] as u32 - 0x80) * 0x40 + (b[i + 3] as u32 - 0x80);
                out.push(c);
                proof {
                    assert(pre[1] == b@[i + 1]);
                    assert(pre[2] == b@[i + 2]);
                    assert(pre[3] == b@[i + 3]);
                    assert(c == utf8_cp4(b0, b@[i + 1], b@[i + 2], b@[i + 3]));
                    assert(pre.skip(4) =~= b@.skip(i + 4));
                    lemma_utf8_advance(b@, done, i as int, 4, c);
                }
                i = i + 4;
            } else {
                proof {
                    assert(utf8_decode(pre) is None);
                }
                return None;
            }
        } else {
            proof {
                assert(utf8_decode(pre) is None);
            }
            return None;
        }
    }
    proof {
        assert(b@.skip(n as int) =~= Seq::<u8>::empty());
        assert(out@ + Seq::<u32>::empty() =~= out@);
    }
    Some(out)
}

/// Strict UTF-16 decoder over bytes, little-endian when `big` is false.
/// Returns the decoded scalar values, or `None` exactly when the length
/// is odd, a surrogate stands alone, or a pair is malformed.
pub fn decode_utf16(b: &[u8], big: bool) -> (r: Option<Vec<u32>>)
    ensures
        (match r {
            Some(v) => utf16_decode(b@, big) == Some(v@),
            None => utf16_decode(b@, big) is None,
        }),
{
    let n = b.len();
    if n % 2 != 0 {
        return None;
    }
    let ghost us = utf16_units(b@, big);
    let units = n / 2;
    let mut out: Vec<u32> = Vec::new();
    let mut j: usize = 0;
    proof {
        assert(us.skip(0) =~= us);
        match decode_units(us) {
            Some(rest) => {
                assert(Seq::<u32>::empty() + rest =~= rest);
            },
            None => {},
        }
    }
    while j < units
        invariant
            j <= units,
            units == n / 2,
            n == b@.len(),
            n % 2 == 0,
            us == utf16_units(b@, big),
            (match decode_units(us.skip(j as int)) {
                Some(rest) => decode_units(us) == Some(out@ + rest),
                None => decode_units(us) is None,
            }),
        decreases units - j,
    {
        let ghost suf = us.skip(j as int);
        let ghost done = out@;
        let u: u16 = if big {
            (b[2 * j] as u16) * 0x100 + (b[2 * j + 1] as u16)
        } else {
            (b[2 * j] as u16) + (b[2 * j + 1] as u16) * 0x100
        };
        proof {
            assert(us[j as int] == unit_at(b@, big, j as int));
            assert(suf[0] == us[j as int]);
            assert(u == suf[0]);
        }
        if u < 0xD800 || u > 0xDFFF {
            let c = u as u32;
            out.push(c);
            proof {
                assert(suf.skip(1) =~= us.skip(j + 1));
                lemma_units_advance(us, done, j as int, 1, c);
            }
            j = j + 1;
        } else if u <= 0xDBFF {
            if j + 1 < units {
                let u2: u16 = if big {
                    (b[2 * j + 2] as u16) * 0x100 + (b[2 * j + 3] as u16)
                } else {
                    (b[2 * j + 2] as u16) + (b[2 * j + 3] as u16) * 0x100
                };
                proof {
                    assert(us[j + 1] == unit_at(b@, big, j + 1));
                    assert(suf[1] == us[j + 1]);
                    assert(u2 == suf[1]);
                }
                if 0xDC00 <= u2 && u2 <= 0xDFFF {
                    let c = 0x1_0000 + (u as u32 - 0xD800) * 0x400 + (u2 as u32 - 0xDC00);
                    out.push(c);
                    proof {
                        assert(c == pair_value(u, u2));
                        assert(suf.skip(2) =~= us.skip(j + 2));
                        lemma_units_advance(us, done, j as int, 2, c);
                    }
                    j = j + 2;
                } else {
                    proof {
                        assert(decode_units(suf) is None);
                    }
                    return None;
                }
            } else {
                proof {
                    assert(suf.len() == units - j);
                    assert(decode_units(suf) is None);
                }
                return None;
            }
        } else {
            proof {
                assert(decode_units(suf) is None);
            }
            return None;
        }
    }
    proof {
        assert(us.skip(units as int) =~= Seq::<u16>::empty());
        assert(out@ + Seq::<u32>::empty() =~= out@);
    }
    Some(out)
}

/// UTF-16LE encoder over scalar values.  Total: every scalar value has
/// an encoding.
pub fn encode_utf16le(cps: &Vec<u32>) -> (r: Vec<u8>)
    requires
        all_scalars(cps@),
    ensures
        r@ == utf16le_encode(cps@),
{
    let n = cps.len();
    let mut out: Vec<u8> = Vec::new();
    let mut i: usize = 0;
    proof {
        assert(cps@.skip(0) =~= cps@);
        assert(Seq::<u8>::empty() + utf16le_encode(cps@) =~= utf16le_encode(cps@));
    }
    while i < n
        invariant
            i <= n,
            n == cps@.len(),
            all_scalars(cps@),
            utf16le_encode(cps@) == out@ + utf16le_encode(cps@.skip(i as int)),
        decreases n - i,
    {
        let ghost suf = cps@.skip(i as int);
        let ghost done = out@;
        let c = cps[i];
        proof {
            assert(suf[0] == cps@[i as int]);
            assert(is_scalar(c));
            assert(suf.skip(1) =~= cps@.skip(i + 1));
        }
        if c < 0x1_0000 {
            out.push((c % 0x100) as u8);
            out.push((c / 0x100) as u8);
        } else {
            let hi = 0xD800 + (c - 0x1_0000) / 0x400;
            let lo = 0xDC00 + (c - 0x1_0000) % 0x400;
            out.push((hi % 0x100) as u8);
            out.push((hi / 0x100) as u8);
            out.push((lo % 0x100) as u8);
            out.push((lo / 0x100) as u8);
        }
        proof {
            assert(out@ =~= done + utf16le_cp_bytes(c));
            assert(done + (utf16le_cp_bytes(c) + utf16le_encode(cps@.skip(i + 1))) =~= out@
                + utf16le_encode(cps@.skip(i + 1)));
        }
        i = i + 1;
    }
    proof {
        assert(cps@.skip(n as int) =~= Seq::<u32>::empty());
        assert(out@ + Seq::<u8>::empty() =~= out@);
    }
    out
}

/// Normalises raw bytes to UTF-16LE under the encoding announced by a
/// leading byte-order mark (UTF-8 assumed when none is present), or
/// returns the input unchanged when it is invalid under that encoding.
/// Total: never fails.
pub fn normalize(raw: &[u8]) -> (r: Vec<u8>)
    ensures
        r@ == normalized(raw@),
{
    let n = raw.len();
    let dec: Option<Vec<u32>> = if n >= 3 && raw[0] == 0xEF && raw[1] == 0xBB && raw[2] == 0xBF {
        let body = slice_subrange(raw, 3, n);
        proof {
            assert(body@ =~= raw@.skip(3));
        }
        decode_utf8(body)
    } else if n >= 2 && raw[0] == 0xFF && raw[1] == 0xFE {
        let body = slice_subrange(raw, 2, n);
        proof {
            assert(body@ =~= raw@.skip(2));
        }
        decode_utf16(body, false)
    } else if n >= 2 && raw[0] == 0xFE && raw[1] == 0xFF {
        let body = slice_subrange(raw, 2, n);
        proof {
            assert(body@ =~= raw@.skip(2));
        }
        decode_utf16(body, true)
    } else {
        decode_utf8(raw)
    };
    match dec {
        Some(cps) => {
            proof {
                if bom_utf8(raw@) {
                    lemma_utf8_decode_scalars(raw@.skip(3));
                } else if bom_utf16le(raw@) {
                    lemma_decode_units_scalars(utf16_units(raw@.skip(2), false));
                } else if bom_utf16be(raw@) {
                    lemma_decode_units_scalars(utf16_units(raw@.skip(2), true));
                } else {
                    lemma_utf8_decode_scalars(raw@);
                }
            }
            encode_utf16le(&cps)
        },
        None => slice_to_vec(raw),
    }
}

/// The UTF-16BE bytes of one scalar value.
pub open spec fn utf16be_cp_bytes(c: u32) -> Seq<u8> {
    if c < 0x1_0000 {
        seq![(c / 0x100) as u8, (c % 0x100) as u8]
    } else {
        let hi = 0xD800 + (c - 0x1_0000) / 0x400;
        let lo = 0xDC00 + (c - 0x1_0000) % 0x400;
        seq![(hi / 0x100) as u8, (hi % 0x100) as u8, (lo / 0x100) as u8, (lo % 0x100) as u8]
    }
}

/// The UTF-16 bytes of one scalar value in the given byte order.
pub open spec fn utf16_cp_bytes(c: u32, big: bool) -> Seq<u8> {
    if big {
        utf16be_cp_bytes(c)
    } else {
        utf16le_cp_bytes(c)
    }
}

/// The UTF-16 encoding of a sequence of scalar values in the given byte
/// order.
pub open spec fn utf16_encode(s: Seq<u32>, big: bool) -> Seq<u8>
    decreases s.len(),
{
    if s.len() == 0 {
        Seq::empty()
    } else {
        utf16_cp_bytes(s[0], big) + utf16_encode(s.skip(1), big)
    }
}

/// The little-endian case of the general encoder is the UTF-16LE
/// encoder.
pub proof fn lemma_utf16_encode_le(s: Seq<u32>)
    ensures
        utf16_encode(s, false) == utf16le_encode(s),
    decreases s.len(),
{
    if s.len() > 0 {
        lemma_utf16_encode_le(s.skip(1));
    }
}

/// The UTF-8 bytes of one scalar value.
pub open spec fn utf8_cp_bytes(c: u32) -> Seq<u8> {
    if c < 0x80 {
        seq![c as u8]
    } else if c < 0x800 {
        seq![(0xC0 + c / 0x40) as u8, (0x80 + c % 0x40) as u8]
    } else if c < 0x1_0000 {
        seq![
            (0xE0 + c / 0x1000) as u8,
            (0x80 + (c / 0x40) % 0x40) as u8,
            (0x80 + c % 0x40) as u8,
        ]
    } else {
        seq![
            (0xF0 + c / 0x4_0000) as u8,
            (0x80 + (c / 0x1000) % 0x40) as u8,
            (0x80 + (c / 0x40) % 0x40) as u8,
            (0x80 + c % 0x40) as u8,
        ]
    }
}

/// The UTF-8 encoding of a sequence of scalar values.
pub open spec fn utf8_encode(s: Seq<u32>) -> Seq<u8>
    decreases s.len(),
{
    if s.len() == 0 {
        Seq::empty()
    } else {
        utf8_cp_bytes(s[0]) + utf8_encode(s.skip(1))
    }
}

/// Dropping the first element of an all-scalar sequence keeps it all
/// scalar.
proof fn lemma_skip_scalars(s: Seq<u32>)
    requires
        all_scalars(s),
        s.len() > 0,
    ensures
        all_scalars(s.skip(1)),
{
    assert forall|i: int| 0 <= i < s.skip(1).len() implies is_scalar(#[trigger] s.skip(1)[i]) by {
        assert(s.skip(1)[i] == s[i + 1]);
    }
}

/// Splitting the code-unit stream of concatenated bytes at an even
/// boundary splits into the unit streams of the parts.
proof fn lemma_units_concat(a: Seq<u8>, b: Seq<u8>, big: bool)
    requires
        a.len() % 2 == 0,
    ensures
        utf16_units(a + b, big) == utf16_units(a, big) + utf16_units(b, big),
{
    let l = utf16_units(a + b, big);
    let r = utf16_units(a, big) + utf16_units(b, big);
    assert(l =~= r) by {
        assert forall|j: int| 0 <= j < l.len() implies l[j] == r[j] by {
            if j < a.len() / 2 {
                assert((a + b)[2 * j] == a[2 * j]);
                assert((a + b)[2 * j + 1] == a[2 * j + 1]);
            } else {
                assert(2 * j - a.len() == 2 * (j - a.len() / 2));
                assert((a + b)[2 * j] == b[2 * j - a.len()]);
                assert((a + b)[2 * j + 1] == b[2 * j + 1 - a.len()]);
                assert(r[j] == unit_at(b, big, j - a.len() / 2));
            }
        }
    }
}

/// Decoding inverts UTF-16 encoding on scalar values, in either byte
/// order.
pub proof fn lemma_utf16_round_trip(cps: Seq<u32>, big: bool)
    requires
        all_scalars(cps),
    ensures
        utf16_encode(cps, big).len() % 2 == 0,
        utf16_decode(utf16_encode(cps, big), big) == Some(cps),
    decreases cps.len(),
{
    let enc = utf16_encode(cps, big);
    if cps.len() == 0 {
        assert(utf16_units(enc, big) =~= Seq::<u16>::empty());
        assert(cps =~= Seq::<u32>::empty());
    } else {
        let c = cps[0];
        let rest = cps.skip(1);
        lemma_skip_scalars(cps);
        lemma_utf16_round_trip(rest, big);
        let cpb = utf16_cp_bytes(c, big);
        let rem = utf16_encode(rest, big);
        lemma_units_concat(cpb, rem, big);
        let us = utf16_units(enc, big);
        let us_r = utf16_units(rem, big);
        if c < 0x1_0000 {
            assert(utf16_units(cpb, big) =~= seq![c as u16]) by {
                lemma_fundamental_div_mod(c as int, 0x100);
            }
            assert(us =~= seq![c as u16] + us_r);
            assert(us[0] == c as u16);
            assert(!is_high_surrogate(us[0]) && !is_low_surrogate(us[0]));
            assert(us.skip(1) =~= us_r);
            assert(seq![c] + rest =~= cps);
        } else {
            let hi = 0xD800 + (c - 0x1_0000) / 0x400;
            let lo = 0xDC00 + (c - 0x1_0000) % 0x400;
            assert((c - 0x1_0000) / 0x400 <= 0x3FF);
            assert(utf16_units(cpb, big) =~= seq![hi as u16, lo as u16]) by {
                lemma_fundamental_div_mod(hi, 0x100);
                lemma_fundamental_div_mod(lo, 0x100);
            }
            assert(us =~= seq![hi as u16, lo as u16] + us_r);
            assert(us[0] == hi as u16 && us[1] == lo as u16);
            assert(is_high_surrogate(us[0]) && is_low_surrogate(us[1]));
            assert(us.skip(2) =~= us_r);
            assert(pair_value(us[0], us[1]) == c) by {
                lemma_fundamental_div_mod((c - 0x1_0000) as int, 0x400);
            }
            assert(seq![c] + rest =~= cps);
        }
    }
}

/// Decoding reads back one UTF-8-encoded scalar value ahead of any
/// following bytes.
proof fn lemma_utf8_cp_decode(c: u32, t: Seq<u8>)
    requires
        is_scalar(c),
    ensures
        utf8_decode(utf8_cp_bytes(c) + t) == prepend(c, utf8_decode(t)),
{
    let e = utf8_cp_bytes(c);
    let s = e + t;
    if c < 0x80 {
        assert(s[0] == c as u8);
        assert(s.skip(1) =~= t);
    } else if c < 0x800 {
        let b0 = (0xC0 + c / 0x40) as u8;
        let b1 = (0x80 + c % 0x40) as u8;
        assert(s[0] == b0 && s[1] == b1);
        assert(0xC2 <= b0 && b0 <= 0xDF);
        assert(utf8_cont(b1));
        assert(utf8_cp2(b0, b1) == c) by {
            lemma_fundamental_div_mod(c as int, 0x40);
        }
        assert(s.skip(2) =~= t);
    } else if c < 0x1_0000 {
        let b0 = (0xE0 + c / 0x1000) as u8;
        let b1 = (0x80 + (c / 0x40) % 0x40) as u8;
        let b2 = (0x80 + c % 0x40) as u8;
        assert(s[0] == b0 && s[1] == b1 && s[2] == b2);
        assert(0xE0 <= b0 && b0 <= 0xEF);
        assert(utf8_cont(b1) && utf8_cont(b2));
        assert(c / 0x1000 == (c / 0x40) / 0x40) by {
            lemma_div_denominator(c as int, 0x40, 0x40);
        }
        assert(c == (c / 0x1000) * 0x1000 + ((c / 0x40) % 0x40) * 0x40 + c % 0x40) by {
            lemma_fundamental_div_mod(c as int, 0x40);
            lemma_fundamental_div_mod((c as int) / 0x40, 0x40);
            lemma_div_denominator(c as int, 0x40, 0x40);
        }
        assert(utf8_second3(b0, b1)) by {
            if c < 0x1000 {
                assert(c / 0x40 >= 0x20);
                assert(c / 0x40 < 0x40);
            } else if c / 0x1000 == 0xD {
                assert(c < 0xD800);
                assert(c / 0x40 < 0x360);
                assert(c / 0x40 >= 0x340);
            }
        }
        assert(utf8_cp3(b0, b1, b2) == c);
        assert(s.skip(3) =~= t);
    } else {
        let b0 = (0xF0 + c / 0x4_0000) as u8;
        let b1 = (0x80 + (c / 0x1000) % 0x40) as u8;
        let b2 = (0x80 + (c / 0x40) % 0x40) as u8;
        let b3 = (0x80 + c % 0x40) as u8;
        assert(s[0] == b0 && s[1] == b1 && s[2] == b2 && s[3] == b3);
        assert(c <= 0x10FFFF);
        assert(0xF0 <= b0 && b0 <= 0xF4);
        assert(utf8_cont(b1) && utf8_cont(b2) && utf8_cont(b3));
        assert(c / 0x1000 == (c / 0x40) / 0x40) by {
            lemma_div_denominator(c as int, 0x40, 0x40);
        }
        assert(c / 0x4_0000 == (c / 0x1000) / 0x40) by {
            lemma_div_denominator(c as int, 0x1000, 0x40);
        }
        assert(c == (c / 0x4_0000) * 0x4_0000 + ((c / 0x1000) % 0x40) * 0x1000 + ((c / 0x40)
            % 0x40) * 0x40 + c % 0x40) by {
            lemma_fundamental_div_mod(c as int, 0x40);
            lemma_fundamental_div_mod((c as int) / 0x40, 0x40);
            lemma_fundamental_div_mod((c as int) / 0x1000, 0x40);
            lemma_div_denominator(c as int, 0x40, 0x40);
            lemma_div_denominator(c as int, 0x1000, 0x40);
        }
        assert(utf8_second4(b0, b1)) by {
            if c < 0x4_0000 {
                assert(c / 0x1000 >= 0x10);
                assert(c / 0x1000 < 0x40);
            } else if c / 0x4_0000 == 4 {
                assert(c / 0x1000 >= 0x100);
                assert(c / 0x1000 <= 0x10F);
            }
        }
        assert(utf8_cp4(b0, b1, b2, b3) == c);
        assert(s.skip(4) =~= t);
    }
}

/// Decoding inverts UTF-8 encoding on scalar values.
pub proof fn lemma_utf8_round_trip(cps: Seq<u32>)
    requires
        all_scalars(cps),
    ensures
        utf8_decode(utf8_encode(cps)) == Some(cps),
    decreases cps.len(),
{
    if cps.len() == 0 {
        assert(utf8_encode(cps) =~= Seq::<u8>::empty());
        assert(cps =~= Seq::<u32>::empty());
    } else {
        let rest = cps.skip(1);
        lemma_skip_scalars(cps);
        lemma_utf8_round_trip(rest);
        lemma_utf8_cp_decode(cps[0], utf8_encode(rest));
        assert(seq![cps[0]] + rest =~= cps);
    }
}

/// One text, three byte-order-marked encodings, one normal form: the
/// UTF-8, UTF-16LE and UTF-16BE encodings of the same scalar values,
/// each behind its mark, all normalise to the same UTF-16LE byte
/// sequence — and therefore to the same digest.
pub proof fn lemma_bom_equivalence(cps: Seq<u32>)
    requires
        all_scalars(cps),
    ensures
        normalized(seq![0xEFu8, 0xBBu8, 0xBFu8] + utf8_encode(cps)) == utf16le_encode(cps),
        normalized(seq![0xFFu8, 0xFEu8] + utf16_encode(cps, false)) == utf16le_encode(cps),
        normalized(seq![0xFEu8, 0xFFu8] + utf16_encode(cps, true)) == utf16le_encode(cps),
{
    lemma_utf16_encode_le(cps);
    let a = seq![0xEFu8, 0xBBu8, 0xBFu8] + utf8_encode(cps);
    assert(bom_utf8(a));
    assert(a.skip(3) =~= utf8_encode(cps));
    lemma_utf8_round_trip(cps);
    let b = seq![0xFFu8, 0xFEu8] + utf16_encode(cps, false);
    assert(!bom_utf8(b));
    assert(bom_utf16le(b));
    assert(b.skip(2) =~= utf16_encode(cps, false));
    lemma_utf16_round_trip(cps, false);
    let d = seq![0xFEu8, 0xFFu8] + utf16_encode(cps, true);
    assert(!bom_utf8(d) && !bom_utf16le(d));
    assert(bom_utf16be(d));
    assert(d.skip(2) =~= utf16_encode(cps, true));
    lemma_utf16_round_trip(cps, true);
}

/// Digest of the normalised input: identical to [`hash`] after the text
/// normaliser, so an input that is invalid under its detected encoding
/// hashes exactly as its raw bytes do.
pub fn hash_text(input: &[u8]) -> (r: Vec<u8>)
    ensures
        r@ == digest_of(normalized(input@)),
        r@.len() == 20,
{
    let norm = normalize(input);
    hash(norm.as_slice())
}

} // verus!
