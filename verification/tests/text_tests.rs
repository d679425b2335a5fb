use lanehash::decode_utf16;
use lanehash::decode_utf8;
use lanehash::encode_utf16le;
use lanehash::hash;
use lanehash::hash_text;
use lanehash::normalize;

// Digest of the UTF-16LE bytes of "hi" (68 00 69 00).
const HI_TEXT_DIGEST: [u8; 20] = [
    0x1C, 0xD7, 0xF1, 0x38, 0xAB, 0x1F, 0x4E, 0x4E, 0x82, 0x67, 0x5B, 0xC4, 0xCD, 0x92, 0x4D,
    0x34, 0x81, 0xAB, 0xE2, 0x78,
];

#[test]
fn normalize_plain_ascii_to_utf16le() {
    assert_eq!(normalize(b"hi"), vec![0x68, 0x00, 0x69, 0x00]);
}

#[test]
fn hash_text_plain_ascii() {
    assert_eq!(hash_text(b"hi"), HI_TEXT_DIGEST.to_vec());
}

#[test]
fn bom_forms_normalize_identically() {
    // "hi" as UTF-8 behind the UTF-8 mark, as UTF-16LE behind FF FE,
    // and as UTF-16BE behind FE FF.
    let utf8_bom = [0xEF, 0xBB, 0xBF, 0x68, 0x69];
    let utf16le_bom = [0xFF, 0xFE, 0x68, 0x00, 0x69, 0x00];
    let utf16be_bom = [0xFE, 0xFF, 0x00, 0x68, 0x00, 0x69];
    let norm = normalize(&utf8_bom);
    assert_eq!(norm, vec![0x68, 0x00, 0x69, 0x00]);
    assert_eq!(normalize(&utf16le_bom), norm);
    assert_eq!(normalize(&utf16be_bom), norm);
    assert_eq!(hash_text(&utf8_bom), HI_TEXT_DIGEST.to_vec());
    assert_eq!(hash_text(&utf16le_bom), HI_TEXT_DIGEST.to_vec());
    assert_eq!(hash_text(&utf16be_bom), HI_TEXT_DIGEST.to_vec());
}

#[test]
fn bom_forms_agree_beyond_the_basic_plane() {
    // U+1F600 in all three marked encodings; its UTF-16LE bytes are
    // 3D D8 00 DE (surrogate pair D83D DE00).
    let expected = vec![
        0x26, 0x13, 0x70, 0x0B, 0xAB, 0x1F, 0x4E, 0x4E, 0x82, 0x67, 0x5B, 0xC4, 0xCD, 0x92,
        0x4D, 0x34, 0x81, 0xAB, 0xE2, 0x78,
    ];
    let utf8_bom = [0xEF, 0xBB, 0xBF, 0xF0, 0x9F, 0x98, 0x80];
    let utf16le_bom = [0xFF, 0xFE, 0x3D, 0xD8, 0x00, 0xDE];
    let utf16be_bom = [0xFE, 0xFF, 0xD8, 0x3D, 0xDE, 0x00];
    assert_eq!(hash_text(&utf8_bom), expected);
    assert_eq!(hash_text(&utf16le_bom), expected);
    assert_eq!(hash_text(&utf16be_bom), expected);
}

#[test]
fn two_byte_utf8_normalizes() {
    // U+00E9 as UTF-8 (C3 A9) normalizes to E9 00.
    let expected = vec![
        0x21, 0x27, 0xDE, 0xC1, 0xAB, 0x1F, 0x4E, 0x4E, 0x82, 0x67, 0x5B, 0xC4, 0xCD, 0x92,
        0x4D, 0x34, 0x81, 0xAB, 0xE2, 0x78,
    ];
    assert_eq!(normalize(&[0xC3, 0xA9]), vec![0xE9, 0x00]);
    assert_eq!(hash_text(&[0xC3, 0xA9]), expected);
}

#[test]
fn invalid_utf8_falls_back_to_raw_bytes() {
    // 0xFF is never a UTF-8 leading byte, and the buffer carries no
    // byte-order mark, so the raw bytes are hashed unchanged.
    let raw = [0x66, 0xFF, 0x67];
    assert_eq!(normalize(&raw), raw.to_vec());
    assert_eq!(hash_text(&raw), hash(&raw));
}

#[test]
fn invalid_body_behind_bom_falls_back_to_whole_input() {
    // A lone continuation byte after the UTF-8 mark: the whole buffer,
    // mark included, is hashed raw.
    let raw = [0xEF, 0xBB, 0xBF, 0x80];
    assert_eq!(normalize(&raw), raw.to_vec());
    assert_eq!(hash_text(&raw), hash(&raw));
}

#[test]
fn odd_length_utf16_falls_back() {
    let raw = [0xFF, 0xFE, 0x68];
    assert_eq!(normalize(&raw), raw.to_vec());
    assert_eq!(hash_text(&raw), hash(&raw));
}

#[test]
fn lone_surrogate_utf16_falls_back() {
    // A high surrogate with no trailing partner is invalid UTF-16BE.
    let raw = [0xFE, 0xFF, 0xD8, 0x00, 0x00, 0x68];
    assert_eq!(normalize(&raw), raw.to_vec());
    assert_eq!(hash_text(&raw), hash(&raw));
}

#[test]
fn empty_text_hashes_like_empty_bytes() {
    assert_eq!(hash_text(&[]), hash(&[]));
}

#[test]
fn decode_utf8_accepts_and_rejects() {
    assert_eq!(decode_utf8(b"hi"), Some(vec![0x68, 0x69]));
    assert_eq!(decode_utf8(&[0xC3, 0xA9]), Some(vec![0xE9]));
    assert_eq!(decode_utf8(&[0xE2, 0x82, 0xAC]), Some(vec![0x20AC]));
    assert_eq!(decode_utf8(&[0xF0, 0x9F, 0x98, 0x80]), Some(vec![0x1F600]));
    // Overlong form of U+0000.
    assert_eq!(decode_utf8(&[0xC0, 0x80]), None);
    // Encoded surrogate U+D800.
    assert_eq!(decode_utf8(&[0xED, 0xA0, 0x80]), None);
    // Truncated sequence.
    assert_eq!(decode_utf8(&[0xE2, 0x82]), None);
    // Beyond U+10FFFF.
    assert_eq!(decode_utf8(&[0xF4, 0x90, 0x80, 0x80]), None);
}

#[test]
fn decode_utf16_both_byte_orders() {
    assert_eq!(decode_utf16(&[0x68, 0x00, 0x3D, 0xD8, 0x00, 0xDE], false), Some(vec![0x68, 0x1F600]));
    assert_eq!(decode_utf16(&[0x00, 0x68, 0xD8, 0x3D, 0xDE, 0x00], true), Some(vec![0x68, 0x1F600]));
    // Odd length.
    assert_eq!(decode_utf16(&[0x68], false), None);
    // Low surrogate first.
    assert_eq!(decode_utf16(&[0x00, 0xDC], false), None);
    // High surrogate followed by a non-surrogate.
    assert_eq!(decode_utf16(&[0x3D, 0xD8, 0x68, 0x00], false), None);
}

#[test]
fn encode_utf16le_round_trips_through_decode() {
    let cps = vec![0x68, 0xE9, 0x20AC, 0x1F600];
    let bytes = encode_utf16le(&cps);
    assert_eq!(
        bytes,
        vec![0x68, 0x00, 0xE9, 0x00, 0xAC, 0x20, 0x3D, 0xD8, 0x00, 0xDE]
    );
    assert_eq!(decode_utf16(&bytes, false), Some(cps));
}
