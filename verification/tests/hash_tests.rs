use lanehash::hash;
use lanehash::Hasher;

const EMPTY_DIGEST: [u8; 20] = [
    0x3F, 0xB7, 0x51, 0x60, 0xAB, 0x1F, 0x4E, 0x4E, 0x82, 0x67, 0x5B, 0xC4, 0xCD, 0x92, 0x4D,
    0x34, 0x81, 0xAB, 0xE2, 0x78,
];

const ABC_DIGEST: [u8; 20] = [
    0x37, 0xCA, 0xD8, 0x76, 0xAB, 0x1F, 0x4E, 0x4E, 0x82, 0x67, 0x5B, 0xC4, 0xCD, 0x92, 0x4D,
    0x34, 0x81, 0xAB, 0xE2, 0x78,
];

#[test]
fn golden_empty_buffer() {
    assert_eq!(hash(&[]), EMPTY_DIGEST.to_vec());
}

#[test]
fn golden_abc() {
    assert_eq!(hash(b"abc"), ABC_DIGEST.to_vec());
}

#[test]
fn golden_full_word_inputs() {
    let expected = vec![
        0x3B, 0x55, 0x17, 0x07, 0xAB, 0x1F, 0x4E, 0x4E, 0x82, 0x67, 0x5B, 0xC4, 0xCD, 0x92,
        0x4D, 0x34, 0x81, 0xAB, 0xE2, 0x78,
    ];
    assert_eq!(hash(b"abcd"), expected);

    let expected12 = vec![
        0x0D, 0x07, 0xB4, 0x38, 0x34, 0x74, 0x52, 0x01, 0x0B, 0x22, 0x94, 0xF1, 0xCD, 0x92,
        0x4D, 0x34, 0x81, 0xAB, 0xE2, 0x78,
    ];
    assert_eq!(hash(b"hello world!"), expected12);
}

#[test]
fn tail_packing_one_leftover_byte() {
    // 4k+1 with k = 0: the lone byte packs into the low bits of the
    // final word.
    let expected = vec![
        0x28, 0x13, 0xC3, 0x09, 0xAB, 0x1F, 0x4E, 0x4E, 0x82, 0x67, 0x5B, 0xC4, 0xCD, 0x92,
        0x4D, 0x34, 0x81, 0xAB, 0xE2, 0x78,
    ];
    assert_eq!(hash(b"x"), expected);

    // 4k+1 with k = 1.
    let expected5 = vec![
        0x3B, 0x55, 0x17, 0x07, 0x76, 0x3C, 0x48, 0xBE, 0x82, 0x67, 0x5B, 0xC4, 0xCD, 0x92,
        0x4D, 0x34, 0x81, 0xAB, 0xE2, 0x78,
    ];
    assert_eq!(hash(b"abcde"), expected5);
}

#[test]
fn tail_packing_two_leftover_bytes_is_big_endian() {
    // Two leftover bytes b0, b1 pack as (b0 << 8) | b1, never as
    // b0 | (b1 << 8): the digest of [0x01, 0x02] fixes the word 0x0102.
    let expected = vec![
        0x27, 0x76, 0xA5, 0x6E, 0xAB, 0x1F, 0x4E, 0x4E, 0x82, 0x67, 0x5B, 0xC4, 0xCD, 0x92,
        0x4D, 0x34, 0x81, 0xAB, 0xE2, 0x78,
    ];
    assert_eq!(hash(&[0x01, 0x02]), expected);

    let expected6 = vec![
        0x3B, 0x55, 0x17, 0x07, 0x8D, 0xC6, 0x1D, 0xB3, 0x82, 0x67, 0x5B, 0xC4, 0xCD, 0x92,
        0x4D, 0x34, 0x81, 0xAB, 0xE2, 0x78,
    ];
    assert_eq!(hash(b"abcdef"), expected6);
}

#[test]
fn tail_packing_three_leftover_bytes() {
    let expected7 = vec![
        0x3B, 0x55, 0x17, 0x07, 0x38, 0xAD, 0xF0, 0x59, 0x82, 0x67, 0x5B, 0xC4, 0xCD, 0x92,
        0x4D, 0x34, 0x81, 0xAB, 0xE2, 0x78,
    ];
    assert_eq!(hash(b"abcdefg"), expected7);
}

#[test]
fn determinism() {
    let input = b"the same input twice";
    assert_eq!(hash(input), hash(input));
    let mut h1 = Hasher::new();
    h1.update(input);
    let mut h2 = Hasher::new();
    h2.update(input);
    assert_eq!(h1.digest(), h2.digest());
}

#[test]
fn empty_input_one_shot_equals_streaming() {
    let h = Hasher::new();
    assert_eq!(h.digest(), hash(&[]));
    assert_eq!(hash(&[]), EMPTY_DIGEST.to_vec());
}

#[test]
fn chunk_invariance_byte_at_a_time() {
    let input: Vec<u8> = (0u8..26).collect();
    let one_shot = hash(&input);
    let mut h = Hasher::new();
    for b in &input {
        h.update(&[*b]);
    }
    assert_eq!(h.digest(), one_shot);
}

#[test]
fn chunk_invariance_with_empty_chunks() {
    let input = b"chunked arbitrarily";
    let one_shot = hash(input);
    let mut h = Hasher::new();
    h.update(&[]);
    h.update(&input[0..5]);
    h.update(&[]);
    h.update(&input[5..5]);
    h.update(&input[5..19]);
    h.update(&[]);
    assert_eq!(h.digest(), one_shot);
}

#[test]
fn chunk_invariance_straddling_word_boundaries() {
    let input: Vec<u8> = (0u8..23).map(|b| b.wrapping_mul(37).wrapping_add(11)).collect();
    let one_shot = hash(&input);
    // Splits landing exactly on, just before, and just after every
    // 4-byte word boundary.
    for split in 0..=input.len() {
        let mut h = Hasher::new();
        h.update(&input[..split]);
        h.update(&input[split..]);
        assert_eq!(h.digest(), one_shot, "split at {split}");
    }
    // A three-way split straddling two boundaries at once.
    let mut h = Hasher::new();
    h.update(&input[..3]);
    h.update(&input[3..9]);
    h.update(&input[9..]);
    assert_eq!(h.digest(), one_shot);
}

#[test]
fn length_sensitivity_every_length_mod_four() {
    for base_len in [4usize, 5, 6, 7] {
        let input: Vec<u8> = (0..base_len).map(|i| (i * 31 + 7) as u8).collect();
        let mut extended = input.clone();
        extended.push(0x00);
        assert_ne!(hash(&input), hash(&extended), "length {base_len}");
    }
}

#[test]
fn digest_is_twenty_bytes() {
    assert_eq!(hash(&[]).len(), 20);
    assert_eq!(hash(b"some moderately long input for the lanes").len(), 20);
}
