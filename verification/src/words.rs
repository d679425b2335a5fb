//! Packing a byte sequence into the stream of 32-bit words that the lane
//! engine consumes.
//!
//! Full words take four consecutive bytes in little-endian order.  The
//! trailing one to three bytes, if any, are packed big-endian into the
//! low-order bits of one final word.  This asymmetry is a fixed
//! compatibility requirement of the reference algorithm.

use vstd::prelude::*;

verus! {

/// The 32-bit word assembled from four consecutive bytes in
/// little-endian order: the first byte fills bits 0..8.
pub open spec fn le_word(b0: u8, b1: u8, b2: u8, b3: u8) -> u32 {
    (b0 + b1 * 0x100 + b2 * 0x1_0000 + b3 * 0x100_0000) as u32
}

/// The complete words of a byte sequence, in input order.
pub open spec fn full_words(b: Seq<u8>) -> Seq<u32> {
    Seq::new(b.len() / 4, |j: int| le_word(b[4 * j], b[4 * j + 1], b[4 * j + 2], b[4 * j + 3]))
}

/// The leftover bytes after the last complete word, in arrival order.
pub open spec fn tail_bytes(b: Seq<u8>) -> Seq<u8> {
    b.subrange(b.len() - (b.len() % 4), b.len() as int)
}

/// The word packed from the leftover bytes: the first leftover byte is
/// the most significant populated byte, the last one fills bits 0..8,
/// and the unused high bits stay zero.
pub open spec fn tail_word(b: Seq<u8>) -> u32 {
    let n = b.len() as int;
    let k = b.len() % 4;
    if k == 1 {
        b[n - 1] as u32
    } else if k == 2 {
        (b[n - 2] * 0x100 + b[n - 1]) as u32
    } else if k == 3 {
        (b[n - 3] * 0x1_0000 + b[n - 2] * 0x100 + b[n - 1]) as u32
    } else {
        0
    }
}

/// The whole word stream of a byte sequence: its complete words, then
/// the packed tail word when the length is not a multiple of four.
pub open spec fn word_stream(b: Seq<u8>) -> Seq<u32> {
    if b.len() % 4 == 0 {
        full_words(b)
    } else {
        full_words(b).push(tail_word(b))
    }
}

/// Appending one byte leaves the complete words unchanged unless it
/// completes a word, in which case exactly that word is appended; the
/// leftover bytes gain the byte or reset to empty accordingly.
pub proof fn lemma_push_byte(b: Seq<u8>, x: u8)
    ensures
        b.len() % 4 != 3 ==> full_words(b.push(x)) == full_words(b),
        b.len() % 4 != 3 ==> tail_bytes(b.push(x)) == tail_bytes(b).push(x),
        b.len() % 4 == 3 ==> full_words(b.push(x)) == full_words(b).push(
            le_word(b[b.len() - 3], b[b.len() - 2], b[b.len() - 1], x),
        ),
        b.len() % 4 == 3 ==> tail_bytes(b.push(x)) == Seq::<u8>::empty(),
{
    let c = b.push(x);
    assert(c.len() == b.len() + 1);
    if b.len() % 4 != 3 {
        assert(c.len() / 4 == b.len() / 4);
        assert(full_words(c) =~= full_words(b)) by {
            assert forall|j: int| 0 <= j < b.len() / 4 implies full_words(c)[j] == full_words(
                b,
            )[j] by {
                assert(4 * j + 3 < b.len());
            }
        }
        assert(tail_bytes(c) =~= tail_bytes(b).push(x));
    } else {
        assert(c.len() / 4 == b.len() / 4 + 1);
        assert(full_words(c) =~= full_words(b).push(
            le_word(b[b.len() - 3], b[b.len() - 2], b[b.len() - 1], x),
        )) by {
            assert forall|j: int| 0 <= j < b.len() / 4 implies full_words(c)[j] == full_words(
                b,
            )[j] by {
                assert(4 * j + 3 < b.len());
            }
            assert(4 * (c.len() / 4 - 1) == b.len() - 3);
        }
        assert(tail_bytes(c) =~= Seq::<u8>::empty());
    }
}

} // verus!
