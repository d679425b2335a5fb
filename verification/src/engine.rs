//! The five-lane engine: each lane is a running modular polynomial
//! evaluation over the subsequence of words routed to it.
//!
//! Word `N` of the input stream (counting from zero) is mixed into lane
//! `N mod 5`.  Mixing scrambles the word with the lane's odd constant,
//! truncates it to 31 bits, adds it into the accumulator weighted by the
//! lane's running multiplier, and advances the multiplier.  Finalisation
//! mixes one fixed virtual term (`prime - 1`, unscrambled) into every
//! lane and serialises each lane value as four big-endian bytes.

use vstd::prelude::*;

verus! {

pub const PRIME0: u64 = 0x3FB75161;

pub const PRIME1: u64 = 0xAB1F4E4F;

pub const PRIME2: u64 = 0x82675BC5;

pub const PRIME3: u64 = 0xCD924D35;

pub const PRIME4: u64 = 0x81ABE279;

pub const EVEN0: u64 = 0x67452301;

pub const EVEN1: u64 = 0xEFCDAB89;

pub const EVEN2: u64 = 0x98BADCFE;

pub const EVEN3: u64 = 0x10325476;

pub const EVEN4: u64 = 0xC3D2E1F0;

pub const ODD0: u64 = 0xB4663807;

pub const ODD1: u64 = 0xCC322BF5;

pub const ODD2: u64 = 0xD4F91BBD;

pub const ODD3: u64 = 0xA7BEA11D;

pub const ODD4: u64 = 0x8F462907;

/// The prime modulus of a lane.
pub open spec fn prime(i: int) -> u64 {
    if i == 0 {
        PRIME0
    } else if i == 1 {
        PRIME1
    } else if i == 2 {
        PRIME2
    } else if i == 3 {
        PRIME3
    } else {
        PRIME4
    }
}

/// The constant by which a lane's running multiplier advances.
pub open spec fn even_mult(i: int) -> u64 {
    if i == 0 {
        EVEN0
    } else if i == 1 {
        EVEN1
    } else if i == 2 {
        EVEN2
    } else if i == 3 {
        EVEN3
    } else {
        EVEN4
    }
}

/// The constant that scrambles a word before it is mixed into a lane.
pub open spec fn odd_mult(i: int) -> u64 {
    if i == 0 {
        ODD0
    } else if i == 1 {
        ODD1
    } else if i == 2 {
        ODD2
    } else if i == 3 {
        ODD3
    } else {
        ODD4
    }
}

/// The state of the engine: one accumulator and one running multiplier
/// per lane, and the index of the lane that consumes the next word.
#[verifier::ext_equal]
pub ghost struct Lanes {
    pub acc: Seq<u64>,
    pub mult: Seq<u64>,
    pub cur: int,
}

/// Well-formed engine state: five lanes, the next-lane index in range,
/// and every accumulator and multiplier reduced modulo its lane's prime.
pub open spec fn lanes_wf(l: Lanes) -> bool {
    &&& l.acc.len() == 5
    &&& l.mult.len() == 5
    &&& 0 <= l.cur < 5
    &&& forall|i: int| 0 <= i < 5 ==> #[trigger] l.acc[i] < prime(i) && l.mult[i] < prime(i)
}

/// The engine state before any word has been mixed.
pub open spec fn init_lanes() -> Lanes {
    Lanes { acc: seq![0, 0, 0, 0, 0], mult: seq![1, 1, 1, 1, 1], cur: 0 }
}

/// A word scrambled by a lane's odd constant and truncated to 31 bits.
pub open spec fn scrambled(w: u32, i: int) -> u64 {
    (((w as int) * (odd_mult(i) as int)) % 0x8000_0000) as u64
}

/// One mixing step: the scrambled word enters the current lane's
/// accumulator weighted by the running multiplier, the multiplier
/// advances, and the next-lane index moves round-robin.
pub open spec fn mix_word(l: Lanes, w: u32) -> Lanes {
    let i = l.cur;
    let x = scrambled(w, i);
    Lanes {
        acc: l.acc.update(i, (((l.acc[i] + l.mult[i] * x) % (prime(i) as int)) as u64)),
        mult: l.mult.update(i, (((l.mult[i] * even_mult(i)) % (prime(i) as int)) as u64)),
        cur: if i == 4 {
            0
        } else {
            i + 1
        },
    }
}

/// The engine state after mixing a word sequence, in order, into the
/// initial state.
pub open spec fn run_words(ws: Seq<u32>) -> Lanes
    decreases ws.len(),
{
    if ws.len() == 0 {
        init_lanes()
    } else {
        mix_word(run_words(ws.drop_last()), ws.last())
    }
}

/// Mixing keeps the engine state well formed.
pub proof fn lemma_mix_word_wf(l: Lanes, w: u32)
    requires
        lanes_wf(l),
    ensures
        lanes_wf(mix_word(l, w)),
{
}

/// The engine state is well formed after any word sequence.
pub proof fn lemma_run_words_wf(ws: Seq<u32>)
    ensures
        lanes_wf(run_words(ws)),
    decreases ws.len(),
{
    if ws.len() > 0 {
        lemma_run_words_wf(ws.drop_last());
        lemma_mix_word_wf(run_words(ws.drop_last()), ws.last());
    }
}

/// Appending one word to the stream mixes exactly that word last.
pub proof fn lemma_run_words_push(ws: Seq<u32>, w: u32)
    ensures
        run_words(ws.push(w)) == mix_word(run_words(ws), w),
{
    assert(ws.push(w).drop_last() =~= ws);
    assert(ws.push(w).last() == w);
}

/// A lane's finalised value: one virtual term of value `prime - 1`,
/// weighted by the final multiplier, is added to the accumulator.
pub open spec fn lane_final(l: Lanes, i: int) -> u64 {
    (((l.acc[i] + l.mult[i] * ((prime(i) - 1) as int)) % (prime(i) as int)) as u64)
}

/// The four big-endian bytes of the low 32 bits of a value.
pub open spec fn be_bytes32(v: u64) -> Seq<u8> {
    seq![
        ((v / 0x100_0000) % 0x100) as u8,
        ((v / 0x1_0000) % 0x100) as u8,
        ((v / 0x100) % 0x100) as u8,
        (v % 0x100) as u8,
    ]
}

/// The 20-byte digest of an engine state: the five finalised lane
/// values in lane order, four big-endian bytes each.
pub open spec fn digest_bytes(l: Lanes) -> Seq<u8> {
    be_bytes32(lane_final(l, 0)) + be_bytes32(lane_final(l, 1)) + be_bytes32(lane_final(l, 2))
        + be_bytes32(lane_final(l, 3)) + be_bytes32(lane_final(l, 4))
}

/// The product of two bounded values is bounded by the product of the
/// bounds.
pub proof fn lemma_mul_le(a: u64, b: u64, am: u64, bm: u64)
    by (nonlinear_arith)
    requires
        a <= am,
        b <= bm,
    ensures
        a * b <= am * bm,
{
}

} // verus!
