//! The streaming hasher and the one-shot entry point.
//!
//! A [`Hasher`] accepts input in chunks of any size and produces the
//! digest of the concatenation of everything it was fed: the digest is a
//! function of the fed byte sequence alone, never of how it was chunked.

use crate::engine::even_mult;
use crate::engine::lanes_wf;
use crate::engine::lemma_mul_le;
use crate::engine::lemma_run_words_push;
use crate::engine::lemma_run_words_wf;
use crate::engine::mix_word;
use crate::engine::odd_mult;
use crate::engine::prime;
use crate::engine::run_words;
use crate::engine::digest_bytes;
use crate::engine::be_bytes32;
use crate::engine::Lanes;
use crate::engine::EVEN0;
use crate::engine::EVEN1;
use crate::engine::EVEN2;
use crate::engine::EVEN3;
use crate::engine::EVEN4;
use crate::engine::ODD0;
use crate::engine::ODD1;
use crate::engine::ODD2;
use crate::engine::ODD3;
use crate::engine::ODD4;
use crate::engine::PRIME0;
use crate::engine::PRIME1;
use crate::engine::PRIME2;
use crate::engine::PRIME3;
use crate::engine::PRIME4;
use crate::words::full_words;
use crate::words::le_word;
use crate::words::lemma_push_byte;
use crate::words::tail_bytes;
use crate::words::tail_word;
use crate::words::word_stream;
use vstd::pervasive::VecAdditionalExecFns;
use vstd::prelude::*;

verus! {

/// The 20-byte digest of a byte sequence: the word stream of the bytes
/// is mixed into the five lanes in order, and the finalised lane values
/// are serialised big-endian in lane order.
pub open spec fn digest_of(b: Seq<u8>) -> Seq<u8> {
    digest_bytes(run_words(word_stream(b)))
}

/// A streaming hash computation.
///
/// The view of a `Hasher` is the byte sequence fed to it so far.  One
/// computation owns one `Hasher` from [`Hasher::new`] through any number
/// of [`Hasher::update`] calls to the single [`Hasher::digest`] call
/// that consumes it.
pub struct Hasher {
    acc: Vec<u64>,
    mult: Vec<u64>,
    cur: usize,
    tail: Vec<u8>,
    fed: Ghost<Seq<u8>>,
}

impl View for Hasher {
    type V = Seq<u8>;

    closed spec fn view(&self) -> Seq<u8> {
        self.fed@
    }
}

impl Hasher {
    /// The engine state held in the hasher's lane fields.
    spec fn lanes(self) -> Lanes {
        Lanes { acc: self.acc@, mult: self.mult@, cur: self.cur as int }
    }

    /// The hasher's fields agree with the engine state after the
    /// complete words fed so far, and its pending bytes are exactly the
    /// leftover bytes after the last complete word.
    pub closed spec fn wf(self) -> bool {
        &&& self.lanes() == run_words(full_words(self.fed@))
        &&& lanes_wf(self.lanes())
        &&& self.tail@ == tail_bytes(self.fed@)
    }

    /// A fresh hasher that has been fed nothing.
    pub fn new() -> (r: Hasher)
        ensures
            r.wf(),
            r@ == Seq::<u8>::empty(),
    {
        let r = Hasher {
            acc: vec![0, 0, 0, 0, 0],
            mult: vec![1, 1, 1, 1, 1],
            cur: 0,
            tail: Vec::new(),
            fed: Ghost(Seq::empty()),
        };
        proof {
            assert(full_words(r.fed@) =~= Seq::<u32>::empty());
            assert(r.lanes() =~= run_words(full_words(r.fed@)));
            assert(r.tail@ =~= tail_bytes(r.fed@));
        }
        r
    }

    /// Mixes one completed word into the current lane and advances the
    /// round-robin index.
    fn add_word(&mut self, w: u32)
        requires
            lanes_wf(old(self).lanes()),
        ensures
            final(self).lanes() == mix_word(old(self).lanes(), w),
            final(self).tail@ == old(self).tail@,
            final(self).fed@ == old(self).fed@,
    {
        let i = self.cur;
        let p = prime_at(i);
        let e = even_at(i);
        let o = odd_at(i);
        proof {
            lemma_mul_le(w as u64, o, 0xFFFF_FFFF, 0xD4F9_1BBD);
        }
        let x = ((w as u64) * o) % 0x8000_0000;
        let a = self.acc[i];
        let m = self.mult[i];
        proof {
            lemma_mul_le(m, x, 0xCD92_4D34, 0x7FFF_FFFF);
            lemma_mul_le(m, e, 0xCD92_4D34, 0xEFCD_AB89);
        }
        let na = (a + m * x) % p;
        let nm = (m * e) % p;
        self.acc.set(i, na);
        self.mult.set(i, nm);
        self.cur = if i == 4 {
            0
        } else {
            i + 1
        };
        proof {
            assert(self.lanes() =~= mix_word(old(self).lanes(), w));
        }
    }

    /// Feeds a single byte: it joins the pending bytes, and a completed
    /// word is mixed at once.
    fn push_byte(&mut self, b: u8)
        requires
            old(self).wf(),
        ensures
            final(self).wf(),
            final(self)@ == old(self)@.push(b),
    {
        let ghost oldfed = self.fed@;
        self.tail.push(b);
        self.fed = Ghost(oldfed.push(b));
        proof {
            lemma_push_byte(oldfed, b);
        }
        if self.tail.len() == 4 {
            let w = (self.tail[0] as u32) + (self.tail[1] as u32) * 0x100 + (self.tail[2] as u32)
                * 0x1_0000 + (self.tail[3] as u32) * 0x100_0000;
            proof {
                assert(oldfed.len() % 4 == 3);
                assert(w == le_word(oldfed[oldfed.len() - 3], oldfed[oldfed.len() - 2], oldfed[oldfed.len() - 1], b));
                lemma_run_words_push(
                    full_words(oldfed),
                    le_word(oldfed[oldfed.len() - 3], oldfed[oldfed.len() - 2], oldfed[oldfed.len() - 1], b),
                );
            }
            self.add_word(w);
            self.tail = Vec::new();
            proof {
                assert(self.tail@ =~= tail_bytes(self.fed@));
            }
        }
    }

    /// Feeds a chunk of input.  Any number of calls with any chunk
    /// sizes, zero-length chunks included, feed the concatenation of the
    /// chunks: the hasher afterwards stands exactly as if the bytes had
    /// arrived in one call.
    pub fn update(&mut self, input: &[u8])
        requires
            old(self).wf(),
        ensures
            final(self).wf(),
            final(self)@ == old(self)@ + input@,
    {
        let n = input.len();
        let mut k: usize = 0;
        while k < n
            invariant
                k <= n,
                n == input@.len(),
                self.wf(),
                self@ == old(self)@ + input@.subrange(0, k as int),
            decreases n - k,
        {
            let ghost prev = self@;
            self.push_byte(input[k]);
            proof {
                assert(prev.push(input@[k as int]) =~= old(self)@ + input@.subrange(
                    0,
                    k + 1 as int,
                ));
            }
            k = k + 1;
        }
        proof {
            assert(old(self)@ + input@.subrange(0, n as int) =~= old(self)@ + input@);
        }
    }

    /// Drains the pending tail bytes, packed big-endian into the
    /// low-order bits of one final word, finalises every lane and
    /// returns the 20-byte digest of everything fed.  Consumes the
    /// hasher: a finished computation cannot be resumed.
    pub fn digest(self) -> (r: Vec<u8>)
        requires
            self.wf(),
        ensures
            r@ == digest_of(self@),
            r@.len() == 20,
    {
        let mut h = self;
        let ghost fed = h.fed@;
        let k = h.tail.len();
        if k > 0 {
            let w: u32 = if k == 1 {
                h.tail[0] as u32
            } else if k == 2 {
                (h.tail[0] as u32) * 0x100 + (h.tail[1] as u32)
            } else {
                (h.tail[0] as u32) * 0x1_0000 + (h.tail[1] as u32) * 0x100 + (h.tail[2] as u32)
            };
            proof {
                assert(w == tail_word(fed));
                lemma_run_words_push(full_words(fed), tail_word(fed));
                assert(word_stream(fed) =~= full_words(fed).push(tail_word(fed)));
            }
            h.add_word(w);
        }
        proof {
            assert(h.lanes() =~= run_words(word_stream(fed)));
            lemma_run_words_wf(word_stream(fed));
        }
        let mut out: Vec<u8> = Vec::new();
        push_lane_bytes(&mut out, h.acc[0], h.mult[0], PRIME0);
        push_lane_bytes(&mut out, h.acc[1], h.mult[1], PRIME1);
        push_lane_bytes(&mut out, h.acc[2], h.mult[2], PRIME2);
        push_lane_bytes(&mut out, h.acc[3], h.mult[3], PRIME3);
        push_lane_bytes(&mut out, h.acc[4], h.mult[4], PRIME4);
        proof {
            assert(out@ =~= digest_bytes(run_words(word_stream(fed))));
        }
        out
    }
}

/// Exact byte lookup of a lane's prime modulus.
fn prime_at(i: usize) -> (r: u64)
    requires
        i < 5,
    ensures
        r == prime(i as int),
{
    if i == 0 {
        PRIME0
    } else if i == 1 {
        PRIME1
    } else if i == 2 {
        PRIME2
    } else if i == 3 {
        PRIME3
    } else {
        PRIME4
    }
}

/// Exact lookup of a lane's multiplier-advance constant.
fn even_at(i: usize) -> (r: u64)
    requires
        i < 5,
    ensures
        r == even_mult(i as int),
{
    if i == 0 {
        EVEN0
    } else if i == 1 {
        EVEN1
    } else if i == 2 {
        EVEN2
    } else if i == 3 {
        EVEN3
    } else {
        EVEN4
    }
}

/// Exact lookup of a lane's word-scrambling constant.
fn odd_at(i: usize) -> (r: u64)
    requires
        i < 5,
    ensures
        r == odd_mult(i as int),
{
    if i == 0 {
        ODD0
    } else if i == 1 {
        ODD1
    } else if i == 2 {
        ODD2
    } else if i == 3 {
        ODD3
    } else {
        ODD4
    }
}

/// Finalises one lane and appends its four big-endian output bytes.
fn push_lane_bytes(out: &mut Vec<u8>, a: u64, m: u64, p: u64)
    requires
        a < p,
        m < p,
        1 <= p <= 0xFFFF_FFFF,
    ensures
        final(out)@ == old(out)@ + be_bytes32((((a + m * ((p - 1) as int)) % (p as int)) as u64)),
{
    proof {
        lemma_mul_le(m, (p - 1) as u64, 0xFFFF_FFFE, 0xFFFF_FFFE);
    }
    let v = (a + m * (p - 1)) % p;
    out.push(((v / 0x100_0000) % 0x100) as u8);
    out.push(((v / 0x1_0000) % 0x100) as u8);
    out.push(((v / 0x100) % 0x100) as u8);
    out.push((v % 0x100) as u8);
    proof {
        assert(out@ =~= old(out)@ + be_bytes32(v));
    }
}

/// One-shot digest: equivalent to feeding the whole input to a fresh
/// hasher in a single call and finalising it.  The digest is a pure
/// function of the input bytes.
pub fn hash(input: &[u8]) -> (r: Vec<u8>)
    ensures
        r@ == digest_of(input@),
        r@.len() == 20,
{
    let mut h = Hasher::new();
    h.update(input);
    proof {
        assert(Seq::<u8>::empty() + input@ =~= input@);
    }
    h.digest()
}

} // verus!
