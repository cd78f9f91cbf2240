//! Zobrist keys: pseudo-random numbers from a small fast counting generator
//! (sfc64) with a fixed seed, one for the side to move and one for each
//! piece on each square.
use crate::core_types::{Piece, Square};
use vstd::prelude::*;

verus! {

/// The generator's state.
struct Sfc64 {
    a: u64,
    b: u64,
    c: u64,
    counter: u64,
}

/// `x` rotated left by 24 bits.
pub open spec fn rotl24(x: u64) -> u64 {
    (x << 24u64) | (x >> 40u64)
}

/// The number the generator hands out from state `(a, b, c, counter)`.
pub open spec fn sfc_output(a: u64, b: u64, counter: u64) -> u64 {
    a.wrapping_add(b).wrapping_add(counter)
}

/// The state after `n` steps from the state `(seed, seed, seed, 1)`.
pub open spec fn sfc_state(seed: u64, n: nat) -> (u64, u64, u64, u64)
    decreases n,
{
    if n == 0 {
        (seed, seed, seed, 1)
    } else {
        let (a, b, c, counter) = sfc_state(seed, (n - 1) as nat);
        let result = sfc_output(a, b, counter);
        (b ^ (b >> 11u64), c.wrapping_add(c << 3u64), rotl24(c).wrapping_add(result), counter.wrapping_add(1))
    }
}

/// The number handed out by step `n` (counting from 0) from the state
/// `(seed, seed, seed, 1)`.
pub open spec fn sfc_number(seed: u64, n: nat) -> u64 {
    let (a, b, c, counter) = sfc_state(seed, n);
    sfc_output(a, b, counter)
}

pub open spec fn key_seed() -> u64 {
    0xa6b67fd132b42f39u64
}

/// Entry `i` of the key table: the generator is seeded, runs 12 steps to
/// warm up, and the table takes the numbers that follow.
#[verifier::opaque]
pub open spec fn key_table(i: int) -> u64 {
    sfc_number(key_seed(), (12 + i) as nat)
}

/// The key of the side to move.
pub open spec fn spec_stm_key() -> u64 {
    key_table(0)
}

/// The key of `piece` on `sq`.
pub open spec fn spec_psq_key(piece: Piece, sq: Square) -> u64 {
    key_table(1 + (sq as int) * 12 + piece as int)
}

/// Where each key comes from: after the 12 warm-up steps the generator's
/// next number is the key of the side to move, and then one number for each
/// square in turn, twelve to a square, one for each piece in piece order. So
/// no two (piece, square) pairs share a step, and none shares the step of
/// the side to move.
pub proof fn lemma_key_steps(p1: Piece, s1: Square, p2: Piece, s2: Square)
    ensures
        spec_stm_key() == sfc_number(key_seed(), 12),
        spec_psq_key(p1, s1) == sfc_number(key_seed(), (13 + 12 * (s1 as int) + p1 as int) as nat),
        13 + 12 * (s1 as int) + p1 as int > 12,
        (p1 != p2 || s1 != s2) ==> 13 + 12 * (s1 as int) + p1 as int != 13 + 12 * (s2 as int) + p2 as int,
{
    reveal(key_table);
    let a = s1 as int;
    let b = p1 as int;
    let c = s2 as int;
    let d = p2 as int;
    if 12 * a + b == 12 * c + d {
        assert(a == c && b == d) by (nonlinear_arith)
            requires
                12 * a + b == 12 * c + d,
                0 <= b < 12,
                0 <= d < 12,
        ;
    }
}

impl Sfc64 {
    spec fn state(&self) -> (u64, u64, u64, u64) {
        (self.a, self.b, self.c, self.counter)
    }

    fn new(seed: u64) -> (r: Self)
        ensures
            r.state() == sfc_state(seed, 12),
    {
        let mut result = Self { a: seed, b: seed, c: seed, counter: 1 };
        let mut i: u32 = 0;
        while i < 12
            invariant
                i <= 12,
                result.state() == sfc_state(seed, i as nat),
            decreases 12 - i,
        {
            result.next_u64();
            i += 1;
        }
        result
    }

    fn next_u64(&mut self) -> (r: u64)
        ensures
            r == sfc_output(old(self).a, old(self).b, old(self).counter),
            final(self).state() == ({
                let (a, b, c, counter) = old(self).state();
                (b ^ (b >> 11u64), c.wrapping_add(c << 3u64), rotl24(c).wrapping_add(r), counter.wrapping_add(1))
            }),
    {
        let result = self.a.wrapping_add(self.b).wrapping_add(self.counter);
        self.counter = self.counter.wrapping_add(1);
        self.a = self.b ^ (self.b >> 11u64);
        self.b = self.c.wrapping_add(self.c << 3u64);
        self.c = ((self.c << 24u64) | (self.c >> 40u64)).wrapping_add(result);
        result
    }
}

const STM_COUNT: usize = 1;

const PSQ_COUNT: usize = 768;

const TOTAL_COUNT: usize = 769;

const STM_OFFSET: usize = 0;

const PSQ_OFFSET: usize = 1;

const SEED: u64 = 0xa6b67fd132b42f39;

/// Entry `i` of the key table: the generator runs up to that entry and
/// hands it out.
fn key_at(i: usize) -> (r: u64)
    requires
        i < TOTAL_COUNT,
    ensures
        r == key_table(i as int),
{
    let mut prng = Sfc64::new(SEED);
    let mut j: usize = 0;
    while j < i
        invariant
            j <= i,
            prng.state() == sfc_state(SEED, (12 + j) as nat),
        decreases i - j,
    {
        prng.next_u64();
        j += 1;
    }
    let r = prng.next_u64();
    proof {
        reveal(key_table);
    }
    r
}

pub fn stm_key() -> (r: u64)
    ensures
        r == spec_stm_key(),
{
    key_at(STM_OFFSET)
}

pub fn psq_key(piece: Piece, sq: Square) -> (r: u64)
    ensures
        r == spec_psq_key(piece, sq),
{
    key_at(PSQ_OFFSET + sq.idx() * Piece::COUNT + piece.idx())
}

} // verus!
