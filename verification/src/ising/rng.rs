//! Deterministic xoshiro256++ generator with SplitMix64 seeding.
//!
//! The stream depends only on the seed: the state after seeding and every
//! output are spec functions of the seed, so equal seeds give equal streams.

use vstd::prelude::*;
use vstd::wrapping::u64_specs::wrapping_add;

verus! {

/// The SplitMix64 increment (the golden-ratio constant).
pub const SPLITMIX_GAMMA: u64 = 0x9E37_79B9_7F4A_7C15;

/// Left rotation of a 64-bit word by `k` bits, 0 < k < 64.
pub open spec fn rotl_spec(x: u64, k: u32) -> u64 {
    (x << k) | (x >> ((64 - k) as u32))
}

/// SplitMix64 output function applied to an already advanced state.
pub open spec fn splitmix_mix(z0: u64) -> u64 {
    let z1 = vstd::wrapping::u64_specs::wrapping_mul(z0 ^ (z0 >> 30u32), 0xBF58_476D_1CE4_E5B9u64);
    let z2 = vstd::wrapping::u64_specs::wrapping_mul(z1 ^ (z1 >> 27u32), 0x94D0_49BB_1331_11EBu64);
    z2 ^ (z2 >> 31u32)
}

/// SplitMix64 state after `k` steps from `seed`.
pub open spec fn splitmix_state(seed: u64, k: nat) -> u64
    decreases k,
{
    if k == 0 {
        seed
    } else {
        vstd::wrapping::u64_specs::wrapping_add(splitmix_state(seed, (k - 1) as nat), SPLITMIX_GAMMA)
    }
}

/// The four state words of a xoshiro256++ generator.
pub type XoState = (u64, u64, u64, u64);

/// The state that `seed_from_u64(seed)` produces: the first four SplitMix64
/// outputs of the seed.
pub open spec fn seeded_state(seed: u64) -> XoState {
    (
        splitmix_mix(splitmix_state(seed, 1)),
        splitmix_mix(splitmix_state(seed, 2)),
        splitmix_mix(splitmix_state(seed, 3)),
        splitmix_mix(splitmix_state(seed, 4)),
    )
}

/// The xoshiro256++ output of state `s` (computed before the state advances).
pub open spec fn xo_output(s: XoState) -> u64 {
    vstd::wrapping::u64_specs::wrapping_add(
        rotl_spec(vstd::wrapping::u64_specs::wrapping_add(s.0, s.3), 23),
        s.0,
    )
}

/// The xoshiro256 state transition.
pub open spec fn xo_advance(s: XoState) -> XoState {
    let t = s.1 << 17u32;
    let s2 = s.2 ^ s.0;
    let s3 = s.3 ^ s.1;
    let s1 = s.1 ^ s2;
    let s0 = s.0 ^ s3;
    (s0, s1, s2 ^ t, rotl_spec(s3, 45))
}

/// The state after `k` draws.
pub open spec fn xo_state_after(s: XoState, k: nat) -> XoState
    decreases k,
{
    if k == 0 {
        s
    } else {
        xo_advance(xo_state_after(s, (k - 1) as nat))
    }
}

/// The top 53 bits of a draw are below 2^53.
pub proof fn lemma_top_bits(x: u64)
    ensures
        x >> 11u64 < 0x20_0000_0000_0000u64,
{
    assert(x >> 11u64 < 0x20_0000_0000_0000u64) by (bit_vector);
}

/// Rotate `x` left by `k` bits.
fn rotl(x: u64, k: u32) -> (r: u64)
    requires
        0 < k < 64,
    ensures
        r == rotl_spec(x, k),
{
    (x << k) | (x >> (64 - k))
}

/// SplitMix64, used only to seed xoshiro256++.
pub(crate) struct SplitMix64 {
    pub(crate) state: u64,
}

impl SplitMix64 {
    pub(crate) fn next(&mut self) -> (r: u64)
        ensures
            final(self).state == vstd::wrapping::u64_specs::wrapping_add(old(self).state, SPLITMIX_GAMMA),
            r == splitmix_mix(final(self).state),
    {
        self.state = self.state.wrapping_add(SPLITMIX_GAMMA);
        let mut z = self.state;
        z = (z ^ (z >> 30)).wrapping_mul(0xBF58_476D_1CE4_E5B9);
        z = (z ^ (z >> 27)).wrapping_mul(0x94D0_49BB_1331_11EB);
        z ^ (z >> 31)
    }
}

/// xoshiro256++ pseudo-random number generator.
#[derive(Clone, Debug)]
pub struct Xoshiro256 {
    s: [u64; 4],
}

impl View for Xoshiro256 {
    type V = XoState;

    closed spec fn view(&self) -> XoState {
        (self.s[0], self.s[1], self.s[2], self.s[3])
    }
}

/// The four words that seeding with `seed` writes, in order.
pub(crate) fn seed_words(seed: u64) -> (w: [u64; 4])
    ensures
        (w[0], w[1], w[2], w[3]) == seeded_state(seed),
{
    let mut sm = SplitMix64 { state: seed };
    let a = sm.next();
    let b = sm.next();
    let c = sm.next();
    let d = sm.next();
    proof {
        assert(splitmix_state(seed, 1) == vstd::wrapping::u64_specs::wrapping_add(splitmix_state(seed, 0), SPLITMIX_GAMMA));
        assert(splitmix_state(seed, 2) == vstd::wrapping::u64_specs::wrapping_add(splitmix_state(seed, 1), SPLITMIX_GAMMA));
        assert(splitmix_state(seed, 3) == vstd::wrapping::u64_specs::wrapping_add(splitmix_state(seed, 2), SPLITMIX_GAMMA));
        assert(splitmix_state(seed, 4) == vstd::wrapping::u64_specs::wrapping_add(splitmix_state(seed, 3), SPLITMIX_GAMMA));
    }
    [a, b, c, d]
}

/// One xoshiro256++ step on four words: the output and the next words.
pub(crate) fn step_words(s: [u64; 4]) -> (res: (u64, [u64; 4]))
    ensures
        res.0 == xo_output((s[0], s[1], s[2], s[3])),
        (res.1[0], res.1[1], res.1[2], res.1[3]) == xo_advance((s[0], s[1], s[2], s[3])),
{
    let result = rotl(s[0].wrapping_add(s[3]), 23).wrapping_add(s[0]);
    let t = s[1] << 17;
    let s2 = s[2] ^ s[0];
    let s3 = s[3] ^ s[1];
    let s1 = s[1] ^ s2;
    let s0 = s[0] ^ s3;
    (result, [s0, s1, s2 ^ t, rotl(s3, 45)])
}

impl Xoshiro256 {
    /// Seed the stream from one 64-bit value via SplitMix64.
    pub fn seed_from_u64(seed: u64) -> (r: Self)
        ensures
            r@ == seeded_state(seed),
    {
        Xoshiro256 { s: seed_words(seed) }
    }

    /// Next raw 64-bit output.
    pub fn next_u64(&mut self) -> (r: u64)
        ensures
            r == xo_output(old(self)@),
            final(self)@ == xo_advance(old(self)@),
    {
        let (r, next) = step_words(self.s);
        self.s = next;
        r
    }

    /// Uniform integer below `n` by modulo reduction of the next output.
    pub fn next_below(&mut self, n: u64) -> (r: u64)
        requires
            n >= 1,
        ensures
            r == xo_output(old(self)@) % n,
            r < n,
            final(self)@ == xo_advance(old(self)@),
    {
        self.next_u64() % n
    }
}

/// One output on a known state.
proof fn lemma_output_words(a: u64, b: u64, c: u64, d: u64, o: u64)
    requires
        wrapping_add(rotl_spec(wrapping_add(a, d), 23), a) == o,
    ensures
        xo_output((a, b, c, d)) == o,
{
}

/// One state transition on a known state.
proof fn lemma_advance_words(a: u64, b: u64, c: u64, d: u64, e0: u64, e1: u64, e2: u64, e3: u64)
    requires
        (a ^ (d ^ b)) == e0,
        (b ^ (c ^ a)) == e1,
        ((c ^ a) ^ (b << 17u32)) == e2,
        rotl_spec(d ^ b, 45) == e3,
    ensures
        xo_advance((a, b, c, d)) == (e0, e1, e2, e3),
{
}

/// The stream of seed 0 is the xoshiro256++ reference stream seeded
/// through SplitMix64: its first four outputs are 5987356902031041503,
/// 7051070477665621255, 6633766593972829180 and 211316841551650330.
pub proof fn law_seed_zero_reference_stream()
    ensures
        xo_output(seeded_state(0)) == 5987356902031041503u64,
        xo_output(xo_advance(seeded_state(0))) == 7051070477665621255u64,
        xo_output(xo_advance(xo_advance(seeded_state(0)))) == 6633766593972829180u64,
        xo_output(xo_advance(xo_advance(xo_advance(seeded_state(0))))) == 211316841551650330u64,
{
    reveal_with_fuel(splitmix_state, 5);
    assert(splitmix_state(0, 1) == 0x9e3779b97f4a7c15u64);
    assert(splitmix_state(0, 2) == 0x3c6ef372fe94f82au64);
    assert(splitmix_state(0, 3) == 0xdaa66d2c7ddf743fu64);
    assert(splitmix_state(0, 4) == 0x78dde6e5fd29f054u64);
    assert(splitmix_mix(0x9e3779b97f4a7c15u64) == 0xe220a8397b1dcdafu64) by (bit_vector);
    assert(splitmix_mix(0x3c6ef372fe94f82au64) == 0x6e789e6aa1b965f4u64) by (bit_vector);
    assert(splitmix_mix(0xdaa66d2c7ddf743fu64) == 0x06c45d188009454fu64) by (bit_vector);
    assert(splitmix_mix(0x78dde6e5fd29f054u64) == 0xf88bb8a8724c81ecu64) by (bit_vector);
    assert(wrapping_add(rotl_spec(wrapping_add(0xe220a8397b1dcdafu64, 0xf88bb8a8724c81ecu64), 23), 0xe220a8397b1dcdafu64) == 5987356902031041503u64) by (bit_vector);
    lemma_output_words(0xe220a8397b1dcdafu64, 0x6e789e6aa1b965f4u64, 0x06c45d188009454fu64, 0xf88bb8a8724c81ecu64, 5987356902031041503u64);
    assert((0xe220a8397b1dcdafu64 ^ (0xf88bb8a8724c81ecu64 ^ 0x6e789e6aa1b965f4u64)) == 0x74d38efba8e829b7u64) by (bit_vector);
    assert((0x6e789e6aa1b965f4u64 ^ (0x06c45d188009454fu64 ^ 0xe220a8397b1dcdafu64)) == 0x8a9c6b4b5aaded14u64) by (bit_vector);
    assert(((0x06c45d188009454fu64 ^ 0xe220a8397b1dcdafu64) ^ (0x6e789e6aa1b965f4u64 << 17u32)) == 0xd831b65330fc88e0u64) by (bit_vector);
    assert(rotl_spec(0xf88bb8a8724c81ecu64 ^ 0x6e789e6aa1b965f4u64, 45) == 0xbc8312de64d85a7eu64) by (bit_vector);
    lemma_advance_words(0xe220a8397b1dcdafu64, 0x6e789e6aa1b965f4u64, 0x06c45d188009454fu64, 0xf88bb8a8724c81ecu64, 0x74d38efba8e829b7u64, 0x8a9c6b4b5aaded14u64, 0xd831b65330fc88e0u64, 0xbc8312de64d85a7eu64);
    assert(wrapping_add(rotl_spec(wrapping_add(0x74d38efba8e829b7u64, 0xbc8312de64d85a7eu64), 23), 0x74d38efba8e829b7u64) == 7051070477665621255u64) by (bit_vector);
    lemma_output_words(0x74d38efba8e829b7u64, 0x8a9c6b4b5aaded14u64, 0xd831b65330fc88e0u64, 0xbc8312de64d85a7eu64, 7051070477665621255u64);
    assert((0x74d38efba8e829b7u64 ^ (0xbc8312de64d85a7eu64 ^ 0x8a9c6b4b5aaded14u64)) == 0x42ccf76e969d9eddu64) by (bit_vector);
    assert((0x8a9c6b4b5aaded14u64 ^ (0xd831b65330fc88e0u64 ^ 0x74d38efba8e829b7u64)) == 0x267e53e3c2b94c43u64) by (bit_vector);
    assert(((0xd831b65330fc88e0u64 ^ 0x74d38efba8e829b7u64) ^ (0x8a9c6b4b5aaded14u64 << 17u32)) == 0x7a748df3423ca157u64) by (bit_vector);
    assert(rotl_spec(0xbc8312de64d85a7eu64 ^ 0x8a9c6b4b5aaded14u64, 45) == 0xb6ed46c3ef32a7ceu64) by (bit_vector);
    lemma_advance_words(0x74d38efba8e829b7u64, 0x8a9c6b4b5aaded14u64, 0xd831b65330fc88e0u64, 0xbc8312de64d85a7eu64, 0x42ccf76e969d9eddu64, 0x267e53e3c2b94c43u64, 0x7a748df3423ca157u64, 0xb6ed46c3ef32a7ceu64);
    assert(wrapping_add(rotl_spec(wrapping_add(0x42ccf76e969d9eddu64, 0xb6ed46c3ef32a7ceu64), 23), 0x42ccf76e969d9eddu64) == 6633766593972829180u64) by (bit_vector);
    lemma_output_words(0x42ccf76e969d9eddu64, 0x267e53e3c2b94c43u64, 0x7a748df3423ca157u64, 0xb6ed46c3ef32a7ceu64, 6633766593972829180u64);
    assert((0x42ccf76e969d9eddu64 ^ (0xb6ed46c3ef32a7ceu64 ^ 0x267e53e3c2b94c43u64)) == 0xd25fe24ebb167550u64) by (bit_vector);
    assert((0x267e53e3c2b94c43u64 ^ (0x7a748df3423ca157u64 ^ 0x42ccf76e969d9eddu64)) == 0x1ec6297e161873c9u64) by (bit_vector);
    assert(((0x7a748df3423ca157u64 ^ 0x42ccf76e969d9eddu64) ^ (0x267e53e3c2b94c43u64 << 17u32)) == 0x9f7fffef4c273f8au64) by (bit_vector);
    assert(rotl_spec(0xb6ed46c3ef32a7ceu64 ^ 0x267e53e3c2b94c43u64, 45) == 0x7d71b21262a405b1u64) by (bit_vector);
    lemma_advance_words(0x42ccf76e969d9eddu64, 0x267e53e3c2b94c43u64, 0x7a748df3423ca157u64, 0xb6ed46c3ef32a7ceu64, 0xd25fe24ebb167550u64, 0x1ec6297e161873c9u64, 0x9f7fffef4c273f8au64, 0x7d71b21262a405b1u64);
    assert(wrapping_add(rotl_spec(wrapping_add(0xd25fe24ebb167550u64, 0x7d71b21262a405b1u64), 23), 0xd25fe24ebb167550u64) == 211316841551650330u64) by (bit_vector);
    lemma_output_words(0xd25fe24ebb167550u64, 0x1ec6297e161873c9u64, 0x9f7fffef4c273f8au64, 0x7d71b21262a405b1u64, 211316841551650330u64);
}

} // verus!
