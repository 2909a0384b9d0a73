//! Stateless hash mixers and a small sequential generator built on them.

use vstd::prelude::*;

verus! {

/// Two to the power 64, the modulus of 64-bit mixing.
pub open spec fn pow64() -> int {
    0x1_0000_0000_0000_0000
}

/// Two to the power 32, the modulus of 32-bit mixing.
pub open spec fn pow32() -> int {
    0x1_0000_0000
}

/// Product of two 64-bit words, reduced modulo two to the 64.
pub open spec fn mul_mod64(x: u64, y: u64) -> u64 {
    ((x as nat * y as nat) % (pow64() as nat)) as u64
}

/// Sum of two 64-bit words, reduced modulo two to the 64.
pub open spec fn add_mod64(x: u64, y: u64) -> u64 {
    ((x as int + y as int) % pow64()) as u64
}

/// Product of two 32-bit words, reduced modulo two to the 32.
pub open spec fn mul_mod32(x: u32, y: u32) -> u32 {
    ((x as nat * y as nat) % (pow32() as nat)) as u32
}

/// Sum of two 32-bit words, reduced modulo two to the 32.
pub open spec fn add_mod32(x: u32, y: u32) -> u32 {
    ((x as int + y as int) % pow32()) as u32
}

/// The 64-bit mixer: add the golden-ratio increment, then two rounds of
/// xor-shift and multiply and a final xor-shift.
pub open spec fn mix64(x: u64) -> u64 {
    let s = add_mod64(x, 0x9E3779B97F4A7C15);
    let a = mul_mod64(s ^ (s >> 30), 0xBF58476D1CE4E5B9);
    let b = mul_mod64(a ^ (a >> 27), 0x94D049BB133111EB);
    b ^ (b >> 31)
}

/// The 32-bit mixer, of the same shape as [`mix64`].
pub open spec fn mix32(x: u32) -> u32 {
    let s = add_mod32(x, 0x9E3779B9);
    let a = mul_mod32(s ^ (s >> 16), 0x7FEB352D);
    let b = mul_mod32(a ^ (a >> 15), 0x846CA68B);
    b ^ (b >> 16)
}

/// The low 32 bits of a 64-bit word.
pub open spec fn low32(x: u64) -> u32 {
    (x & 0xFFFF_FFFF) as u32
}

/// The bit pattern of a signed lattice coordinate, read as unsigned.
pub open spec fn lattice_bits(i: i32) -> u32 {
    if i >= 0 {
        i as u32
    } else {
        (i as int + pow32()) as u32
    }
}

/// Seed of one stage: the mixed xor of the world seed and the stage's salt,
/// cut to 32 bits.
pub open spec fn stage_seed(seed: u64, salt: u64) -> u32 {
    low32(mix64(seed ^ salt))
}

/// Hash of a lattice point under a 32-bit seed.
pub open spec fn lattice_hash(ix: i32, iy: i32, seed: u32) -> u32 {
    let h0 = seed ^ 0x9E3779B9;
    let h1 = mix32(h0 ^ mul_mod32(lattice_bits(ix), 0x85EBCA6B));
    mix32(h1 ^ mul_mod32(lattice_bits(iy), 0xC2B2AE35))
}

/// Mixes a 64-bit word.
pub fn splitmix64(x: u64) -> (r: u64)
    ensures
        r == mix64(x),
{
    let s: u64 = x.wrapping_add(0x9E3779B97F4A7C15);
    let a: u64 = (s ^ (s >> 30)).wrapping_mul(0xBF58476D1CE4E5B9);
    let b: u64 = (a ^ (a >> 27)).wrapping_mul(0x94D049BB133111EB);
    b ^ (b >> 31)
}

/// Mixes a 32-bit word.
pub fn splitmix32(x: u32) -> (r: u32)
    ensures
        r == mix32(x),
{
    let s: u32 = x.wrapping_add(0x9E3779B9);
    let a: u32 = (s ^ (s >> 16)).wrapping_mul(0x7FEB352D);
    let b: u32 = (a ^ (a >> 15)).wrapping_mul(0x846CA68B);
    b ^ (b >> 16)
}

/// Derives the 32-bit seed of one stage from the world seed and the stage's
/// salt.
pub fn seed_u32(seed: u64, salt: u64) -> (r: u32)
    ensures
        r == stage_seed(seed, salt),
{
    let m: u64 = splitmix64(seed ^ salt);
    let low: u64 = m & 0xFFFF_FFFF;
    assert(low <= 0xFFFF_FFFF) by (bit_vector)
        requires
            low == m & 0xFFFF_FFFF,
    ;
    low as u32
}

/// The bits of a signed coordinate as an unsigned word.
fn coordinate_bits(i: i32) -> (r: u32)
    ensures
        r == lattice_bits(i),
{
    if i >= 0 {
        i as u32
    } else {
        let lifted: i64 = i as i64 + 0x1_0000_0000i64;
        lifted as u32
    }
}

/// Hashes a lattice point under a seed.
pub fn hash2(ix: i32, iy: i32, seed: u32) -> (r: u32)
    ensures
        r == lattice_hash(ix, iy, seed),
{
    let x: u32 = coordinate_bits(ix);
    let y: u32 = coordinate_bits(iy);
    let h0: u32 = seed ^ 0x9E3779B9;
    let h1: u32 = splitmix32(h0 ^ x.wrapping_mul(0x85EBCA6B));
    splitmix32(h1 ^ y.wrapping_mul(0xC2B2AE35))
}

/// Sequential generator whose state advances by one 64-bit mix per draw.
pub struct Rng {
    pub state: u64,
}

impl Rng {
    /// A generator that starts from `seed`.
    pub fn new(seed: u64) -> (r: Rng)
        ensures
            r.state == seed,
    {
        Rng { state: seed }
    }

    /// Advances the state and returns it.
    pub fn next_u64(&mut self) -> (r: u64)
        ensures
            r == mix64(old(self).state),
            final(self).state == r,
    {
        self.state = splitmix64(self.state);
        self.state
    }

    /// Advances the state and returns its low 32 bits.
    pub fn next_u32(&mut self) -> (r: u32)
        ensures
            r == low32(mix64(old(self).state)),
            final(self).state == mix64(old(self).state),
    {
        let m: u64 = self.next_u64();
        let low: u64 = m & 0xFFFF_FFFF;
        assert(low <= 0xFFFF_FFFF) by (bit_vector)
            requires
                low == m & 0xFFFF_FFFF,
        ;
        low as u32
    }

    /// Advances the state and returns it reduced modulo `max`.
    pub fn range_usize(&mut self, max: usize) -> (r: usize)
        requires
            max > 0,
        ensures
            r as int == (mix64(old(self).state) as int) % (max as int),
            r < max,
            final(self).state == mix64(old(self).state),
    {
        let m: u64 = self.next_u64();
        (m % (max as u64)) as usize
    }
}

} // verus!
