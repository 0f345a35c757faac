//! What the world decides in integers about its bodies: a creature's seed, and the state hash
//! taken over every body's pose, velocity and actuators - FNV-1a over the bytes of their
//! binary32 bit patterns, because the failure it hunts is a single stray bit.

use vstd::prelude::*;
use vstd::arithmetic::div_mod::{lemma_mul_mod_noop_left, lemma_mul_mod_noop_right, lemma_small_mod};
use vstd::arithmetic::mul::lemma_mul_is_associative;

verus! {

/// Multiplying by `p` modulo `2^64` is undone by multiplying by `q`, where `p * q` is one
/// modulo `2^64`: so no two words multiply by `p` to the same one.
proof fn lemma_multiply_undone(a: int, p: int, q: int)
    requires
        0 <= a < 0x1_0000_0000_0000_0000int,
        (p * q) % 0x1_0000_0000_0000_0000int == 1,
    ensures
        ((a * p) % 0x1_0000_0000_0000_0000int) * q % 0x1_0000_0000_0000_0000int == a,
{
    let m = 0x1_0000_0000_0000_0000int;
    lemma_mul_mod_noop_left(a * p, q, m);
    lemma_mul_is_associative(a, p, q);
    lemma_mul_mod_noop_right(a, p * q, m);
    lemma_small_mod(a as nat, m as nat);
}

/// Two words that multiply by `p` to the same word modulo `2^64` are one word, for a `p`
/// with an inverse `q`.
proof fn lemma_multiply_injective(a: int, b: int, p: int, q: int)
    requires
        0 <= a < 0x1_0000_0000_0000_0000int,
        0 <= b < 0x1_0000_0000_0000_0000int,
        (p * q) % 0x1_0000_0000_0000_0000int == 1,
        (a * p) % 0x1_0000_0000_0000_0000int == (b * p) % 0x1_0000_0000_0000_0000int,
    ensures
        a == b,
{
    lemma_multiply_undone(a, p, q);
    lemma_multiply_undone(b, p, q);
}

/// The seed of a creature, as a function of the run's master seed and the creature's identity.
pub open spec fn spec_creature_seed(master_seed: u64, creature_id: u64) -> u64 {
    master_seed ^ 0x9E37_79B9_7F4A_7C15u64 ^ (((creature_id as int) * 0x100_0193int) % 0x1_0000_0000_0000_0000int) as u64
}

/// A creature's seed, derived rather than drawn so the same roster produces the same seeds on
/// every run: the master seed mixed with a per-creature substream.
pub fn creature_seed(master_seed: u64, creature_id: u64) -> (seed: u64)
    ensures
        seed == spec_creature_seed(master_seed, creature_id),
{
    master_seed ^ 0x9E37_79B9_7F4A_7C15u64 ^ creature_id.wrapping_mul(0x100_0193)
}

/// Distinct creatures get distinct seeds under one master seed: the per-creature multiplier is
/// odd, so it has an inverse modulo `2^64` and no two identities share a substream.
pub proof fn law_distinct_creatures_distinct_seeds(master_seed: u64, a: u64, b: u64)
    requires
        a != b,
    ensures
        spec_creature_seed(master_seed, a) != spec_creature_seed(master_seed, b),
{
    let m = 0x1_0000_0000_0000_0000int;
    let x = ((a as int * 0x100_0193int) % m) as u64;
    let y = ((b as int * 0x100_0193int) % m) as u64;
    if spec_creature_seed(master_seed, a) == spec_creature_seed(master_seed, b) {
        assert(x == y) by (bit_vector)
            requires
                master_seed ^ 0x9E37_79B9_7F4A_7C15u64 ^ x == master_seed ^ 0x9E37_79B9_7F4A_7C15u64 ^ y;
        assert((0x100_0193int * 0x87B5_8B5D_359C_449Bint) % m == 1);
        lemma_multiply_injective(a as int, b as int, 0x100_0193int, 0x87B5_8B5D_359C_449Bint);
    }
}

/// The FNV-1a offset basis, where every state hash starts.
pub const FNV_OFFSET: u64 = 14_695_981_039_346_656_037;

/// The FNV-1a prime.
pub const FNV_PRIME: u64 = 1_099_511_628_211;

/// The part of a body the state hash covers, every binary32 field as its bit pattern: the pose,
/// the velocity, and what the actuators command.
#[derive(Clone, Copy, PartialEq, Eq, Debug)]
pub struct BodyState {
    pub position: [u32; 3],
    pub yaw: u32,
    pub velocity: [u32; 3],
    pub forward_speed: u32,
    pub turn_rate: u32,
    pub vocalisation: u32,
}

/// One FNV-1a round: one byte folded in.
pub open spec fn fnv_byte(hash: u64, byte: u64) -> u64 {
    (((hash ^ byte) as int * FNV_PRIME as int) % 0x1_0000_0000_0000_0000int) as u64
}

/// One binary32 word folded in, its bytes least significant first.
pub open spec fn fnv_word(hash: u64, word: u32) -> u64 {
    let h0 = fnv_byte(hash, (word & 0xFF) as u64);
    let h1 = fnv_byte(h0, ((word >> 8u32) & 0xFF) as u64);
    let h2 = fnv_byte(h1, ((word >> 16u32) & 0xFF) as u64);
    fnv_byte(h2, ((word >> 24u32) & 0xFF) as u64)
}

/// The words of one body in the order the hash takes them.
pub open spec fn body_words(body: BodyState) -> Seq<u32> {
    seq![
        body.position[0], body.position[1], body.position[2], body.yaw,
        body.velocity[0], body.velocity[1], body.velocity[2],
        body.forward_speed, body.turn_rate, body.vocalisation,
    ]
}

/// A sequence of words folded in, first to last.
pub open spec fn fnv_words(hash: u64, words: Seq<u32>) -> u64
    decreases words.len(),
{
    if words.len() == 0 {
        hash
    } else {
        fnv_word(fnv_words(hash, words.drop_last()), words.last())
    }
}

/// The state hash of bodies in roster order: every body's words folded in, body after body.
pub open spec fn spec_state_hash(bodies: Seq<BodyState>) -> u64
    decreases bodies.len(),
{
    if bodies.len() == 0 {
        FNV_OFFSET
    } else {
        fnv_words(spec_state_hash(bodies.drop_last()), body_words(bodies.last()))
    }
}

/// One round undone: the same result from two rounds means the same hash-xor-byte went in -
/// the FNV prime is odd, so it has an inverse modulo `2^64`.
proof fn lemma_fnv_byte_undone(h1: u64, b1: u64, h2: u64, b2: u64)
    requires
        fnv_byte(h1, b1) == fnv_byte(h2, b2),
    ensures
        h1 ^ b1 == h2 ^ b2,
{
    assert((FNV_PRIME as int * 0xCE96_5057_AFF6_957Bint) % 0x1_0000_0000_0000_0000int == 1);
    lemma_multiply_injective((h1 ^ b1) as int, (h2 ^ b2) as int, FNV_PRIME as int, 0xCE96_5057_AFF6_957Bint);
}

/// Two hashes apart stay apart when one byte is folded into both.
proof fn lemma_fnv_byte_keeps_apart(h1: u64, h2: u64, b: u64)
    requires
        h1 != h2,
    ensures
        fnv_byte(h1, b) != fnv_byte(h2, b),
{
    if fnv_byte(h1, b) == fnv_byte(h2, b) {
        lemma_fnv_byte_undone(h1, b, h2, b);
        assert(h1 == h2) by (bit_vector)
            requires
                h1 ^ b == h2 ^ b;
    }
}

/// Two different bytes folded into one hash give two different hashes.
proof fn lemma_fnv_byte_separates(h: u64, b1: u64, b2: u64)
    requires
        b1 != b2,
    ensures
        fnv_byte(h, b1) != fnv_byte(h, b2),
{
    if fnv_byte(h, b1) == fnv_byte(h, b2) {
        lemma_fnv_byte_undone(h, b1, h, b2);
        assert(b1 == b2) by (bit_vector)
            requires
                h ^ b1 == h ^ b2;
    }
}

/// Two hashes apart stay apart when one word is folded into both.
proof fn lemma_fnv_word_keeps_apart(h1: u64, h2: u64, w: u32)
    requires
        h1 != h2,
    ensures
        fnv_word(h1, w) != fnv_word(h2, w),
{
    let b0 = (w & 0xFF) as u64;
    let b1 = ((w >> 8u32) & 0xFF) as u64;
    let b2 = ((w >> 16u32) & 0xFF) as u64;
    let b3 = ((w >> 24u32) & 0xFF) as u64;
    lemma_fnv_byte_keeps_apart(h1, h2, b0);
    lemma_fnv_byte_keeps_apart(fnv_byte(h1, b0), fnv_byte(h2, b0), b1);
    lemma_fnv_byte_keeps_apart(fnv_byte(fnv_byte(h1, b0), b1), fnv_byte(fnv_byte(h2, b0), b1), b2);
    lemma_fnv_byte_keeps_apart(
        fnv_byte(fnv_byte(fnv_byte(h1, b0), b1), b2),
        fnv_byte(fnv_byte(fnv_byte(h2, b0), b1), b2),
        b3,
    );
}

/// A word with one bit flipped, folded into a hash, gives another hash than the word itself:
/// the flip changes exactly one of its four bytes, that round separates the two, and the
/// rounds after it keep them apart.
proof fn lemma_fnv_word_stray_bit(h: u64, w: u32, bit: u32)
    requires
        bit < 32,
    ensures
        fnv_word(h, w) != fnv_word(h, w ^ (1u32 << bit)),
{
    let v = w ^ (1u32 << bit);
    let a0 = (w & 0xFF) as u64;
    let a1 = ((w >> 8u32) & 0xFF) as u64;
    let a2 = ((w >> 16u32) & 0xFF) as u64;
    let a3 = ((w >> 24u32) & 0xFF) as u64;
    let c0 = (v & 0xFF) as u64;
    let c1 = ((v >> 8u32) & 0xFF) as u64;
    let c2 = ((v >> 16u32) & 0xFF) as u64;
    let c3 = ((v >> 24u32) & 0xFF) as u64;
    assert(bit < 8 ==> c0 != a0 && c1 == a1 && c2 == a2 && c3 == a3) by (bit_vector)
        requires
            v == w ^ (1u32 << bit),
            a0 == (w & 0xFF) as u64, a1 == ((w >> 8u32) & 0xFF) as u64,
            a2 == ((w >> 16u32) & 0xFF) as u64, a3 == ((w >> 24u32) & 0xFF) as u64,
            c0 == (v & 0xFF) as u64, c1 == ((v >> 8u32) & 0xFF) as u64,
            c2 == ((v >> 16u32) & 0xFF) as u64, c3 == ((v >> 24u32) & 0xFF) as u64;
    assert(8 <= bit < 16 ==> c0 == a0 && c1 != a1 && c2 == a2 && c3 == a3) by (bit_vector)
        requires
            v == w ^ (1u32 << bit),
            a0 == (w & 0xFF) as u64, a1 == ((w >> 8u32) & 0xFF) as u64,
            a2 == ((w >> 16u32) & 0xFF) as u64, a3 == ((w >> 24u32) & 0xFF) as u64,
            c0 == (v & 0xFF) as u64, c1 == ((v >> 8u32) & 0xFF) as u64,
            c2 == ((v >> 16u32) & 0xFF) as u64, c3 == ((v >> 24u32) & 0xFF) as u64;
    assert(16 <= bit < 24 ==> c0 == a0 && c1 == a1 && c2 != a2 && c3 == a3) by (bit_vector)
        requires
            v == w ^ (1u32 << bit),
            a0 == (w & 0xFF) as u64, a1 == ((w >> 8u32) & 0xFF) as u64,
            a2 == ((w >> 16u32) & 0xFF) as u64, a3 == ((w >> 24u32) & 0xFF) as u64,
            c0 == (v & 0xFF) as u64, c1 == ((v >> 8u32) & 0xFF) as u64,
            c2 == ((v >> 16u32) & 0xFF) as u64, c3 == ((v >> 24u32) & 0xFF) as u64;
    assert(24 <= bit < 32 ==> c0 == a0 && c1 == a1 && c2 == a2 && c3 != a3) by (bit_vector)
        requires
            v == w ^ (1u32 << bit),
            a0 == (w & 0xFF) as u64, a1 == ((w >> 8u32) & 0xFF) as u64,
            a2 == ((w >> 16u32) & 0xFF) as u64, a3 == ((w >> 24u32) & 0xFF) as u64,
            c0 == (v & 0xFF) as u64, c1 == ((v >> 8u32) & 0xFF) as u64,
            c2 == ((v >> 16u32) & 0xFF) as u64, c3 == ((v >> 24u32) & 0xFF) as u64;
    let x0 = fnv_byte(h, a0);
    let y0 = fnv_byte(h, c0);
    let x1 = fnv_byte(x0, a1);
    let y1 = fnv_byte(y0, c1);
    let x2 = fnv_byte(x1, a2);
    let y2 = fnv_byte(y1, c2);
    if bit < 8 {
        lemma_fnv_byte_separates(h, a0, c0);
        lemma_fnv_byte_keeps_apart(x0, y0, a1);
        lemma_fnv_byte_keeps_apart(x1, y1, a2);
        lemma_fnv_byte_keeps_apart(x2, y2, a3);
    } else if bit < 16 {
        lemma_fnv_byte_separates(x0, a1, c1);
        lemma_fnv_byte_keeps_apart(x1, y1, a2);
        lemma_fnv_byte_keeps_apart(x2, y2, a3);
    } else if bit < 24 {
        lemma_fnv_byte_separates(x1, a2, c2);
        lemma_fnv_byte_keeps_apart(x2, y2, a3);
    } else {
        lemma_fnv_byte_separates(x2, a3, c3);
    }
}

/// Two hashes apart stay apart when the same words are folded into both.
proof fn lemma_fnv_words_keep_apart(h1: u64, h2: u64, words: Seq<u32>)
    requires
        h1 != h2,
    ensures
        fnv_words(h1, words) != fnv_words(h2, words),
    decreases words.len(),
{
    if words.len() > 0 {
        lemma_fnv_words_keep_apart(h1, h2, words.drop_last());
        lemma_fnv_word_keeps_apart(fnv_words(h1, words.drop_last()), fnv_words(h2, words.drop_last()), words.last());
    }
}

/// Folding in two runs of words is folding in the first, then the second.
proof fn lemma_fnv_words_concat(h: u64, first: Seq<u32>, second: Seq<u32>)
    ensures
        fnv_words(h, first + second) == fnv_words(fnv_words(h, first), second),
    decreases second.len(),
{
    if second.len() == 0 {
        assert(first + second =~= first);
    } else {
        lemma_fnv_words_concat(h, first, second.drop_last());
        assert((first + second).drop_last() =~= first + second.drop_last());
        assert((first + second).last() == second.last());
    }
}

/// One word folded in as a run of one.
proof fn lemma_fnv_words_single(h: u64, w: u32)
    ensures
        fnv_words(h, seq![w]) == fnv_word(h, w),
{
    let one = seq![w];
    assert(one.drop_last() =~= Seq::<u32>::empty());
    assert(one.last() == w);
    assert(fnv_words(h, one.drop_last()) == h);
}

/// A run of words folded in around its `k`-th: the words before it, the word, the words after.
proof fn lemma_fnv_words_around(h: u64, before: Seq<u32>, w: u32, after: Seq<u32>)
    ensures
        fnv_words(h, before + seq![w] + after) == fnv_words(fnv_word(fnv_words(h, before), w), after),
{
    lemma_fnv_words_concat(h, before + seq![w], after);
    lemma_fnv_words_concat(h, before, seq![w]);
    lemma_fnv_words_single(fnv_words(h, before), w);
}

/// Words that differ in one bit of one word fold into a hash as two different hashes.
proof fn lemma_fnv_words_stray_bit(h: u64, words: Seq<u32>, k: int, bit: u32)
    requires
        0 <= k < words.len(),
        bit < 32,
    ensures
        fnv_words(h, words) != fnv_words(h, words.update(k, words[k] ^ (1u32 << bit))),
{
    let w = words[k];
    let v = w ^ (1u32 << bit);
    let before = words.take(k);
    let after = words.skip(k + 1);
    assert(words =~= before + seq![w] + after);
    assert(words.update(k, v) =~= before + seq![v] + after);
    lemma_fnv_words_around(h, before, w, after);
    lemma_fnv_words_around(h, before, v, after);
    let start = fnv_words(h, before);
    lemma_fnv_word_stray_bit(start, w, bit);
    lemma_fnv_words_keep_apart(fnv_word(start, w), fnv_word(start, v), after);
}

/// Two runs of bodies that agree but for body `i`, hashed apart up to body `i`, stay apart
/// through every body after it.
proof fn lemma_state_hash_stays_apart(a: Seq<BodyState>, b: Seq<BodyState>, i: int, j: int)
    requires
        a.len() == b.len(),
        0 <= i < j <= a.len(),
        forall|x: int| 0 <= x < a.len() && x != i ==> a[x] == b[x],
        spec_state_hash(a.take(i + 1)) != spec_state_hash(b.take(i + 1)),
    ensures
        spec_state_hash(a.take(j)) != spec_state_hash(b.take(j)),
    decreases j,
{
    if j > i + 1 {
        lemma_state_hash_stays_apart(a, b, i, j - 1);
        assert(a.take(j).drop_last() =~= a.take(j - 1));
        assert(b.take(j).drop_last() =~= b.take(j - 1));
        assert(a.take(j).last() == b.take(j).last());
        lemma_fnv_words_keep_apart(
            spec_state_hash(a.take(j - 1)),
            spec_state_hash(b.take(j - 1)),
            body_words(a[j - 1]),
        );
    }
}

/// The hash hunts a single stray bit, which a tolerance would forgive: two runs of bodies that
/// agree in everything but one bit of one field of one body - a coordinate of its position or
/// velocity, its yaw, or what one of its actuators commands - hash apart.
pub proof fn law_one_stray_bit_changes_the_hash(a: Seq<BodyState>, b: Seq<BodyState>, i: int, k: int, bit: u32)
    requires
        a.len() == b.len(),
        0 <= i < a.len(),
        0 <= k < 10,
        bit < 32,
        forall|x: int| 0 <= x < a.len() && x != i ==> a[x] == b[x],
        body_words(b[i]) == body_words(a[i]).update(k, body_words(a[i])[k] ^ (1u32 << bit)),
    ensures
        spec_state_hash(a) != spec_state_hash(b),
{
    assert(a.take(i) =~= b.take(i));
    assert(a.take(i + 1).drop_last() =~= a.take(i));
    assert(b.take(i + 1).drop_last() =~= b.take(i));
    assert(a.take(i + 1).last() == a[i]);
    assert(b.take(i + 1).last() == b[i]);
    lemma_fnv_words_stray_bit(spec_state_hash(a.take(i)), body_words(a[i]), k, bit);
    lemma_state_hash_stays_apart(a, b, i, a.len() as int);
    assert(a.take(a.len() as int) =~= a);
    assert(b.take(b.len() as int) =~= b);
}

fn mix(hash: u64, word: u32) -> (out: u64)
    ensures
        out == fnv_word(hash, word),
{
    let mut h = hash;
    h = (h ^ ((word & 0xFF) as u64)).wrapping_mul(FNV_PRIME);
    h = (h ^ (((word >> 8u32) & 0xFF) as u64)).wrapping_mul(FNV_PRIME);
    h = (h ^ (((word >> 16u32) & 0xFF) as u64)).wrapping_mul(FNV_PRIME);
    h = (h ^ (((word >> 24u32) & 0xFF) as u64)).wrapping_mul(FNV_PRIME);
    h
}

/// FNV-1a over the bytes of every body's pose, velocity and actuators, in the order given - per
/// build, per machine, bit for bit.
pub fn state_hash(bodies: &Vec<BodyState>) -> (hash: u64)
    ensures
        hash == spec_state_hash(bodies@),
{
    let mut hash: u64 = FNV_OFFSET;
    let mut i: usize = 0;
    while i < bodies.len()
        invariant
            i <= bodies@.len(),
            hash == spec_state_hash(bodies@.take(i as int)),
        decreases bodies@.len() - i,
    {
        let body = &bodies[i];
        let words = [
            body.position[0], body.position[1], body.position[2], body.yaw,
            body.velocity[0], body.velocity[1], body.velocity[2],
            body.forward_speed, body.turn_rate, body.vocalisation,
        ];
        let ghost start = hash;
        let mut j: usize = 0;
        while j < 10
            invariant
                j <= 10,
                words@ == body_words(bodies@[i as int]),
                hash == fnv_words(start, words@.take(j as int)),
            decreases 10 - j,
        {
            hash = mix(hash, words[j]);
            proof {
                assert(words@.take(j + 1).drop_last() =~= words@.take(j as int));
            }
            j += 1;
        }
        proof {
            assert(words@.take(10) =~= words@);
            assert(bodies@.take(i + 1).drop_last() =~= bodies@.take(i as int));
        }
        i += 1;
    }
    proof { assert(bodies@.take(bodies@.len() as int) =~= bodies@); }
    hash
}

/// The floor's relief hashes an integer lattice point to 31 bits: no state and no library
/// implementation to vary, so the same coordinates give the same bits everywhere - the whole
/// reason the relief is an integer hash rather than a seeded generator. A multiply-add of the
/// point's two's-complement coordinates and the seed, an xorshift by 13, a multiply, an
/// xorshift by 16, and the sign bit dropped; every product and sum wraps at 32 bits.
pub open spec fn spec_lattice_hash(lattice_x: i32, lattice_z: i32, seed: u32) -> u32 {
    let mixed = (((lattice_x as u32) as int * 374_761_393 + (lattice_z as u32) as int * 668_265_263
        + seed as int * 1_274_126_177) % 0x1_0000_0000) as u32;
    let stirred = (((mixed ^ (mixed >> 13u32)) as int * 1_103_515_245) % 0x1_0000_0000) as u32;
    ((stirred ^ (stirred >> 16u32)) % 0x8000_0000) as u32
}

/// The relief's hash of one lattice point, below `2^31`: the floor scales it into `[0, 1)`.
#[verifier::rlimit(40)]
pub fn lattice_hash(lattice_x: i32, lattice_z: i32, seed: u32) -> (hash: u32)
    ensures
        hash == spec_lattice_hash(lattice_x, lattice_z, seed),
        hash < 0x8000_0000,
{
    let a = (lattice_x as u32).wrapping_mul(374_761_393);
    let b = (lattice_z as u32).wrapping_mul(668_265_263);
    let c = seed.wrapping_mul(1_274_126_177);
    let mut hash = a.wrapping_add(b).wrapping_add(c);
    proof {
        let x = (lattice_x as u32) as int;
        let z = (lattice_z as u32) as int;
        let m = 0x1_0000_0000int;
        assert(((x * 374_761_393) % m + (z * 668_265_263) % m) % m == (x * 374_761_393 + z * 668_265_263) % m) by (nonlinear_arith)
            requires m == 0x1_0000_0000int;
        assert((((x * 374_761_393 + z * 668_265_263) % m) + (seed as int * 1_274_126_177) % m) % m
            == (x * 374_761_393 + z * 668_265_263 + seed as int * 1_274_126_177) % m) by (nonlinear_arith)
            requires m == 0x1_0000_0000int;
    }
    hash = (hash ^ (hash >> 13u32)).wrapping_mul(1_103_515_245);
    hash = hash ^ (hash >> 16u32);
    hash % 0x8000_0000
}

} // verus!
