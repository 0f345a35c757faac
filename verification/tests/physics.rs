use master_control::build_hash_hex;
use master_control::physics::{creature_seed, lattice_hash, state_hash, BodyState, FNV_OFFSET, FNV_PRIME};

/// FNV-1a over the bytes of every field's bit pattern, written out the plain way.
fn reference_hash(bodies: &[BodyState]) -> u64 {
    let mut hash: u64 = 14_695_981_039_346_656_037;
    for body in bodies {
        let words = [
            body.position[0], body.position[1], body.position[2], body.yaw,
            body.velocity[0], body.velocity[1], body.velocity[2],
            body.forward_speed, body.turn_rate, body.vocalisation,
        ];
        for word in words {
            for byte in 0..4 {
                hash ^= u64::from((word >> (byte * 8)) & 0xFF);
                hash = hash.wrapping_mul(1_099_511_628_211);
            }
        }
    }
    hash
}

fn body(x: f32, yaw: f32, speed: f32) -> BodyState {
    BodyState {
        position: [x.to_bits(), 0.05f32.to_bits(), (-x).to_bits()],
        yaw: yaw.to_bits(),
        velocity: [0, 0, speed.to_bits()],
        forward_speed: speed.to_bits(),
        turn_rate: 0,
        vocalisation: 0,
    }
}

#[test]
fn the_empty_world_hashes_to_the_offset_basis() {
    assert_eq!(state_hash(&Vec::new()), FNV_OFFSET);
    assert_eq!(FNV_OFFSET, 0xcbf2_9ce4_8422_2325);
    assert_eq!(FNV_PRIME, 0x100_0000_01b3);
}

#[test]
fn the_state_hash_is_fnv1a_over_every_bit_in_roster_order() {
    let bodies = vec![body(1.0, 0.5, 2.0), body(-3.25, -1.0, 0.0)];
    assert_eq!(state_hash(&bodies), reference_hash(&bodies));
    let swapped = vec![bodies[1], bodies[0]];
    assert_ne!(state_hash(&swapped), state_hash(&bodies), "roster order is part of the state");
    let mut one_bit = bodies.clone();
    one_bit[1].vocalisation ^= 1;
    assert_ne!(state_hash(&one_bit), state_hash(&bodies), "a single stray bit is seen");
    // One zero byte folded into the offset basis, forty times.
    let zero = BodyState { position: [0; 3], yaw: 0, velocity: [0; 3], forward_speed: 0, turn_rate: 0, vocalisation: 0 };
    let mut expected = FNV_OFFSET;
    for _ in 0..40 {
        expected = expected.wrapping_mul(FNV_PRIME);
    }
    assert_eq!(state_hash(&vec![zero]), expected);
}

#[test]
fn a_creatures_seed_mixes_the_master_seed_with_its_identity() {
    assert_eq!(creature_seed(0, 0), 0x9E37_79B9_7F4A_7C15);
    assert_eq!(creature_seed(1, 2), 1 ^ 0x9E37_79B9_7F4A_7C15 ^ 0x200_0326);
    assert_eq!(
        creature_seed(0, u64::MAX),
        0x9E37_79B9_7F4A_7C15 ^ u64::MAX.wrapping_mul(0x100_0193),
        "the substream wraps, never panics"
    );
    assert_ne!(creature_seed(7, 100), creature_seed(7, 101));
}

#[test]
fn the_build_stamp_is_sixteen_lower_case_hex_digits() {
    assert_eq!(build_hash_hex(0xDEAD_BEEF), "00000000deadbeef");
    assert_eq!(build_hash_hex(0), "0000000000000000");
    assert_eq!(build_hash_hex(u64::MAX), "ffffffffffffffff");
    assert_eq!(build_hash_hex(0x0123_4567_89AB_CDEF), "0123456789abcdef");
}

/// The relief's lattice hash, written out the plain way.
fn reference_lattice(lattice_x: i32, lattice_z: i32, seed: u32) -> u32 {
    let mut hash = (lattice_x as u32)
        .wrapping_mul(374_761_393)
        .wrapping_add((lattice_z as u32).wrapping_mul(668_265_263))
        .wrapping_add(seed.wrapping_mul(1_274_126_177));
    hash = (hash ^ (hash >> 13)).wrapping_mul(1_103_515_245);
    hash ^= hash >> 16;
    hash & 0x7FFF_FFFF
}

#[test]
fn the_lattice_hash_is_the_same_bits_for_the_same_point() {
    for (x, z, seed) in [(0, 0, 0), (0, 0, 42), (-1, 3, 42), (i32::MIN, i32::MAX, 42), (17, -9, u32::MAX)] {
        assert_eq!(lattice_hash(x, z, seed), reference_lattice(x, z, seed), "({x}, {z}, {seed})");
        assert!(lattice_hash(x, z, seed) < 0x8000_0000);
    }
    assert_eq!(lattice_hash(0, 0, 0), 0, "the origin with no seed hashes to nothing");
    assert_ne!(lattice_hash(1, 0, 42), lattice_hash(0, 1, 42));
}

#[test]
fn every_single_stray_bit_of_every_field_changes_the_hash() {
    let bodies = vec![body(1.0, 0.5, 2.0), body(-3.25, -1.0, 0.0), body(0.0, 0.0, 0.0)];
    let base = state_hash(&bodies);
    for which in 0..bodies.len() {
        for field in 0..10 {
            for bit in 0..32 {
                let mut flipped = bodies.clone();
                let b = &mut flipped[which];
                let mask = 1u32 << bit;
                match field {
                    0..=2 => b.position[field] ^= mask,
                    3 => b.yaw ^= mask,
                    4..=6 => b.velocity[field - 4] ^= mask,
                    7 => b.forward_speed ^= mask,
                    8 => b.turn_rate ^= mask,
                    _ => b.vocalisation ^= mask,
                }
                assert_ne!(state_hash(&flipped), base, "body {which}, field {field}, bit {bit}");
            }
        }
    }
}

#[test]
fn distinct_creatures_get_distinct_seeds() {
    let mut seen = std::collections::HashSet::new();
    for id in (0..2_000u64).chain([u64::MAX, u64::MAX - 1, 1 << 63]) {
        assert!(seen.insert(creature_seed(0xC0FFEE, id)), "creature {id} shares a seed");
    }
}
