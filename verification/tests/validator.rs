use master_control::record::DeclaredBounds;
use master_control::stager::Intent;
use master_control::stager::Applied;
use master_control::validator::{
    body_extent, chain_bounds, clamp_applied, clamp_intents, judge_rez, DeclaredChain, sanitise_and_clamp, world_bounds, BODY_MAX_EXTENT_BITS, WORLD_MAX_CONTACTS,
    WORLD_MAX_FORWARD_SPEED_BITS, WORLD_MAX_TURN_RATE_BITS, WORLD_MAX_VOCALISATION_BITS,
};

fn first_body() -> DeclaredBounds {
    DeclaredBounds {
        max_forward_speed: 1.0f32.to_bits(),
        max_turn_rate: std::f32::consts::FRAC_PI_2.to_bits(),
        max_vocalisation_strength: 1.0f32.to_bits(),
        max_contact_count: 4,
    }
}

fn intent(forward: f32, turn: f32, voice: f32) -> Intent {
    Intent { forward_speed: forward.to_bits(), turn_rate: turn.to_bits(), vocalisation: voice.to_bits() }
}

fn values(i: Intent) -> (f32, f32, f32) {
    (f32::from_bits(i.forward_speed), f32::from_bits(i.turn_rate), f32::from_bits(i.vocalisation))
}

#[test]
fn the_world_limits_are_the_numbers_they_name() {
    assert_eq!(f32::from_bits(WORLD_MAX_FORWARD_SPEED_BITS), 10.0);
    assert_eq!(f32::from_bits(WORLD_MAX_TURN_RATE_BITS), std::f32::consts::TAU);
    assert_eq!(f32::from_bits(WORLD_MAX_VOCALISATION_BITS), 1.0);
    assert_eq!(f32::from_bits(BODY_MAX_EXTENT_BITS), 4.0);
    assert_eq!(WORLD_MAX_CONTACTS, 16);
}

#[test]
fn every_bound_is_refused_by_its_own_name() {
    assert_eq!(world_bounds(&first_body()), Ok(first_body()));
    let cases = [
        (DeclaredBounds { max_forward_speed: f32::NAN.to_bits(), ..first_body() }, "max_forward_speed must lie in (0, 10] m/s"),
        (DeclaredBounds { max_forward_speed: (-1.0f32).to_bits(), ..first_body() }, "max_forward_speed must lie in (0, 10] m/s"),
        (DeclaredBounds { max_forward_speed: (-0.0f32).to_bits(), ..first_body() }, "max_forward_speed must lie in (0, 10] m/s"),
        (DeclaredBounds { max_turn_rate: f32::INFINITY.to_bits(), ..first_body() }, "max_turn_rate must lie in (0, 2*pi] rad/s"),
        (DeclaredBounds { max_vocalisation_strength: 0.0f32.to_bits(), ..first_body() }, "max_vocalisation_strength must lie in (0, 1]"),
        (DeclaredBounds { max_contact_count: 17, ..first_body() }, "max_contact_count must lie in [1, 16]"),
    ];
    for (bounds, reason) in cases {
        assert_eq!(world_bounds(&bounds), Err(reason));
    }
    let smallest = DeclaredBounds { max_forward_speed: 1, ..first_body() };
    assert_eq!(world_bounds(&smallest), Ok(smallest), "the smallest subnormal speed is positive");
}

#[test]
fn the_mesh_is_judged_vertex_by_vertex_and_the_bounds_first() {
    let bits = |v: [f32; 3]| [v[0].to_bits(), v[1].to_bits(), v[2].to_bits()];
    assert_eq!(body_extent(&vec![bits([0.0, -0.0, 4.0])]), Ok(()), "zeroes and the edge are inside");
    assert_eq!(
        body_extent(&vec![bits([0.0, 5.0, 1.0e-40])]),
        Err("a vertex lies farther than 4 m from the body origin"),
        "the first coordinate that fails names the refusal"
    );
    assert_eq!(
        body_extent(&vec![bits([1.0, 1.0, 1.0]), bits([f32::NAN, 0.0, 0.0])]),
        Err("a vertex coordinate is not a normal number")
    );
    let loud = DeclaredBounds { max_vocalisation_strength: 2.0f32.to_bits(), ..first_body() };
    assert_eq!(
        judge_rez(&loud, &single(), &vec![bits([9.0, 0.0, 0.0])]),
        Err("max_vocalisation_strength must lie in (0, 1]"),
        "the bounds are judged before the mesh"
    );
    assert_eq!(
        judge_rez(&first_body(), &single(), &vec![bits([9.0, 0.0, 0.0])]),
        Err("a vertex lies farther than 4 m from the body origin")
    );
    assert_eq!(
        judge_rez(&first_body(), &chain(0, 0.5), &vec![bits([9.0, 0.0, 0.0])]),
        Err("a vertex lies farther than 4 m from the body origin"),
        "the mesh is judged before the chain"
    );
    assert_eq!(
        judge_rez(&first_body(), &chain(0, 0.5), &vec![bits([1.0, 0.0, 0.0])]),
        Err("segment_count must lie in [1, 8]")
    );
    assert_eq!(judge_rez(&first_body(), &chain(4, 0.6), &vec![bits([1.0, 0.0, 0.0])]), Ok(first_body()));
}

fn single() -> DeclaredChain {
    DeclaredChain { segment_count: 1, segment_spacing: 0 }
}

fn chain(segment_count: u32, spacing: f32) -> DeclaredChain {
    DeclaredChain { segment_count, segment_spacing: spacing.to_bits() }
}

#[test]
fn a_chain_is_a_head_and_at_most_eight_segments_spaced_within_the_extent() {
    assert_eq!(chain_bounds(&single()), Ok(()));
    assert_eq!(chain_bounds(&chain(1, -0.0)), Ok(()), "negative zero is no spacing");
    assert_eq!(chain_bounds(&chain(0, 0.0)), Err("segment_count must lie in [1, 8]"));
    assert_eq!(chain_bounds(&chain(9, 0.5)), Err("segment_count must lie in [1, 8]"));
    assert_eq!(chain_bounds(&chain(u32::MAX, 0.5)), Err("segment_count must lie in [1, 8]"));
    assert_eq!(chain_bounds(&chain(1, 0.1)), Err("segment_spacing must be 0 for a single body"));
    assert_eq!(chain_bounds(&chain(1, f32::NAN)), Err("segment_spacing must be 0 for a single body"));
    assert_eq!(chain_bounds(&chain(8, 4.0)), Ok(()), "the extent itself is allowed");
    assert_eq!(chain_bounds(&chain(2, f32::MIN_POSITIVE)), Ok(()), "the smallest normal spacing");
    let refused = Err("segment_spacing must lie in (0, 4] m for a chain");
    assert_eq!(chain_bounds(&chain(3, 0.0)), refused, "a chain needs a spacing");
    assert_eq!(chain_bounds(&chain(3, -0.0)), refused);
    assert_eq!(chain_bounds(&chain(3, -0.5)), refused);
    assert_eq!(chain_bounds(&chain(3, 4.000001)), refused);
    assert_eq!(chain_bounds(&chain(3, 1.0e-40)), refused, "a subnormal spacing is no spacing");
    assert_eq!(chain_bounds(&chain(3, f32::NAN)), refused);
    assert_eq!(chain_bounds(&chain(3, f32::INFINITY)), refused);
}

#[test]
fn a_nan_becomes_zero_and_never_a_bound() {
    let out = values(sanitise_and_clamp(intent(f32::NAN, f32::NAN, f32::NAN), &first_body()));
    assert_eq!(out, (0.0, 0.0, 0.0));
    assert_eq!(sanitise_and_clamp(intent(f32::NAN, f32::NAN, f32::NAN), &first_body()), intent(0.0, 0.0, 0.0));
    let out = values(sanitise_and_clamp(intent(f32::INFINITY, f32::NEG_INFINITY, f32::INFINITY), &first_body()));
    assert_eq!(out, (0.0, 0.0, 0.0), "infinity is not a real number either");
}

#[test]
fn any_bounds_clamp_as_the_float_comparisons_do() {
    let clamp = |value: f32, bound: f32| if value > bound { bound } else if value < -bound { -bound } else { value };
    let flush = |value: f32| if value.is_normal() || value == 0.0 { value } else { 0.0 };
    let values = [0.0f32, -0.0, 0.5, -0.5, 3.0, -3.0, 1.0e-40, f32::MAX, f32::NAN, f32::INFINITY];
    let odd_bounds = [f32::NAN, f32::INFINITY, f32::NEG_INFINITY, 0.0, -0.0, -1.0, 1.0e-40, -1.0e-40, f32::MAX];
    for &bound in &odd_bounds {
        let bounds = DeclaredBounds {
            max_forward_speed: bound.to_bits(),
            max_turn_rate: bound.to_bits(),
            max_vocalisation_strength: bound.to_bits(),
            max_contact_count: 1,
        };
        for &value in &values {
            let out = sanitise_and_clamp(intent(value, -value, value), &bounds);
            let v = flush(value);
            assert_eq!(out.forward_speed, clamp(v, bound).to_bits(), "{value} against {bound}");
            assert_eq!(out.turn_rate, clamp(flush(-value), bound).to_bits(), "{} against {bound}", -value);
            let voice = if v < 0.0 { 0.0 } else { clamp(v, bound) };
            assert_eq!(out.vocalisation, voice.to_bits(), "{value} against {bound}");
        }
    }
    let negative = DeclaredBounds {
        max_forward_speed: (-1.0f32).to_bits(),
        max_turn_rate: 1.0f32.to_bits(),
        max_vocalisation_strength: 1.0f32.to_bits(),
        max_contact_count: 1,
    };
    assert_eq!(
        f32::from_bits(sanitise_and_clamp(intent(0.5, 0.0, 0.0), &negative).forward_speed),
        -1.0,
        "above a negative bound is the bound"
    );
}

#[test]
fn a_subnormal_intent_is_flushed_to_zero() {
    let out = sanitise_and_clamp(intent(1.0e-40, 1.0e-40, 1.0e-40), &first_body());
    assert_eq!(out, intent(0.0, 0.0, 0.0), "a flush-to-zero machine and one without step alike");
    let out = sanitise_and_clamp(intent(-1.0e-40, -1.0e-40, -1.0e-40), &first_body());
    assert_eq!(out, intent(0.0, 0.0, 0.0), "a negative subnormal becomes plus zero");
    let smallest_normal = f32::MIN_POSITIVE;
    let out = sanitise_and_clamp(intent(smallest_normal, -smallest_normal, smallest_normal), &first_body());
    assert_eq!(out, intent(smallest_normal, -smallest_normal, smallest_normal), "a normal number stays itself");
}

#[test]
fn a_negative_call_is_silence_and_excess_clamps() {
    let out = values(sanitise_and_clamp(intent(5.0, -9.0, -0.5), &first_body()));
    assert_eq!(out, (1.0, -std::f32::consts::FRAC_PI_2, 0.0));
    let out = values(sanitise_and_clamp(intent(-5.0, 0.25, 3.0), &first_body()));
    assert_eq!(out, (-1.0, 0.25, 1.0));
    let within = intent(0.5, -0.25, 0.75);
    assert_eq!(sanitise_and_clamp(within, &first_body()), within, "inside the bounds nothing changes");
    let silent = sanitise_and_clamp(intent(0.0, 0.0, -0.0), &first_body());
    assert_eq!(silent.vocalisation, (-0.0f32).to_bits(), "a negative zero is no call to silence");
}

#[test]
fn the_clamp_agrees_with_the_float_comparisons() {
    let samples = [
        0.0f32, -0.0, 1.0e-40, -1.0e-40, 0.5, -0.5, 1.0, -1.0, 1.5707963, 1.5707964, -1.5707964, 3.0, -3.0,
        f32::MAX, f32::MIN, f32::NAN, f32::INFINITY, f32::NEG_INFINITY,
    ];
    let bounds = first_body();
    let clamp = |value: f32, bound: f32| if value > bound { bound } else if value < -bound { -bound } else { value };
    let finite_or_zero = |value: f32| if value.is_normal() || value == 0.0 { value } else { 0.0 };
    for &forward in &samples {
        for &voice in &samples {
            let out = sanitise_and_clamp(intent(forward, forward, voice), &bounds);
            let expected_forward = clamp(finite_or_zero(forward), 1.0);
            let expected_turn = clamp(finite_or_zero(forward), std::f32::consts::FRAC_PI_2);
            let v = finite_or_zero(voice);
            let expected_voice = if v < 0.0 { 0.0 } else { clamp(v, 1.0) };
            assert_eq!(out.forward_speed, expected_forward.to_bits(), "{forward}");
            assert_eq!(out.turn_rate, expected_turn.to_bits(), "{forward}");
            assert_eq!(out.vocalisation, expected_voice.to_bits(), "{voice}");
        }
    }
}

#[test]
fn every_body_steps_with_its_intent_clamped_against_its_own_bounds() {
    let slow = first_body();
    let fast = DeclaredBounds { max_forward_speed: 5.0f32.to_bits(), ..first_body() };
    let applied = vec![
        (7, Applied::Fresh(intent(3.0, 0.0, 0.5))),
        (9, Applied::Repeated(intent(3.0, f32::NAN, -1.0))),
        (100, Applied::Coasted),
    ];
    let steered = clamp_applied(&applied, &vec![slow, fast, slow]);
    assert_eq!(
        steered,
        vec![(7, intent(1.0, 0.0, 0.5)), (9, intent(3.0, 0.0, 0.0)), (100, intent(0.0, 0.0, 0.0))],
        "each against its own bounds, in the order given"
    );
    let intents = vec![(7, intent(-9.0, 9.0, 2.0)), (9, intent(1.0e-40, 0.0, 0.0))];
    assert_eq!(
        clamp_intents(&intents, &vec![slow, fast]),
        vec![(7, intent(-1.0, std::f32::consts::FRAC_PI_2, 1.0)), (9, intent(0.0, 0.0, 0.0))]
    );
}
