//! A refusal changes nothing: every way the world says no is tried on one world and not on its
//! twin, and the two must then hash alike at every step for as long as they are stepped.

use master_control::physics::{state_hash, BodyState};
use master_control::record::DeclaredBounds;
use master_control::roster::{Admission, DerezRefusal, Roster};
use master_control::stager::{ActionStager, Applied, Intent, Verdict};
use master_control::validator::DeclaredChain;
use master_control::wire::Actions;

const HOST: u64 = 1;
const STRANGER: u64 = 2;
const CREATURE: u32 = 256;

type World = Roster<BodyState, Vec<[u32; 3]>>;

fn first_body() -> DeclaredBounds {
    DeclaredBounds {
        max_forward_speed: 1.0f32.to_bits(),
        max_turn_rate: std::f32::consts::FRAC_PI_2.to_bits(),
        max_vocalisation_strength: 1.0f32.to_bits(),
        max_contact_count: 4,
    }
}

fn single() -> DeclaredChain {
    DeclaredChain { segment_count: 1, segment_spacing: 0 }
}

/// A small box, as its vertices' bit patterns.
fn boxed(half: f32) -> Vec<[u32; 3]> {
    (0..8u32)
        .map(|corner| {
            [
                (if corner & 1 == 0 { -half } else { half }).to_bits(),
                (if corner & 2 == 0 { -0.05f32 } else { 0.45 }).to_bits(),
                (if corner & 4 == 0 { -half } else { half }).to_bits(),
            ]
        })
        .collect()
}

fn standing_at(x: f32) -> BodyState {
    BodyState {
        position: [x.to_bits(), 0.05f32.to_bits(), 0],
        yaw: 0,
        velocity: [0; 3],
        forward_speed: 0,
        turn_rate: 0,
        vocalisation: 0,
    }
}

/// A rez judged by the world's validator, stood on its own spot if new.
fn rez(roster: &mut World, sender: u64, creature_id: u32, chain: DeclaredChain, mesh: Vec<[u32; 3]>) -> Admission {
    roster.rez(sender, creature_id, &first_body(), &chain, &mesh.clone(), mesh, Some(standing_at(creature_id as f32)))
}

fn actions(tick: u64, forward: f32) -> Actions {
    Actions {
        tick,
        creature_id: CREATURE,
        desired_forward_speed: forward.to_bits(),
        desired_turn_rate: 0.1f32.to_bits(),
        vocalisation_strength: 0.0f32.to_bits(),
        previous_forward_speed: forward.to_bits(),
        previous_turn_rate: 0.1f32.to_bits(),
        previous_vocalisation: 0.0f32.to_bits(),
        reserved0: [0; 4],
    }
}

/// One step of a stand-in physics: every body, in roster order, takes the intent the stager
/// gives it and moves by it.
fn step(roster: &mut World, stager: &mut ActionStager, tick: u64) -> Vec<Applied> {
    let mut applied = Vec::new();
    for creature_id in roster.ids_in_order() {
        let how = stager.intent_for(creature_id, tick);
        applied.push(how);
        let intent = match how {
            Applied::Fresh(intent) | Applied::Repeated(intent) => intent,
            Applied::Coasted => Intent { forward_speed: 0, turn_rate: 0, vocalisation: 0 },
        };
        let mut body = roster.resident(creature_id).expect("embodied").body;
        let forward = f32::from_bits(intent.forward_speed);
        let turn = f32::from_bits(intent.turn_rate);
        body.yaw = (f32::from_bits(body.yaw) + turn * 0.05).to_bits();
        body.velocity[2] = intent.forward_speed;
        body.position[2] = (f32::from_bits(body.position[2]) + forward * 0.05).to_bits();
        body.forward_speed = intent.forward_speed;
        body.turn_rate = intent.turn_rate;
        body.vocalisation = intent.vocalisation;
        roster.set_body(creature_id, body);
    }
    applied
}

fn hash(roster: &World) -> u64 {
    let bodies: Vec<BodyState> = roster
        .ids_in_order()
        .iter()
        .map(|creature_id| roster.resident(*creature_id).expect("embodied").body)
        .collect();
    state_hash(&bodies)
}

/// One world with one hosted creature that has spoken once, stepped once.
fn a_world() -> (World, ActionStager) {
    let mut roster = Roster::with_the_guest(standing_at(-2.0), boxed(0.3));
    assert_eq!(rez(&mut roster, HOST, CREATURE, single(), boxed(0.2)), Admission::Embodied);
    let mut stager = ActionStager::default();
    stager.reassign(CREATURE, HOST);
    // The piggybacked previous on a stream's first word names the tick before the first
    // intent could have reached the world; the word itself is accepted.
    let verdicts = stager.feed(HOST, &actions(1, 0.5), 1);
    assert_eq!(
        verdicts,
        vec![
            Verdict::BeforeFirstIntent { creature_id: CREATURE, intent_tick: 0 },
            Verdict::Accepted { creature_id: CREATURE, intent_tick: 1 },
        ]
    );
    step(&mut roster, &mut stager, 1);
    (roster, stager)
}

#[test]
fn every_refusal_leaves_the_world_bit_identical_to_a_twin_that_was_never_asked() {
    let (mut abused, mut abused_stager) = a_world();
    let (mut clean, mut clean_stager) = a_world();
    let before = hash(&clean);
    assert_eq!(hash(&abused), before, "twins start alike");

    // The roster's refusals, each by name.
    assert_eq!(
        rez(&mut abused, STRANGER, CREATURE, single(), boxed(0.2)),
        Admission::RefusedOwned { owner: HOST },
        "another host cannot take a worn identity"
    );
    let mut too_far = boxed(0.2);
    too_far[0] = [10.0f32.to_bits(), 0, 0];
    assert!(
        matches!(rez(&mut abused, HOST, 300, single(), too_far), Admission::RefusedBounds(_)),
        "a body reaching past the world is refused"
    );
    let mut subnormal = boxed(0.2);
    subnormal[0] = [1.0e-40f32.to_bits(), 0, 0];
    assert!(
        matches!(rez(&mut abused, HOST, 301, single(), subnormal), Admission::RefusedBounds(_)),
        "a body made of subnormals is refused"
    );
    // A chain the world does not admit: too long, and one with no spacing.
    let nine = DeclaredChain { segment_count: 9, segment_spacing: 0.5f32.to_bits() };
    assert!(
        matches!(rez(&mut abused, HOST, 302, nine, boxed(0.2)), Admission::RefusedBounds(_)),
        "a chain of nine is refused"
    );
    let flat = DeclaredChain { segment_count: 3, segment_spacing: 0.0f32.to_bits() };
    assert!(
        matches!(rez(&mut abused, HOST, 303, flat, boxed(0.2)), Admission::RefusedBounds(_)),
        "a chain with no spacing is refused"
    );
    assert_eq!(
        abused.derez(STRANGER, CREATURE),
        Err(DerezRefusal::NotOwner { owner: Some(HOST) }),
        "a stranger cannot derez"
    );
    assert_eq!(abused.derez(HOST, 999), Err(DerezRefusal::NotResident), "nobody can derez what is not there");
    assert!(!abused.claim(CREATURE, STRANGER), "a worn identity cannot be claimed");

    // The stager's refusals: stale, from the future, from a stranger.
    let next_tick = 2;
    let stale = abused_stager.feed(HOST, &actions(0, 0.9), next_tick);
    assert!(stale.iter().all(|verdict| matches!(verdict, Verdict::RefusedStale { .. })), "{stale:?}");
    let future = abused_stager.feed(HOST, &actions(next_tick + 5, 0.9), next_tick);
    assert!(future.iter().all(|verdict| matches!(verdict, Verdict::RefusedFuture { .. })), "{future:?}");
    let stranger = abused_stager.feed(STRANGER, &actions(next_tick, 0.9), next_tick);
    assert_eq!(stranger, vec![Verdict::RefusedNotOwner { creature_id: CREATURE, sender: STRANGER }]);

    // Nothing moved at the moment of refusal...
    assert_eq!(hash(&abused), before, "a refusal must not move the state hash");
    assert_eq!(abused.len(), clean.len(), "a refused rez must not add a row");

    // ...and nothing was remembered: stepped side by side, the twins agree on how every
    // creature was steered and on every bit of the world, past the silence budget and beyond.
    for tick in 2..=40 {
        let abused_applied = step(&mut abused, &mut abused_stager, tick);
        let clean_applied = step(&mut clean, &mut clean_stager, tick);
        assert_eq!(abused_applied, clean_applied, "tick {tick}: the refused intents must not steer anything");
        assert_eq!(hash(&abused), hash(&clean), "tick {tick}: the twins diverged after a refusal");
    }
    assert!(hash(&clean) != before, "a world that never changes proves nothing");
}
