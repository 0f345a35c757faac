use master_control::record::DeclaredBounds;
use master_control::roster::{Admission, DerezRefusal, GUEST_CREATURE_ID};
use master_control::stager::{Applied, Verdict};
use master_control::validator::DeclaredChain;
use master_control::wire::{Actions, ROLE_CREATURE_HOST, ROLE_SPECTATOR};
use master_control::world::World;

fn actions(creature_id: u32, tick: u64, forward: f32) -> Actions {
    Actions {
        tick,
        creature_id,
        desired_forward_speed: forward.to_bits(),
        desired_turn_rate: 0,
        vocalisation_strength: 0,
        previous_forward_speed: 0,
        previous_turn_rate: 0,
        previous_vocalisation: 0,
        reserved0: [0; 4],
    }
}

fn first_body() -> DeclaredBounds {
    DeclaredBounds {
        max_forward_speed: 1.0f32.to_bits(),
        max_turn_rate: 1.0f32.to_bits(),
        max_vocalisation_strength: 1.0f32.to_bits(),
        max_contact_count: 4,
    }
}

fn single() -> DeclaredChain {
    DeclaredChain { segment_count: 1, segment_spacing: 0 }
}

fn world() -> World<u32, u32> {
    World::with_the_guest(0, 0)
}

#[test]
fn a_host_steering_the_guest_takes_it_up_and_only_the_owner_steers() {
    let mut w = world();
    let (verdicts, claimed) = w.on_actions(1, ROLE_CREATURE_HOST, &actions(GUEST_CREATURE_ID, 1, 1.0), 1);
    assert!(claimed, "the first host to steer an orphan takes it up");
    assert!(matches!(verdicts[1], Verdict::Accepted { intent_tick: 1, .. }));
    assert_eq!(w.roster().owner_of(GUEST_CREATURE_ID), Some(Some(1)));
    let (verdicts, claimed) = w.on_actions(2, ROLE_CREATURE_HOST, &actions(GUEST_CREATURE_ID, 1, 9.0), 1);
    assert!(!claimed);
    assert_eq!(verdicts, vec![Verdict::RefusedNotOwner { creature_id: GUEST_CREATURE_ID, sender: 2 }]);
    let applied = w.applied_intents(1);
    assert_eq!(applied.len(), 1);
    match applied[0] {
        (GUEST_CREATURE_ID, Applied::Fresh(intent)) => assert_eq!(f32::from_bits(intent.forward_speed), 1.0),
        other => panic!("{other:?}"),
    }
}

#[test]
fn a_spectator_never_steers_rezzes_or_derezzes() {
    let mut w = world();
    let (verdicts, claimed) = w.on_actions(1, ROLE_SPECTATOR, &actions(GUEST_CREATURE_ID, 1, 1.0), 1);
    assert!(verdicts.is_empty() && !claimed);
    assert_eq!(w.on_rez(1, ROLE_SPECTATOR, 7, &first_body(), &single(), &vec![], 1, Some(7)), None);
    assert_eq!(w.on_derez(1, ROLE_SPECTATOR, GUEST_CREATURE_ID), None);
    assert_eq!(w.roster().owner_of(GUEST_CREATURE_ID), Some(None));
}

#[test]
fn an_unrezzed_identity_cannot_be_steered_and_a_rezzed_one_leaves_on_bye() {
    let mut w = world();
    let (verdicts, _) = w.on_actions(1, ROLE_CREATURE_HOST, &actions(7, 1, 1.0), 1);
    assert_eq!(verdicts, vec![Verdict::RefusedNotEmbodied { creature_id: 7, sender: 1 }]);
    assert_eq!(w.on_rez(1, ROLE_CREATURE_HOST, 7, &first_body(), &single(), &vec![], 1, Some(7)), Some(Admission::Embodied));
    assert_eq!(
        w.on_rez(2, ROLE_CREATURE_HOST, 7, &first_body(), &single(), &vec![], 1, Some(7)),
        Some(Admission::RefusedOwned { owner: 1 })
    );
    assert_eq!(w.on_derez(2, ROLE_CREATURE_HOST, 7), Some(Err(DerezRefusal::NotOwner { owner: Some(1) })));
    assert_eq!(w.on_bye(1), vec![7]);
    assert_eq!(w.roster().owner_of(7), None);
}

#[test]
fn a_crashed_hosts_creature_stays_and_coasts() {
    let mut w = world();
    assert_eq!(w.on_rez(1, ROLE_CREATURE_HOST, 7, &first_body(), &single(), &vec![], 1, Some(7)), Some(Admission::Embodied));
    let _ = w.on_actions(1, ROLE_CREATURE_HOST, &actions(7, 1, 1.0), 1);
    assert_eq!(w.on_gone(1), vec![7]);
    assert_eq!(w.roster().owner_of(7), Some(None), "embodied, ownerless");
    let applied = w.applied_intents(1);
    assert_eq!(applied, vec![(7, Applied::Coasted), (GUEST_CREATURE_ID, Applied::Coasted)]);
    w.set_body(7, 70);
    assert_eq!(w.roster().resident(7).expect("7").body, 70);
}

#[test]
fn a_rez_is_judged_by_the_validator_before_the_roster() {
    let mut w = world();
    let bounds = DeclaredBounds {
        max_forward_speed: 1.0f32.to_bits(),
        max_turn_rate: 1.0f32.to_bits(),
        max_vocalisation_strength: 1.0f32.to_bits(),
        max_contact_count: 4,
    };
    let single = DeclaredChain { segment_count: 1, segment_spacing: 0 };
    let far = vec![[0, 0, 5.0f32.to_bits()]];
    assert_eq!(
        w.on_rez(1, ROLE_CREATURE_HOST, 7, &bounds, &single, &far, 1, Some(7)),
        Some(Admission::RefusedBounds("a vertex lies farther than 4 m from the body origin"))
    );
    assert_eq!(w.roster().owner_of(7), None, "a refusal changes nothing");
    let near = vec![[0, 0, 4.0f32.to_bits()]];
    assert_eq!(w.on_rez(1, ROLE_CREATURE_HOST, 7, &bounds, &single, &near, 1, Some(7)), Some(Admission::Embodied));
    assert_eq!(w.on_rez(1, ROLE_SPECTATOR, 8, &bounds, &single, &near, 1, Some(8)), None);
    let nine = DeclaredChain { segment_count: 9, segment_spacing: 0.5f32.to_bits() };
    assert_eq!(
        w.on_rez(2, ROLE_CREATURE_HOST, 8, &bounds, &nine, &near, 1, Some(8)),
        Some(Admission::RefusedBounds("segment_count must lie in [1, 8]"))
    );
    assert_eq!(w.roster().owner_of(8), None, "a refused chain changes nothing");
}
