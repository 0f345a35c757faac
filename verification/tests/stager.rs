use master_control::stager::{ActionStager, Applied, Intent, Verdict};
use master_control::wire::Actions;

fn actions(tick: u64, forward: f32, previous: f32) -> Actions {
    Actions {
        tick,
        creature_id: 100,
        desired_forward_speed: forward.to_bits(),
        desired_turn_rate: 0.0f32.to_bits(),
        vocalisation_strength: 0.0f32.to_bits(),
        previous_forward_speed: previous.to_bits(),
        previous_turn_rate: 0.0f32.to_bits(),
        previous_vocalisation: 0.0f32.to_bits(),
        reserved0: [0; 4],
    }
}

fn forward_of(intent: Intent) -> f32 {
    f32::from_bits(intent.forward_speed)
}

#[test]
fn the_window_accepts_now_refuses_stale_and_refuses_future() {
    let mut stager = ActionStager::default();
    let verdicts = stager.feed(1, &actions(10, 1.0, 0.5), 10);
    assert!(
        matches!(verdicts[0], Verdict::BeforeFirstIntent { intent_tick: 9, .. }),
        "the first word's piggyback names a tick no intent could have reached: not a loss"
    );
    assert!(matches!(verdicts[1], Verdict::Accepted { intent_tick: 10, .. }));

    let verdicts = stager.feed(1, &actions(11, 1.0, 1.0), 10);
    assert!(
        matches!(verdicts[0], Verdict::Accepted { intent_tick: 10, .. }),
        "the piggyback lands inside the window"
    );
    assert!(
        matches!(verdicts[1], Verdict::Accepted { intent_tick: 11, .. }),
        "one past the boundary is the host ahead of us, not the future"
    );

    let mut late = ActionStager::default();
    let verdicts = late.feed(1, &actions(8, 1.0, 0.5), 10);
    assert!(
        matches!(verdicts[1], Verdict::RefusedStale { intent_tick: 8, .. }),
        "the grace is the piggyback's alone"
    );

    let verdicts = stager.feed(1, &actions(10, 1.0, 0.5), 11);
    assert!(
        matches!(verdicts[0], Verdict::RefusedStale { intent_tick: 9, .. }),
        "after the first accepted intent, stale is stale"
    );

    let verdicts = stager.feed(1, &actions(500, 1.0, 1.0), 10);
    assert!(
        matches!(verdicts[1], Verdict::RefusedFuture { intent_tick: 500, .. }),
        "a far future tick is refused, never queued"
    );
}

#[test]
fn the_resend_is_idempotent_and_latest_wins() {
    let mut stager = ActionStager::default();
    let _ = stager.feed(1, &actions(10, 1.0, 0.0), 10);
    let _ = stager.feed(1, &actions(11, 2.0, 1.0), 10);
    match stager.intent_for(100, 10) {
        Applied::Fresh(intent) => assert!(
            (forward_of(intent) - 1.0).abs() < f32::EPSILON,
            "the piggybacked 1.0 re-landed on the first 1.0"
        ),
        other => panic!("expected a fresh intent, got {other:?}"),
    }
    let mut stager = ActionStager::default();
    let _ = stager.feed(1, &actions(10, 1.0, 0.0), 10);
    let _ = stager.feed(1, &actions(10, 3.0, 0.0), 10);
    match stager.intent_for(100, 10) {
        Applied::Fresh(intent) => assert!(
            (forward_of(intent) - 3.0).abs() < f32::EPSILON,
            "latest wins for the same (creature, tick)"
        ),
        other => panic!("expected a fresh intent, got {other:?}"),
    }
}

#[test]
fn the_resend_of_an_applied_intent_is_silence_and_a_lost_one_is_a_refusal() {
    let mut stager = ActionStager::default();
    let _ = stager.feed(1, &actions(10, 1.0, 0.0), 10);
    let _ = stager.intent_for(100, 10);
    let verdicts = stager.feed(1, &actions(11, 2.0, 1.0), 11);
    assert!(
        matches!(verdicts[0], Verdict::AlreadyApplied { intent_tick: 10, .. }),
        "the resend of what was stepped with is not a refusal, got {:?}",
        verdicts[0]
    );
    assert!(matches!(verdicts[1], Verdict::Accepted { intent_tick: 11, .. }));
    let _ = stager.intent_for(100, 11);
    let _ = stager.intent_for(100, 12);
    let verdicts = stager.feed(1, &actions(12, 3.0, 2.0), 13);
    assert!(
        matches!(verdicts[1], Verdict::RefusedStale { intent_tick: 12, .. }),
        "an intent that never landed is refused on the record, got {:?}",
        verdicts[1]
    );
}

#[test]
fn a_silent_network_repeats_once_then_coasts() {
    let mut stager = ActionStager::default();
    let _ = stager.feed(1, &actions(10, 2.0, 0.0), 10);
    assert!(matches!(stager.intent_for(100, 10), Applied::Fresh(_)));
    match stager.intent_for(100, 11) {
        Applied::Repeated(intent) => assert!(
            (forward_of(intent) - 2.0).abs() < f32::EPSILON,
            "the last accepted intent repeats"
        ),
        other => panic!("expected a repeat, got {other:?}"),
    }
    assert!(
        matches!(stager.intent_for(100, 12), Applied::Coasted),
        "the budget is one tick, then honest coasting"
    );
    assert!(matches!(stager.intent_for(100, 13), Applied::Coasted));
}

#[test]
fn a_silent_program_brakes_because_its_zeroes_arrive_fresh() {
    let mut stager = ActionStager::default();
    let _ = stager.feed(1, &actions(10, 2.0, 0.0), 10);
    let _ = stager.intent_for(100, 10);
    let _ = stager.feed(1, &actions(11, 0.0, 2.0), 11);
    match stager.intent_for(100, 11) {
        Applied::Fresh(intent) => assert!(
            forward_of(intent).abs() < f32::EPSILON,
            "the host's zeroes are an intent, not silence"
        ),
        other => panic!("expected the zeroes fresh, got {other:?}"),
    }
}

#[test]
fn sender_owns_creature_and_a_dead_owner_frees_it() {
    let mut stager = ActionStager::default();
    let _ = stager.feed(1, &actions(10, 1.0, 0.0), 10);
    let verdicts = stager.feed(2, &actions(10, 9.0, 9.0), 10);
    assert!(
        matches!(verdicts[0], Verdict::RefusedNotOwner { sender: 2, .. }),
        "a creature has one intent stream"
    );

    stager.owner_died(1);
    assert!(
        matches!(stager.intent_for(100, 11), Applied::Coasted),
        "the neutral reflex: embodied, zeroed"
    );
    let verdicts = stager.feed(2, &actions(12, 1.0, 1.0), 12);
    assert!(
        matches!(verdicts[1], Verdict::Accepted { .. }),
        "a reconnecting host may claim the freed creature"
    );
}

#[test]
fn a_replayed_tick_takes_the_latest_word_and_the_far_ends_of_u64_are_refused_not_panicked() {
    let mut stager = ActionStager::default();
    assert!(matches!(stager.feed(1, &actions(10, 1.0, 0.0), 10)[1], Verdict::Accepted { .. }));
    assert!(matches!(stager.feed(1, &actions(10, 2.0, 0.0), 10)[1], Verdict::Accepted { .. }));
    assert!(matches!(
        stager.intent_for(100, 10),
        Applied::Fresh(intent) if forward_of(intent) == 2.0
    ));
    assert!(matches!(
        stager.feed(1, &actions(10, 3.0, 0.0), 11)[1],
        Verdict::AlreadyApplied { .. }
    ));
    assert!(
        matches!(stager.intent_for(100, 11), Applied::Repeated(intent) if forward_of(intent) == 2.0),
        "a replayed tick never overwrites what the world stepped with"
    );

    let verdicts = stager.feed(1, &actions(0, 1.0, 0.0), 11);
    assert_eq!(verdicts.len(), 1);
    assert!(matches!(verdicts[0], Verdict::RefusedStale { intent_tick: 0, .. }));
    let verdicts = stager.feed(1, &actions(u64::MAX, 1.0, 0.0), 11);
    assert!(matches!(verdicts[0], Verdict::RefusedFuture { .. }));
    assert!(matches!(verdicts[1], Verdict::RefusedFuture { .. }));
    let verdicts = stager.feed(1, &actions(u64::MAX, 1.0, 0.0), u64::MAX);
    assert!(matches!(verdicts[1], Verdict::Accepted { .. }));
}

#[test]
fn a_released_creature_coasts_and_a_reassigned_one_starts_afresh() {
    let mut stager = ActionStager::default();
    let _ = stager.feed(1, &actions(10, 1.0, 0.0), 10);
    stager.reassign(100, 2);
    assert!(
        matches!(stager.intent_for(100, 10), Applied::Coasted),
        "what the earlier owner staged is forgotten with the stream"
    );
    let verdicts = stager.feed(1, &actions(11, 1.0, 1.0), 11);
    assert!(matches!(verdicts[0], Verdict::RefusedNotOwner { sender: 1, .. }));
    let _ = stager.feed(2, &actions(11, 4.0, 0.0), 11);
    stager.release(100);
    assert!(matches!(stager.intent_for(100, 11), Applied::Coasted));
}
