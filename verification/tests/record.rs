use master_control::record::{
    applied_line, claim_line, climbs, hash_due, hash_line, header_lines, judged_line, judged_lines,
    rez_line, DeclaredBounds,
};
use master_control::stager::{Applied, Intent, Verdict};
use master_control::wire::Actions;

fn text(line: &[u8]) -> String {
    String::from_utf8(line.to_vec()).expect("the log is text")
}

fn intent(forward: f32, turn: f32, voice: f32) -> Intent {
    Intent { forward_speed: forward.to_bits(), turn_rate: turn.to_bits(), vocalisation: voice.to_bits() }
}

#[test]
fn a_log_path_never_climbs() {
    for backslash in [false, true] {
        assert!(climbs(b"../elsewhere/input.log", backslash));
        assert!(climbs(b"logs/../input.log", backslash));
        assert!(climbs(b"logs/..", backslash));
        assert!(!climbs(b"logs/...input.log", backslash));
        assert!(!climbs(b"logs/..input.log", backslash));
        assert!(!climbs(b"./input.log", backslash));
    }
}

#[test]
fn a_backslash_separates_components_only_where_the_platform_says_so() {
    assert!(climbs(b"..\\elsewhere\\input.log", true));
    assert!(climbs(b"logs\\..\\input.log", true));
    assert!(climbs(b"logs\\..", true));
    assert!(climbs(b"logs/..\\input.log", true), "separators may be mixed");
    assert!(!climbs(b"logs\\..input.log", true));
    assert!(!climbs(b"logs\\...\\input.log", true));
    assert!(!climbs(b"a\\..\\b", false), "where only / separates, a\\..\\b is one component");
    assert!(!climbs(b"..\\elsewhere", false));
    assert!(!climbs(b"a\\../b", false), "a\\.. is one component where only / separates");
}

#[test]
fn the_log_states_its_world_and_writes_floats_as_bits() {
    let header: Vec<String> = header_lines(5, &[0xAB; 32], 0x0123_4567_89AB_CDEF, 0x1234, 100, 1_700_000_000, 32)
        .iter()
        .map(|line| text(line))
        .collect();
    let whole = header.join("\n") + "\n";
    assert!(whole.starts_with("# master-control input log\n"));
    assert!(whole.contains("protocol 5 abababab"));
    assert!(whole.contains("build 0123456789abcdef\n"), "the build stamp as --version prints it");
    assert!(whole.contains("world 0000000000001234\n"));
    assert!(whole.contains("start 100 1700000000\n"));
    assert!(whole.contains("hash_every 32\n"));
    assert_eq!(
        header[6],
        "# judged <sender> <creature> <intent_tick> <next_tick> <forward_bits> <turn_bits> <voice_bits> <verdict>"
    );
    assert_eq!(
        header[7],
        "# applied <tick> <creature> <fresh|repeated|coasted> <forward_bits> <turn_bits> <voice_bits>"
    );
    assert_eq!(header[8], "# hash <tick> <fnv1a_64_hex>");
    assert_eq!(header[1].len(), "protocol 5 ".len() + 64, "two lower-case hex digits a byte");

    assert_eq!(
        text(&judged_line(1, 7, 101, 101, intent(1.0, -0.5, 0.25), Verdict::Accepted { creature_id: 7, intent_tick: 101 })),
        "judged 1 7 101 101 3F800000 BF000000 3E800000 accepted",
        "floats are bit patterns, not roundings"
    );
    assert_eq!(
        text(&applied_line(101, 7, Applied::Fresh(intent(1.0, -0.5, 0.25)))),
        "applied 101 7 fresh 3F800000 BF000000 3E800000"
    );
    assert_eq!(text(&applied_line(102, 7, Applied::Coasted)), "applied 102 7 coasted 00000000 00000000 00000000");
    assert_eq!(text(&hash_line(128, 0xDEAD_BEEF)), "hash 128 00000000DEADBEEF");
}

#[test]
fn every_verdict_is_named_in_the_log() {
    let zero = intent(0.0, 0.0, 0.0);
    let named = [
        (Verdict::AlreadyApplied { creature_id: 7, intent_tick: 3 }, "already_applied"),
        (Verdict::BeforeFirstIntent { creature_id: 7, intent_tick: 3 }, "before_first_intent"),
        (Verdict::RefusedStale { creature_id: 7, intent_tick: 3, next_tick: 4 }, "refused_stale"),
        (Verdict::RefusedFuture { creature_id: 7, intent_tick: 9, next_tick: 4 }, "refused_future"),
        (Verdict::RefusedNotOwner { creature_id: 7, sender: 2 }, "refused_not_owner"),
        (Verdict::RefusedNotEmbodied { creature_id: 7, sender: 2 }, "refused_not_embodied"),
    ];
    for (verdict, word) in named {
        assert_eq!(
            text(&judged_line(2, 7, 3, 4, zero, verdict)),
            format!("judged 2 7 3 4 00000000 00000000 00000000 {word}")
        );
    }
    assert_eq!(
        text(&applied_line(5, 100, Applied::Repeated(intent(2.0, 0.0, 0.0)))),
        "applied 5 100 repeated 40000000 00000000 00000000"
    );
}

#[test]
fn an_actions_message_is_judged_previous_first_then_current() {
    let actions = Actions {
        tick: 10,
        creature_id: 100,
        desired_forward_speed: 1.0f32.to_bits(),
        desired_turn_rate: 0,
        vocalisation_strength: 0,
        previous_forward_speed: 0.5f32.to_bits(),
        previous_turn_rate: 0,
        previous_vocalisation: 0,
        reserved0: [0; 4],
    };
    let verdicts = vec![
        Verdict::BeforeFirstIntent { creature_id: 100, intent_tick: 9 },
        Verdict::Accepted { creature_id: 100, intent_tick: 10 },
    ];
    let lines: Vec<String> = judged_lines(1, &actions, 10, &verdicts).iter().map(|l| text(l)).collect();
    assert_eq!(
        lines,
        vec![
            "judged 1 100 9 10 3F000000 00000000 00000000 before_first_intent".to_string(),
            "judged 1 100 10 10 3F800000 00000000 00000000 accepted".to_string(),
        ]
    );
    let refused = vec![Verdict::RefusedNotOwner { creature_id: 100, sender: 1 }];
    let lines: Vec<String> = judged_lines(1, &actions, 10, &refused).iter().map(|l| text(l)).collect();
    assert_eq!(lines, vec!["judged 1 100 10 10 3F800000 00000000 00000000 refused_not_owner".to_string()]);
    assert!(judged_lines(1, &actions, 10, &Vec::new()).is_empty());
}

#[test]
fn a_rez_and_a_claim_are_written_whole() {
    let bounds = DeclaredBounds {
        max_forward_speed: 1.0f32.to_bits(),
        max_turn_rate: std::f32::consts::FRAC_PI_2.to_bits(),
        max_vocalisation_strength: 1.0f32.to_bits(),
        max_contact_count: 4,
    };
    assert_eq!(text(&rez_line(5, 7, bounds, &Vec::new())), "rez 5 7 3F800000 3FC90FDB 3F800000 4 0");
    let vertices = vec![[0, 1.0f32.to_bits(), 0]];
    assert_eq!(
        text(&rez_line(5, 7, bounds, &vertices)),
        "rez 5 7 3F800000 3FC90FDB 3F800000 4 1 00000000 3F800000 00000000"
    );
    assert_eq!(text(&claim_line(9, 100)), "claim 9 100");
}

#[test]
fn the_state_is_hashed_on_its_beat_and_never_without_one() {
    assert!(hash_due(32, 32));
    assert!(hash_due(0, 32));
    assert!(!hash_due(33, 32));
    assert!(!hash_due(32, 0), "a period of zero hashes nothing");
    assert!(hash_due(7, 1));
}
