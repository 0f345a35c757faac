use master_control::script::{blinker_derezzes_at, cue, BLINK_HALF_PERIOD, CALL_LENGTH, CALL_PERIOD};

/// The rows the set dressing puts in a snapshot: two orbiters, and the blinker when present.
fn rows_at(tick: u64) -> usize {
    2 + usize::from(cue(tick).blinker_present)
}

#[test]
fn the_blinker_keeps_the_understudys_rhythm() {
    assert_eq!(rows_at(0), 3, "two orbiters and the blinker");
    assert_eq!(rows_at(BLINK_HALF_PERIOD), 2, "the blinker is gone");
    assert!(blinker_derezzes_at(BLINK_HALF_PERIOD));
    assert!(!blinker_derezzes_at(2 * BLINK_HALF_PERIOD), "coming back is a row, not a DEREZ");
}

#[test]
fn the_caller_sounds_once_on_its_onset_and_then_only_in_the_rows() {
    let onset = cue(CALL_PERIOD);
    assert!(onset.call_sounds, "one event at the onset");
    assert!(onset.calling);
    let continuing = cue(CALL_PERIOD + 1);
    assert!(!continuing.call_sounds);
    assert!(continuing.calling);
    assert!(!cue(CALL_PERIOD + CALL_LENGTH).calling);
}

#[test]
fn the_blinker_leaves_only_on_the_first_tick_of_an_odd_half_period() {
    assert!(!blinker_derezzes_at(0));
    assert!(!blinker_derezzes_at(BLINK_HALF_PERIOD - 1));
    assert!(!blinker_derezzes_at(BLINK_HALF_PERIOD + 1));
    assert!(blinker_derezzes_at(3 * BLINK_HALF_PERIOD));
    assert!(!cue(BLINK_HALF_PERIOD).blinker_present);
    assert!(cue(BLINK_HALF_PERIOD - 1).blinker_present);
    assert!(cue(2 * BLINK_HALF_PERIOD).blinker_present);
}
