//! The set dressing's clock: when the blinker is there, when it leaves, when the caller calls.
//! The orbits themselves are arithmetic on the circle and are drawn by the program around this
//! library; what is decided here is only which rows and which events a tick carries.

use vstd::prelude::*;

verus! {

/// The blinker's half period, in ticks: four seconds there, four seconds gone.
pub const BLINK_HALF_PERIOD: u64 = 128;

/// The caller calls this often, for this long, in ticks.
pub const CALL_PERIOD: u64 = 64;
pub const CALL_LENGTH: u64 = 8;

/// Whether the blinker is in the world at `tick`: the even half periods.
pub open spec fn spec_blinker_present(tick: u64) -> bool {
    (tick / BLINK_HALF_PERIOD) % 2 == 0
}

/// Whether the blinker leaves the world at `tick`: the first tick of an odd half period.
pub open spec fn spec_blinker_derezzes_at(tick: u64) -> bool {
    tick % BLINK_HALF_PERIOD == 0 && (tick / BLINK_HALF_PERIOD) % 2 != 0
}

/// Whether the blinker leaves the world at this tick - the moment a DEREZ is owed beside the
/// snapshot's silence, because a leave is a broadcast and not merely an absence.
pub fn blinker_derezzes_at(tick: u64) -> (leaves: bool)
    ensures
        leaves == spec_blinker_derezzes_at(tick),
{
    tick % BLINK_HALF_PERIOD == 0 && (tick / BLINK_HALF_PERIOD) % 2 != 0
}

/// Which of the set dressing's rows and events a tick carries.
#[derive(Clone, Copy, PartialEq, Eq, Debug)]
pub struct Cue {
    /// The blinker's row is in the snapshot.
    pub blinker_present: bool,
    /// The first orbiter is calling: its row carries the call.
    pub calling: bool,
    /// The call starts at this tick: the vocalisation event sounds.
    pub call_sounds: bool,
}

/// The set dressing's cue at `tick`: the blinker on its rhythm, and the caller calling for the
/// first `CALL_LENGTH` ticks of every `CALL_PERIOD`, sounding once at the onset.
pub fn cue(tick: u64) -> (cue: Cue)
    ensures
        cue.blinker_present == spec_blinker_present(tick),
        cue.calling == (tick % CALL_PERIOD < CALL_LENGTH),
        cue.call_sounds == (tick % CALL_PERIOD == 0),
{
    let phase = tick % CALL_PERIOD;
    Cue {
        blinker_present: (tick / BLINK_HALF_PERIOD) % 2 == 0,
        calling: phase < CALL_LENGTH,
        call_sounds: phase == 0,
    }
}

/// The blinker's rhythm: it leaves exactly where it stops being present - at a tick where it
/// is absent and was present the tick before - and coming back is a row, never a leave.
pub proof fn law_blinker_leaves_where_it_vanishes(tick: u64)
    requires
        tick > 0,
    ensures
        spec_blinker_derezzes_at(tick) <==> (!spec_blinker_present(tick) && spec_blinker_present((tick - 1) as u64)),
{
    let q = tick / BLINK_HALF_PERIOD;
    let p = ((tick - 1) as u64) / BLINK_HALF_PERIOD;
    assert(tick == q * 128 + tick % 128);
    assert((tick - 1) as u64 == p * 128 + ((tick - 1) as u64) % 128);
    if tick % 128 == 0 {
        assert(p == q - 1) by (nonlinear_arith)
            requires tick == q * 128, (tick - 1) == p * 128 + (tick - 1) % 128, 0 <= (tick - 1) % 128 < 128, q >= 1;
    } else {
        assert(p == q) by (nonlinear_arith)
            requires tick == q * 128 + tick % 128, (tick - 1) == p * 128 + (tick - 1) % 128, 0 <= (tick - 1) % 128 < 128, 0 < tick % 128 < 128;
    }
}

} // verus!
