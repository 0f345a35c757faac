//! The heartbeat's decisions: dt is sacred and the wall clock is the degree of freedom. The
//! loop that reads the clock, the sockets and the citizens stands outside this library; it
//! hands every reading and every message to the functions here and does what they answer.
//!
//! The pacing is a fixed-dt accumulator with a clamp on the ticks stepped per turn of the loop:
//! without the clamp one long stall becomes an unbounded catch-up burst. When the clamp fires
//! with time still owed, the debt is dropped, loudly, rather than carried: later ticks run
//! late and simulation time never stretches.

use vstd::prelude::*;
use crate::wire::{KEEPALIVE_PING_MILLIS, KEEPALIVE_DEAD_MILLIS};
use crate::text::{dec, decimal};

verus! {

/// The knobs, defaulted to the published contract. Durations are in milliseconds.
pub struct Config {
    /// Heard nothing for this long: send a PING.
    pub keepalive_ping: u64,
    /// Heard nothing for this long: the peer is dead, reap it.
    pub keepalive_dead: u64,
    /// Messages processed per connection per tick - the minimal flood posture.
    pub quota_per_tick: u32,
    /// Ticks stepped at most per turn of the loop - the clamp on the accumulator.
    pub max_catch_up: u32,
    /// How long an accepted knock may take to finish its handshake.
    pub handshake_timeout: u64,
    pub verbose: bool,
    /// Where to write the Disk - what the world said, in the wire's own bytes. `None` records
    /// nothing.
    pub disk: Option<String>,
    /// The size at which the Disk rolls over to its next file; zero never rolls.
    pub disk_roll_bytes: u64,
    /// Where to write the input log - every intent judged and applied, and the periodic hash.
    pub input_log: Option<String>,
    /// Ticks between hashes in the input log: 32 is once a second.
    pub hash_every: u32,
}

impl Default for Config {
    fn default() -> (config: Config)
        ensures
            config.keepalive_ping == KEEPALIVE_PING_MILLIS,
            config.keepalive_dead == KEEPALIVE_DEAD_MILLIS,
            config.quota_per_tick == 64,
            config.max_catch_up == 4,
            config.handshake_timeout == 250,
            !config.verbose,
            config.disk is None,
            config.disk_roll_bytes == 48 * 1024 * 1024,
            config.input_log is None,
            config.hash_every == 32,
    {
        Config {
            keepalive_ping: KEEPALIVE_PING_MILLIS,
            keepalive_dead: KEEPALIVE_DEAD_MILLIS,
            quota_per_tick: 64,
            max_catch_up: 4,
            handshake_timeout: 250,
            verbose: false,
            disk: None,
            disk_roll_bytes: 48 * 1024 * 1024,
            input_log: None,
            hash_every: 32,
        }
    }
}

/// `a + b`, held at the top of the range.
pub open spec fn held_sum(a: u64, b: u64) -> u64 {
    if a + b > u64::MAX { u64::MAX } else { (a + b) as u64 }
}

/// What the loop does next within one turn.
#[derive(Clone, Copy, PartialEq, Eq, Debug)]
pub enum Beat {
    /// Step one tick now.
    Step,
    /// The turn is over: the clock owes nothing more.
    Done,
    /// The clamp fired with time still owed: the debt was dropped, the next tick is one dt
    /// from now, and the overrun is counted and said.
    Overrun,
}

/// The accumulator: when the next tick is due, in nanoseconds of the loop's own clock.
pub struct Pacer {
    pub next_tick: u64,
    pub dt: u64,
    pub max_catch_up: u32,
    pub overruns: u64,
}

impl Pacer {
    /// A pacer whose first tick is due one dt after `now`.
    pub fn new(now: u64, dt: u64, max_catch_up: u32) -> (pacer: Pacer)
        ensures
            pacer.next_tick == held_sum(now, dt),
            pacer.dt == dt,
            pacer.max_catch_up == max_catch_up,
            pacer.overruns == 0,
    {
        Pacer { next_tick: now.saturating_add(dt), dt, max_catch_up, overruns: 0 }
    }

    /// How long the loop may wait before the next tick is owed; `None` when it is owed now.
    pub fn wait(&self, now: u64) -> (wait: Option<u64>)
        ensures
            now < self.next_tick ==> wait == Some((self.next_tick - now) as u64),
            now >= self.next_tick ==> wait is None,
    {
        if now < self.next_tick { Some(self.next_tick - now) } else { None }
    }

    /// The decision within a turn, `stepped` ticks into it: step while the clock owes a tick
    /// and the clamp allows; when the clamp stops the turn with a tick still owed, drop the
    /// debt. A step moves the next tick exactly one dt on.
    pub fn beat(&mut self, now: u64, stepped: u32) -> (beat: Beat)
        ensures
            (*final(self), beat) == beaten(*old(self), now, stepped),
    {
        if now < self.next_tick {
            Beat::Done
        } else if stepped < self.max_catch_up {
            self.next_tick = self.next_tick.saturating_add(self.dt);
            Beat::Step
        } else {
            self.overruns = self.overruns.saturating_add(1);
            self.next_tick = now.saturating_add(self.dt);
            Beat::Overrun
        }
    }
}

/// One beat of the accumulator at `now`, `stepped` ticks into the turn, and the pacer after
/// it: nothing owed is the turn's end; a tick owed within the clamp is stepped and the next
/// tick moves exactly one dt on; a tick owed past the clamp is an overrun - counted, and the
/// debt dropped, the next tick one dt from now.
pub open spec fn beaten(p: Pacer, now: u64, stepped: u32) -> (Pacer, Beat) {
    if now < p.next_tick {
        (p, Beat::Done)
    } else if stepped < p.max_catch_up {
        (Pacer { next_tick: held_sum(p.next_tick, p.dt), ..p }, Beat::Step)
    } else {
        (Pacer { next_tick: held_sum(now, p.dt), overruns: held_sum(p.overruns, 1), ..p }, Beat::Overrun)
    }
}

/// A whole turn of the loop at one reading of the clock, from `stepped` ticks in: the pacer at
/// its end, and how many ticks it stepped.
pub open spec fn turn(p: Pacer, now: u64, stepped: u32) -> (Pacer, nat)
    decreases p.max_catch_up - stepped,
{
    if now >= p.next_tick && stepped < p.max_catch_up {
        let (q, n) = turn(Pacer { next_tick: held_sum(p.next_tick, p.dt), ..p }, now, (stepped + 1) as u32);
        (q, n + 1)
    } else {
        (beaten(p, now, stepped).0, 0)
    }
}

/// The spiral of death stays closed: a turn of the loop steps no more ticks than the clamp
/// allows, and leaves the next tick after the clock - whatever the clock still owed past the
/// clamp is dropped, not carried. The beats of a turn are exactly the turn.
pub proof fn law_a_turn_is_clamped_and_leaves_nothing_owed(p: Pacer, now: u64, stepped: u32)
    requires
        p.dt > 0,
        now < u64::MAX,
        stepped <= p.max_catch_up,
    ensures
        turn(p, now, stepped).1 <= p.max_catch_up - stepped,
        turn(p, now, stepped).0.next_tick > now,
        turn(p, now, stepped).0.dt == p.dt,
        turn(p, now, stepped).0.max_catch_up == p.max_catch_up,
    decreases p.max_catch_up - stepped,
{
    if now >= p.next_tick && stepped < p.max_catch_up {
        law_a_turn_is_clamped_and_leaves_nothing_owed(
            Pacer { next_tick: held_sum(p.next_tick, p.dt), ..p },
            now,
            (stepped + 1) as u32,
        );
    }
}

/// What the keepalive owes one citizen.
#[derive(Clone, Copy, PartialEq, Eq, Debug)]
pub enum Keepalive {
    /// Silent past the dead line: reap it. Its creatures stay embodied on the neutral reflex.
    Reap,
    /// Quiet, and not pinged lately: PING it.
    Ping,
    /// Nothing owed.
    Quiet,
}

/// The keepalive contract, this end's half: PING the quiet, reap the dead. `silence` is how
/// long since the citizen was heard, `since_pinged` how long since it was last pinged.
pub fn keepalive(silence: u64, since_pinged: u64, ping_after: u64, dead_after: u64) -> (k: Keepalive)
    ensures
        k == (if silence >= dead_after {
            Keepalive::Reap
        } else if silence >= ping_after && since_pinged >= ping_after {
            Keepalive::Ping
        } else {
            Keepalive::Quiet
        }),
{
    if silence >= dead_after {
        Keepalive::Reap
    } else if silence >= ping_after && since_pinged >= ping_after {
        Keepalive::Ping
    } else {
        Keepalive::Quiet
    }
}

/// Ticks between two judgements of the Disk's size: a size is a system call.
pub const DISK_SIZE_EVERY: u64 = 8;

/// Whether the Disk rolls over once tick `tick` is told: a limit is set, the size is judged on
/// this tick, and the file has reached the limit. The tick just told is the file's last.
pub fn disk_rolls(tick: u64, size: u64, roll_bytes: u64) -> (rolls: bool)
    ensures
        rolls == (roll_bytes != 0 && tick % DISK_SIZE_EVERY == 0 && size >= roll_bytes),
{
    roll_bytes != 0 && tick % DISK_SIZE_EVERY == 0 && size >= roll_bytes
}

/// The word `.disk`.
pub const DISK_SUFFIX: [u8; 5] = [0x2E, 0x64, 0x69, 0x73, 0x6B];

/// A Disk's path without its `.disk`, when it ends in one.
pub open spec fn disk_stem(path: Seq<u8>) -> Seq<u8> {
    if path.len() >= 5 && path.subrange(path.len() - 5, path.len() as int) == DISK_SUFFIX@ {
        path.subrange(0, path.len() - 5)
    } else {
        path
    }
}

/// `n` in decimal, at least four digits, zeroes in front.
pub open spec fn dec4(n: nat) -> Seq<u8> {
    if dec(n).len() < 4 {
        Seq::new((4 - dec(n).len()) as nat, |i: int| 0x30u8) + dec(n)
    } else {
        dec(n)
    }
}

/// The `number`-th file of a Disk that rolls over: `<stem>.0002.disk`, `<stem>.0003.disk` and
/// on, beside the first.
pub open spec fn rolled_disk(path: Seq<u8>, number: nat) -> Seq<u8> {
    disk_stem(path) + seq![0x2Eu8] + dec4(number) + DISK_SUFFIX@
}

/// The path of the `number`-th file of the Disk at `path`.
pub fn rolled_disk_path(path: &[u8], number: u32) -> (rolled: Vec<u8>)
    ensures
        rolled@ == rolled_disk(path@, number as nat),
{
    let n = path.len();
    let mut ends_in_suffix = n >= 5;
    let mut k: usize = 0;
    while k < 5 && ends_in_suffix
        invariant
            n == path@.len(),
            k <= 5,
            ends_in_suffix ==> n >= 5,
            ends_in_suffix <==> (n >= 5 && forall|j: int| 0 <= j < k ==> #[trigger] path@[n - 5 + j] == DISK_SUFFIX@[j]),
        decreases 5 - k,
    {
        if path[n - 5 + k] != DISK_SUFFIX[k] {
            ends_in_suffix = false;
        }
        k += 1;
    }
    proof {
        if n >= 5 {
            if ends_in_suffix {
                assert(path@.subrange(n - 5, n as int) =~= DISK_SUFFIX@);
            } else {
                if path@.subrange(n - 5, n as int) == DISK_SUFFIX@ {
                    let j = choose|j: int| 0 <= j < k && path@[n - 5 + j] != DISK_SUFFIX@[j];
                    assert(path@.subrange(n - 5, n as int)[j] == path@[n - 5 + j]);
                }
            }
        }
    }
    let stem_len = if ends_in_suffix { n - 5 } else { n };
    let mut rolled: Vec<u8> = Vec::new();
    let mut i: usize = 0;
    while i < stem_len
        invariant
            stem_len <= n,
            n == path@.len(),
            i <= stem_len,
            rolled@ == path@.subrange(0, i as int),
        decreases stem_len - i,
    {
        rolled.push(path[i]);
        proof { assert(rolled@ =~= path@.subrange(0, i + 1)); }
        i += 1;
    }
    proof { assert(rolled@ =~= disk_stem(path@)); }
    rolled.push(0x2E);
    let digits = decimal(number as u64);
    let mut pad: usize = 0;
    let ghost before = rolled@;
    if digits.len() < 4 {
        let zeroes = 4 - digits.len();
        while pad < zeroes
            invariant
                zeroes <= 4,
                pad <= zeroes,
                rolled@ == before + Seq::new(pad as nat, |i: int| 0x30u8),
            decreases zeroes - pad,
        {
            rolled.push(0x30);
            proof { assert(rolled@ =~= before + Seq::new((pad + 1) as nat, |i: int| 0x30u8)); }
            pad += 1;
        }
        proof { assert(rolled@ =~= before + Seq::new((4 - dec(number as nat).len()) as nat, |i: int| 0x30u8)); }
    }
    let ghost padded = rolled@;
    let mut d: usize = 0;
    while d < digits.len()
        invariant
            d <= digits@.len(),
            rolled@ == padded + digits@.subrange(0, d as int),
        decreases digits@.len() - d,
    {
        rolled.push(digits[d]);
        proof { assert(rolled@ =~= padded + digits@.subrange(0, d + 1)); }
        d += 1;
    }
    let ghost numbered = rolled@;
    let mut e: usize = 0;
    while e < 5
        invariant
            e <= 5,
            rolled@ == numbered + DISK_SUFFIX@.subrange(0, e as int),
        decreases 5 - e,
    {
        rolled.push(DISK_SUFFIX[e]);
        proof { assert(rolled@ =~= numbered + DISK_SUFFIX@.subrange(0, e + 1)); }
        e += 1;
    }
    proof {
        assert(digits@.subrange(0, digits@.len() as int) =~= digits@);
        assert(DISK_SUFFIX@.subrange(0, 5) =~= DISK_SUFFIX@);
        assert(rolled@ =~= rolled_disk(path@, number as nat));
    }
    rolled
}

} // verus!
