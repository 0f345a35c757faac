//! The acceptance window, the dedupe, and the silence rules, as a pure state machine with no
//! socket anywhere near it.
//!
//! Every intent that reaches the wire either reaches the world or is refused on the record:
//! `feed` answers a verdict for every candidate it judged. Nothing here logs or sends.

use vstd::prelude::*;
use crate::table::Table;
use crate::wire::{Actions, ACTIONS_REPEAT_TICKS};

verus! {

/// The twelve bytes of intent, staged or applied: three binary32 values held as their bit
/// patterns - forward speed, turn rate and vocalisation.
#[derive(Clone, Copy, PartialEq, Eq, Debug)]
pub struct Intent {
    pub forward_speed: u32,
    pub turn_rate: u32,
    pub vocalisation: u32,
}

/// The zero intent: every field the bit pattern of +0.0.
pub open spec fn zero_intent() -> Intent {
    Intent { forward_speed: 0, turn_rate: 0, vocalisation: 0 }
}

/// The intent a body steps with under what the silence rules applied: the fresh or the repeated
/// intent, or the zero intent of a coast.
pub open spec fn stepped_with(applied: Applied) -> Intent {
    match applied {
        Applied::Fresh(intent) => intent,
        Applied::Repeated(intent) => intent,
        Applied::Coasted => zero_intent(),
    }
}

impl Default for Intent {
    fn default() -> (intent: Intent)
        ensures
            intent == zero_intent(),
    {
        Intent { forward_speed: 0, turn_rate: 0, vocalisation: 0 }
    }
}

/// What happened to one candidate intent - the record the logs are owed.
#[derive(Clone, Copy, PartialEq, Eq, Debug)]
pub enum Verdict {
    /// Staged for its tick; a later intent for the same (creature, tick) replaces it.
    Accepted { creature_id: u32, intent_tick: u64 },
    /// The resend of an intent this creature already stepped with.
    AlreadyApplied { creature_id: u32, intent_tick: u64 },
    /// The piggyback on a stream's first ACTIONS, naming a tick stepped before any intent could
    /// have reached it: not a loss.
    BeforeFirstIntent { creature_id: u32, intent_tick: u64 },
    /// Arrived after its tick was stepped, and was never applied: a real loss.
    RefusedStale { creature_id: u32, intent_tick: u64, next_tick: u64 },
    /// Tagged beyond the window.
    RefusedFuture { creature_id: u32, intent_tick: u64, next_tick: u64 },
    /// Sent by a connection that does not own the creature.
    RefusedNotOwner { creature_id: u32, sender: u64 },
    /// Sent for an identity nobody wears.
    RefusedNotEmbodied { creature_id: u32, sender: u64 },
}

/// How a step's intent came to be - the applied half of the record.
#[derive(Clone, Copy, PartialEq, Eq, Debug)]
pub enum Applied {
    /// The staged intent for exactly this tick.
    Fresh(Intent),
    /// A silent network: the last accepted intent, re-applied within its bounded budget.
    Repeated(Intent),
    /// Silence past the budget, or nothing ever accepted: zeroed coast.
    Coasted,
}

/// The mathematical state of one creature's intent stream.
#[verifier::ext_equal]
pub struct StagingView {
    /// The connection that owns the stream.
    pub owner: u64,
    /// Accepted intents by the tick they are staged for.
    pub staged: Map<u64, Intent>,
    /// The intent last applied fresh, re-applied while the repeat budget lasts.
    pub last_accepted: Option<Intent>,
    pub repeat_budget: u32,
    /// The tick whose fresh intent was last applied.
    pub last_applied_tick: Option<u64>,
    /// Whether any intent was ever accepted on this stream.
    pub ever_accepted: bool,
}

/// A stream as it starts, owned by `owner`.
pub open spec fn fresh_staging(owner: u64) -> StagingView {
    StagingView {
        owner,
        staged: Map::empty(),
        last_accepted: None,
        repeat_budget: 0,
        last_applied_tick: None,
        ever_accepted: false,
    }
}

/// `next + 1`, held at the top of the range.
pub open spec fn after(next_tick: u64) -> u64 {
    if next_tick == u64::MAX { u64::MAX } else { (next_tick + 1) as u64 }
}

/// The window: the tick being staged for, and the one after it.
pub open spec fn in_window(tick: u64, next_tick: u64) -> bool {
    next_tick <= tick && tick <= after(next_tick)
}

/// The verdict on one candidate intent for `tick`, and the stream after it.
pub open spec fn judge(
    s: StagingView,
    creature_id: u32,
    tick: u64,
    intent: Intent,
    piggybacked: bool,
    next_tick: u64,
) -> (StagingView, Verdict) {
    if s.last_applied_tick == Some(tick) {
        (s, Verdict::AlreadyApplied { creature_id, intent_tick: tick })
    } else if piggybacked && tick < next_tick && !s.ever_accepted {
        (s, Verdict::BeforeFirstIntent { creature_id, intent_tick: tick })
    } else if tick < next_tick {
        (s, Verdict::RefusedStale { creature_id, intent_tick: tick, next_tick })
    } else if tick > after(next_tick) {
        (s, Verdict::RefusedFuture { creature_id, intent_tick: tick, next_tick })
    } else {
        (
            StagingView { staged: s.staged.insert(tick, intent), ever_accepted: true, ..s },
            Verdict::Accepted { creature_id, intent_tick: tick },
        )
    }
}

/// The intent an ACTIONS message carries for its own tick.
pub open spec fn current_intent(a: Actions) -> Intent {
    Intent {
        forward_speed: a.desired_forward_speed,
        turn_rate: a.desired_turn_rate,
        vocalisation: a.vocalisation_strength,
    }
}

/// The intent an ACTIONS message carries for the tick before its own.
pub open spec fn previous_intent(a: Actions) -> Intent {
    Intent {
        forward_speed: a.previous_forward_speed,
        turn_rate: a.previous_turn_rate,
        vocalisation: a.previous_vocalisation,
    }
}

/// Every stream after one ACTIONS message from `sender`, and the verdicts it earned: the
/// piggybacked previous judged first (when there is a tick before), then the current - so for
/// one tick the fresher telling wins.
pub open spec fn fed(
    m: Map<u32, StagingView>,
    sender: u64,
    a: Actions,
    next_tick: u64,
) -> (Map<u32, StagingView>, Seq<Verdict>) {
    let id = a.creature_id;
    let s0 = if m.contains_key(id) { m[id] } else { fresh_staging(sender) };
    if s0.owner != sender {
        (m, seq![Verdict::RefusedNotOwner { creature_id: id, sender }])
    } else if a.tick > 0 {
        let (s1, v1) = judge(s0, id, (a.tick - 1) as u64, previous_intent(a), true, next_tick);
        let (s2, v2) = judge(s1, id, a.tick, current_intent(a), false, next_tick);
        (m.insert(id, s2), seq![v1, v2])
    } else {
        let (s1, v1) = judge(s0, id, a.tick, current_intent(a), false, next_tick);
        (m.insert(id, s1), seq![v1])
    }
}

/// The staged intents of a stream that are still ahead of `tick` or at it.
pub open spec fn kept_from(staged: Map<u64, Intent>, tick: u64) -> Map<u64, Intent> {
    staged.restrict(staged.dom().filter(|t: u64| t >= tick))
}

/// Every stream after stepping `creature_id` at `tick`, and the intent it steps with.
pub open spec fn stepped(
    m: Map<u32, StagingView>,
    creature_id: u32,
    tick: u64,
) -> (Map<u32, StagingView>, Applied) {
    if !m.contains_key(creature_id) {
        (m, Applied::Coasted)
    } else {
        let s = m[creature_id];
        let kept = kept_from(s.staged, tick);
        if kept.contains_key(tick) {
            (
                m.insert(creature_id, StagingView {
                    staged: kept.remove(tick),
                    last_accepted: Some(kept[tick]),
                    last_applied_tick: Some(tick),
                    repeat_budget: ACTIONS_REPEAT_TICKS,
                    ..s
                }),
                Applied::Fresh(kept[tick]),
            )
        } else if s.repeat_budget > 0 && s.last_accepted is Some {
            (
                m.insert(creature_id, StagingView {
                    staged: kept,
                    repeat_budget: (s.repeat_budget - 1) as u32,
                    ..s
                }),
                Applied::Repeated(s.last_accepted.unwrap()),
            )
        } else {
            (m.insert(creature_id, StagingView { staged: kept, ..s }), Applied::Coasted)
        }
    }
}

/// One creature's intent stream.
struct Staging {
    owner: u64,
    staged: Table<Intent>,
    last_accepted: Option<Intent>,
    repeat_budget: u32,
    last_applied_tick: Option<u64>,
    ever_accepted: bool,
}

impl Staging {
    spec fn view(&self) -> StagingView {
        StagingView {
            owner: self.owner,
            staged: self.staged@,
            last_accepted: self.last_accepted,
            repeat_budget: self.repeat_budget,
            last_applied_tick: self.last_applied_tick,
            ever_accepted: self.ever_accepted,
        }
    }

    fn fresh(owner: u64) -> (s: Staging)
        ensures
            s.staged.wf(),
            s.view() == fresh_staging(owner),
    {
        Staging {
            owner,
            staged: Table::new(),
            last_accepted: None,
            repeat_budget: 0,
            last_applied_tick: None,
            ever_accepted: false,
        }
    }

    fn judge(
        &mut self,
        creature_id: u32,
        tick: u64,
        intent: Intent,
        piggybacked: bool,
        next_tick: u64,
    ) -> (verdict: Verdict)
        requires
            old(self).staged.wf(),
        ensures
            final(self).staged.wf(),
            (final(self).view(), verdict) == judge(old(self).view(), creature_id, tick, intent, piggybacked, next_tick),
    {
        let next_after = if next_tick == u64::MAX { u64::MAX } else { next_tick + 1 };
        if self.last_applied_tick == Some(tick) {
            Verdict::AlreadyApplied { creature_id, intent_tick: tick }
        } else if piggybacked && tick < next_tick && !self.ever_accepted {
            Verdict::BeforeFirstIntent { creature_id, intent_tick: tick }
        } else if tick < next_tick {
            Verdict::RefusedStale { creature_id, intent_tick: tick, next_tick }
        } else if tick > next_after {
            Verdict::RefusedFuture { creature_id, intent_tick: tick, next_tick }
        } else {
            self.staged.insert(tick, intent);
            self.ever_accepted = true;
            Verdict::Accepted { creature_id, intent_tick: tick }
        }
    }
}

/// The stager for every steerable creature.
pub struct ActionStager {
    creatures: Table<Staging>,
}

impl Default for ActionStager {
    /// A stager with no stream.
    fn default() -> (stager: ActionStager)
        ensures
            stager.wf(),
            stager@ == Map::<u32, StagingView>::empty(),
    {
        let stager = ActionStager { creatures: Table::new() };
        assert(stager@ =~= Map::<u32, StagingView>::empty());
        stager
    }
}

impl View for ActionStager {
    type V = Map<u32, StagingView>;

    closed spec fn view(&self) -> Map<u32, StagingView> {
        Map::new(
            |id: u32| self.creatures@.contains_key(id as u64),
            |id: u32| self.creatures@[id as u64].view(),
        )
    }
}

impl ActionStager {
    /// The stager's own invariant: its tables are well formed.
    pub closed spec fn wf(&self) -> bool {
        &&& self.creatures.wf()
        &&& forall|k: u64| #[trigger] self.creatures@.contains_key(k) ==> k <= u32::MAX && self.creatures@[k].staged.wf()
    }


    /// Put a stream back: the table after it is the map with `id` set to it.
    fn put(&mut self, id: u32, s: Staging)
        requires
            old(self).wf(),
            s.staged.wf(),
        ensures
            final(self).wf(),
            final(self)@ == old(self)@.insert(id, s.view()),
    {
        let ghost before = self@;
        self.creatures.insert(id as u64, s);
        proof {
            assert forall|k: u64| #[trigger] self.creatures@.contains_key(k) implies k <= u32::MAX && self.creatures@[k].staged.wf() by {
                if k != id as u64 {
                    assert(old(self).creatures@.contains_key(k));
                }
            }
            assert(self@ =~= before.insert(id, s.view())) by {
                assert forall|c: u32| #[trigger] self@.contains_key(c) <==> before.insert(id, s.view()).contains_key(c) by {}
                assert forall|c: u32| #[trigger] self@.contains_key(c) implies self@[c] == before.insert(id, s.view())[c] by {}
            }
        }
    }

    /// Take a stream out, if the creature has one.
    fn take(&mut self, id: u32) -> (s: Option<Staging>)
        requires
            old(self).wf(),
        ensures
            final(self).wf(),
            final(self)@ == old(self)@.remove(id),
            s is None <==> !old(self)@.contains_key(id),
            s matches Some(x) ==> x.staged.wf() && x.view() == old(self)@[id],
    {
        let ghost before = self@;
        let s = self.creatures.remove(id as u64);
        proof {
            assert forall|k: u64| #[trigger] self.creatures@.contains_key(k) implies k <= u32::MAX && self.creatures@[k].staged.wf() by {
                assert(old(self).creatures@.contains_key(k));
            }
            assert(self@ =~= before.remove(id)) by {
                assert forall|c: u32| #[trigger] self@.contains_key(c) <==> before.remove(id).contains_key(c) by {}
            }
        }
        s
    }

    /// Judge one ACTIONS message from connection `sender`, with `next_tick` the tick the world
    /// will step next. The window with integer ticks: accept `next_tick` and `next_tick + 1`;
    /// earlier is stale, later is refused as future rather than queued. The piggybacked
    /// previous is judged first, then the current, each by the same rules, so a resend that
    /// already landed lands again on itself and the fresher telling of one tick wins.
    pub fn feed(&mut self, sender: u64, actions: &Actions, next_tick: u64) -> (verdicts: Vec<Verdict>)
        requires
            old(self).wf(),
        ensures
            final(self).wf(),
            (final(self)@, verdicts@) == fed(old(self)@, sender, *actions, next_tick),
    {
        let mut verdicts: Vec<Verdict> = Vec::new();
        let id = actions.creature_id;
        let ghost before = self@;
        let mut staging = match self.take(id) {
            Some(s) => s,
            None => Staging::fresh(sender),
        };
        if staging.owner != sender {
            self.put(id, staging);
            assert(self@ =~= before);
            verdicts.push(Verdict::RefusedNotOwner { creature_id: id, sender });
            return verdicts;
        }
        if actions.tick > 0 {
            let previous = Intent {
                forward_speed: actions.previous_forward_speed,
                turn_rate: actions.previous_turn_rate,
                vocalisation: actions.previous_vocalisation,
            };
            let verdict = staging.judge(id, actions.tick - 1, previous, true, next_tick);
            verdicts.push(verdict);
        }
        let current = Intent {
            forward_speed: actions.desired_forward_speed,
            turn_rate: actions.desired_turn_rate,
            vocalisation: actions.vocalisation_strength,
        };
        let verdict = staging.judge(id, actions.tick, current, false, next_tick);
        verdicts.push(verdict);
        self.put(id, staging);
        proof {
            assert(before.remove(id).insert(id, staging.view()) =~= before.insert(id, staging.view()));
        }
        verdicts
    }

    /// The intent the world steps `creature_id` with at `tick`, under the silence rules: fresh
    /// when staged; otherwise the last accepted intent re-applied for up to
    /// `ACTIONS_REPEAT_TICKS`; otherwise zeroed coast. Whatever was staged for an earlier tick
    /// is spent.
    pub fn intent_for(&mut self, creature_id: u32, tick: u64) -> (applied: Applied)
        requires
            old(self).wf(),
        ensures
            final(self).wf(),
            (final(self)@, applied) == stepped(old(self)@, creature_id, tick),
    {
        let ghost before = self@;
        let mut staging = match self.take(creature_id) {
            Some(s) => s,
            None => {
                assert(self@ =~= before);
                return Applied::Coasted;
            }
        };
        let ghost s0 = staging.view();
        staging.staged.drop_below(tick);
        assert(staging.staged@ == kept_from(s0.staged, tick));
        let applied = match staging.staged.remove(tick) {
            Some(intent) => {
                staging.last_accepted = Some(intent);
                staging.last_applied_tick = Some(tick);
                staging.repeat_budget = ACTIONS_REPEAT_TICKS;
                Applied::Fresh(intent)
            }
            None => {
                if staging.repeat_budget > 0 && staging.last_accepted.is_some() {
                    staging.repeat_budget = staging.repeat_budget - 1;
                    Applied::Repeated(staging.last_accepted.unwrap())
                } else {
                    Applied::Coasted
                }
            }
        };
        self.put(creature_id, staging);
        proof {
            assert(before.contains_key(creature_id));
            assert(before[creature_id] == s0);
            assert(before.remove(creature_id).insert(creature_id, staging.view()) =~= before.insert(creature_id, staging.view()));
            let expect = stepped(before, creature_id, tick);
            let kept = kept_from(s0.staged, tick);
            if kept.contains_key(tick) {
                assert(staging.view() =~= StagingView { staged: kept.remove(tick), last_accepted: Some(kept[tick]), last_applied_tick: Some(tick), repeat_budget: ACTIONS_REPEAT_TICKS, ..s0 });
            } else if s0.repeat_budget > 0 && s0.last_accepted is Some {
                assert(staging.view() =~= StagingView { staged: kept, repeat_budget: (s0.repeat_budget - 1) as u32, ..s0 });
            } else {
                assert(staging.view() =~= StagingView { staged: kept, ..s0 });
            }
            assert(expect.1 == applied);
            assert(expect.0 =~= before.insert(creature_id, staging.view()));
        }
        applied
    }

    /// The roster's word on who steers a creature: the stream is handed to `owner`, and
    /// whatever an earlier owner staged is forgotten with it.
    pub fn reassign(&mut self, creature_id: u32, owner: u64)
        requires
            old(self).wf(),
        ensures
            final(self).wf(),
            final(self)@ == old(self)@.insert(creature_id, fresh_staging(owner)),
    {
        let s = Staging::fresh(owner);
        self.put(creature_id, s);
    }

    /// A creature that left the world takes its stream with it.
    pub fn release(&mut self, creature_id: u32)
        requires
            old(self).wf(),
        ensures
            final(self).wf(),
            final(self)@ == old(self)@.remove(creature_id),
    {
        let _ = self.take(creature_id);
    }

    /// The dead-host rule: every stream `owner` held is forgotten, so its creatures fall to the
    /// neutral reflex and become claimable by a reconnecting host.
    pub fn owner_died(&mut self, owner: u64)
        requires
            old(self).wf(),
        ensures
            final(self).wf(),
            final(self)@ == old(self)@.restrict(old(self)@.dom().filter(|c: u32| old(self)@[c].owner != owner)),
    {
        let ghost before = self@;
        proof {
            self.creatures.lemma_wf();
            assert forall|c: u32| #[trigger] self@.contains_key(c) && self@[c].owner == owner implies exists|j: int| 0 <= j < self.creatures.keys().len() && self.creatures.keys()[j] == c as u64 by {
                assert(self.creatures.keys().contains(c as u64));
            }
        }
        let mut i: usize = 0;
        while i < self.creatures.len()
            invariant
                self.wf(),
                i <= self.creatures.keys().len(),
                forall|c: u32| #[trigger] self@.contains_key(c) ==> before.contains_key(c) && self@[c] == before[c],
                forall|c: u32| #[trigger] before.contains_key(c) && before[c].owner != owner ==> self@.contains_key(c),
                forall|c: u32| #[trigger] self@.contains_key(c) && self@[c].owner == owner ==> exists|j: int| i <= j < self.creatures.keys().len() && self.creatures.keys()[j] == c as u64,
            decreases self.creatures.keys().len() - i,
        {
            proof { self.creatures.lemma_wf(); }
            let k = self.creatures.key_at(i);
            let doomed = self.creatures.value_at(i).owner == owner;
            if doomed {
                let ghost pre = self@;
                let ghost pre_keys = self.creatures.keys();
                let ghost pre_table = self.creatures@;
                let row = self.creatures.remove_at(i);
                proof {
                    self.creatures.lemma_wf();
                    assert forall|k2: u64| #[trigger] self.creatures@.contains_key(k2) implies k2 <= u32::MAX && self.creatures@[k2].staged.wf() by {
                        assert(pre_table.contains_key(k2));
                    }
                    assert forall|c: u32| #[trigger] self@.contains_key(c) implies before.contains_key(c) && self@[c] == before[c] by {
                        assert(pre.contains_key(c));
                    }
                    assert forall|c: u32| #[trigger] before.contains_key(c) && before[c].owner != owner implies self@.contains_key(c) by {
                        assert(pre.contains_key(c));
                        assert(c as u64 != row.0);
                    }
                    assert forall|c: u32| #[trigger] self@.contains_key(c) && self@[c].owner == owner implies exists|j: int| i <= j < self.creatures.keys().len() && self.creatures.keys()[j] == c as u64 by {
                        assert(pre.contains_key(c));
                        let j0 = choose|j: int| i <= j < pre_keys.len() && pre_keys[j] == c as u64;
                        assert(j0 != i);
                        assert(self.creatures.keys()[j0 - 1] == c as u64);
                    }
                }
            } else {
                proof {
                    assert forall|c: u32| #[trigger] self@.contains_key(c) && self@[c].owner == owner implies exists|j: int| i + 1 <= j < self.creatures.keys().len() && self.creatures.keys()[j] == c as u64 by {
                        let j0 = choose|j: int| i <= j < self.creatures.keys().len() && self.creatures.keys()[j] == c as u64;
                        assert(j0 != i);
                    }
                }
                i += 1;
            }
        }
        proof {
            self.creatures.lemma_wf();
            assert(self@ =~= before.restrict(before.dom().filter(|c: u32| before[c].owner != owner))) by {
                assert forall|c: u32| #[trigger] self@.contains_key(c) implies before[c].owner != owner by {
                    if self@[c].owner == owner {
                        let j = choose|j: int| i <= j < self.creatures.keys().len() && self.creatures.keys()[j] == c as u64;
                    }
                }
            }
        }
    }
}


/// Whether a verdict staged its intent.
pub open spec fn is_accepted(v: Verdict) -> bool {
    v is Accepted
}

/// The window: an owner's intent for a tick it has not already stepped with is accepted
/// exactly when it is tagged for the tick the world steps next or the one after.
pub proof fn law_acceptance_window(m: Map<u32, StagingView>, sender: u64, a: Actions, next_tick: u64)
    requires
        m.contains_key(a.creature_id),
        m[a.creature_id].owner == sender,
        m[a.creature_id].last_applied_tick != Some(a.tick),
    ensures
        is_accepted(fed(m, sender, a, next_tick).1.last()) <==> in_window(a.tick, next_tick),
        is_accepted(fed(m, sender, a, next_tick).1.last()) ==> fed(m, sender, a, next_tick).0[a.creature_id].staged[a.tick] == current_intent(a),
{
}

/// A refusal changes nothing: an ACTIONS message for a creature with a stream, of which no
/// intent is accepted, leaves every stream as it was.
pub proof fn law_refusals_change_nothing(m: Map<u32, StagingView>, sender: u64, a: Actions, next_tick: u64)
    requires
        m.contains_key(a.creature_id),
        forall|i: int| 0 <= i < fed(m, sender, a, next_tick).1.len() ==> !is_accepted(#[trigger] fed(m, sender, a, next_tick).1[i]),
    ensures
        fed(m, sender, a, next_tick).0 == m,
{
    let id = a.creature_id;
    let out = fed(m, sender, a, next_tick);
    if m[id].owner == sender {
        if a.tick > 0 {
            assert(!is_accepted(out.1[0]));
            assert(!is_accepted(out.1[1]));
        } else {
            assert(!is_accepted(out.1[0]));
        }
        assert(out.0 =~= m);
    }
}

/// The resend is free: the same ACTIONS message delivered twice leaves every stream as
/// delivering it once.
pub proof fn law_resend_is_idempotent(m: Map<u32, StagingView>, sender: u64, a: Actions, next_tick: u64)
    ensures
        fed(fed(m, sender, a, next_tick).0, sender, a, next_tick).0 == fed(m, sender, a, next_tick).0,
{
    let id = a.creature_id;
    let once = fed(m, sender, a, next_tick).0;
    let twice = fed(once, sender, a, next_tick).0;
    let s0 = if m.contains_key(id) { m[id] } else { fresh_staging(sender) };
    if s0.owner == sender {
        assert(once.contains_key(id));
        if a.tick > 0 {
            let t0 = (a.tick - 1) as u64;
            let (s1, v1) = judge(s0, id, t0, previous_intent(a), true, next_tick);
            let (s2, v2) = judge(s1, id, a.tick, current_intent(a), false, next_tick);
            let (r1, w1) = judge(s2, id, t0, previous_intent(a), true, next_tick);
            let (r2, w2) = judge(r1, id, a.tick, current_intent(a), false, next_tick);
            assert(once[id] == s2);
            if is_accepted(v1) {
                assert(s2.staged.contains_key(t0) || t0 == a.tick);
            }
            assert(r2.staged =~= s2.staged);
            assert(r2 =~= s2);
            assert(twice =~= once);
        } else {
            let (s1, v1) = judge(s0, id, a.tick, current_intent(a), false, next_tick);
            let (r1, w1) = judge(s1, id, a.tick, current_intent(a), false, next_tick);
            assert(once[id] == s1);
            assert(r1.staged =~= s1.staged);
            assert(r1 =~= s1);
            assert(twice =~= once);
        }
    } else {
        assert(twice =~= once);
    }
}

/// Latest wins: of two intents an owner sends for one tick, both inside the window and the
/// tick not yet stepped, the world steps that tick with the second.
pub proof fn law_latest_wins(m: Map<u32, StagingView>, sender: u64, a: Actions, b: Actions, next_tick: u64)
    requires
        m.contains_key(a.creature_id),
        m[a.creature_id].owner == sender,
        m[a.creature_id].last_applied_tick != Some(a.tick),
        a.creature_id == b.creature_id,
        a.tick == b.tick,
        in_window(a.tick, next_tick),
    ensures
        stepped(fed(fed(m, sender, a, next_tick).0, sender, b, next_tick).0, a.creature_id, a.tick).1
            == Applied::Fresh(current_intent(b)),
{
    let id = a.creature_id;
    let m1 = fed(m, sender, a, next_tick).0;
    let m2 = fed(m1, sender, b, next_tick).0;
    assert(m1[id].owner == sender);
    assert(m1[id].last_applied_tick == m[id].last_applied_tick);
    assert(m2[id].staged.contains_key(a.tick));
    assert(m2[id].staged[a.tick] == current_intent(b));
    let kept = kept_from(m2[id].staged, a.tick);
    assert(kept.contains_key(a.tick));
}

/// A silent network repeats, then coasts: after a fresh step with nothing staged for the next
/// two ticks, the world steps the next tick with the same intent and the one after with none.
pub proof fn law_silence_repeats_then_coasts(m: Map<u32, StagingView>, creature_id: u32, tick: u64, intent: Intent)
    requires
        tick + 2 <= u64::MAX,
        stepped(m, creature_id, tick).1 == Applied::Fresh(intent),
        !stepped(m, creature_id, tick).0[creature_id].staged.contains_key((tick + 1) as u64),
        !stepped(m, creature_id, tick).0[creature_id].staged.contains_key((tick + 2) as u64),
    ensures
        stepped(stepped(m, creature_id, tick).0, creature_id, (tick + 1) as u64).1 == Applied::Repeated(intent),
        stepped(stepped(stepped(m, creature_id, tick).0, creature_id, (tick + 1) as u64).0, creature_id, (tick + 2) as u64).1
            == Applied::Coasted,
{
    let m1 = stepped(m, creature_id, tick).0;
    let m2 = stepped(m1, creature_id, (tick + 1) as u64).0;
    assert(m1.contains_key(creature_id));
    assert(!kept_from(m1[creature_id].staged, (tick + 1) as u64).contains_key((tick + 1) as u64));
    assert(m2.contains_key(creature_id));
    assert(m2[creature_id].staged == kept_from(m1[creature_id].staged, (tick + 1) as u64));
    assert(!kept_from(m2[creature_id].staged, (tick + 2) as u64).contains_key((tick + 2) as u64));
}

/// The neutral reflex: once its owner is dead, a creature coasts.
pub proof fn law_dead_owner_coasts(m: Map<u32, StagingView>, owner: u64, creature_id: u32, tick: u64)
    requires
        m.contains_key(creature_id),
        m[creature_id].owner == owner,
    ensures
        stepped(m.restrict(m.dom().filter(|c: u32| m[c].owner != owner)), creature_id, tick).1 == Applied::Coasted,
{
}

/// A stepped tick is never stepped again: once the world stepped a creature fresh at a tick,
/// an owner's later intent for that tick is the resend of an applied intent.
pub proof fn law_applied_once(m: Map<u32, StagingView>, creature_id: u32, tick: u64, intent: Intent, a: Actions, next_tick: u64)
    requires
        stepped(m, creature_id, tick).1 == Applied::Fresh(intent),
        a.creature_id == creature_id,
        a.tick == tick,
    ensures
        ({
            let m1 = stepped(m, creature_id, tick).0;
            fed(m1, m1[creature_id].owner, a, next_tick).1.last() == Verdict::AlreadyApplied { creature_id, intent_tick: tick }
        }),
{
}

} // verus!
