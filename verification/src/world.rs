//! The world's record, whole: the roster of record and the stager together, moved by what the
//! citizens say. The heartbeat reads each message off the wire and hands it here; the answer
//! is what the world decided and what the heartbeat owes the logs and the other citizens.
//!
//! The two records are kept in step: every intent stream belongs to an embodied creature and
//! is owned by that creature's owner, and every owned creature has its stream - sender owns
//! creature, on the record.

use vstd::prelude::*;
use crate::roster::{Roster, Resident, Admission, DerezRefusal, rezzed, orphaned_all};
use crate::stager::{ActionStager, StagingView, Verdict, Applied, fed, stepped, fresh_staging};
use crate::wire::{Actions, ROLE_CREATURE_HOST};
use crate::record::DeclaredBounds;
use crate::validator::{judgement, DeclaredChain};

verus! {

/// The roster and the streams agree: a stream for every owned creature and none other, each
/// owned by the creature's owner.
pub open spec fn in_step<B, M>(r: Map<u32, Resident<B, M>>, s: Map<u32, StagingView>) -> bool {
    &&& forall|c: u32| #[trigger] s.contains_key(c) ==> r.contains_key(c) && r[c].owner == Some(s[c].owner)
    &&& forall|c: u32| #[trigger] r.contains_key(c) && r[c].owner is Some ==> s.contains_key(c) && r[c].owner == Some(s[c].owner)
}

/// Every stream stepped once at `tick`.
pub open spec fn all_stepped(s: Map<u32, StagingView>, tick: u64) -> Map<u32, StagingView> {
    Map::new(|c: u32| s.contains_key(c), |c: u32| stepped(s, c, tick).0[c])
}

/// The world's record.
pub struct World<B, M> {
    roster: Roster<B, M>,
    stager: ActionStager,
}

impl<B, M> World<B, M> {
    /// The roster as it stands.
    pub closed spec fn residents(&self) -> Map<u32, Resident<B, M>> {
        self.roster@
    }

    /// The intent streams as they stand.
    pub closed spec fn streams(&self) -> Map<u32, StagingView> {
        self.stager@
    }

    /// The residents' identities in roster order.
    pub closed spec fn ids(&self) -> Seq<u32> {
        self.roster.ids()
    }

    /// The record's own invariant: both parts well formed, and in step.
    pub closed spec fn wf(&self) -> bool {
        &&& self.roster.wf()
        &&& self.stager.wf()
        &&& in_step(self.roster@, self.stager@)
    }

    /// The world as it opens: the guest, owned by nobody, and no stream.
    pub fn with_the_guest(body: B, model: M) -> (world: World<B, M>)
        ensures
            world.wf(),
            world.residents() == Map::<u32, Resident<B, M>>::empty().insert(
                crate::roster::GUEST_CREATURE_ID,
                Resident { owner: None, body, model },
            ),
            world.streams() == Map::<u32, StagingView>::empty(),
    {
        World { roster: Roster::with_the_guest(body, model), stager: ActionStager::default() }
    }

    /// The roster, to read.
    pub fn roster(&self) -> (roster: &Roster<B, M>)
        requires
            self.wf(),
        ensures
            roster.wf(),
            roster@ == self.residents(),
            roster.ids() == self.ids(),
    {
        &self.roster
    }

    /// One ACTIONS message from citizen `sender` of role `role`, with `next_tick` the tick the
    /// world steps next. Only a creature host steers. An identity nobody wears is refused; an
    /// orphan is taken up by the first host to steer it, and its stream handed over; then the
    /// stager judges. Answers the verdicts and whether a claim happened.
    pub fn on_actions(&mut self, sender: u64, role: u8, actions: &Actions, next_tick: u64) -> (heard: (Vec<Verdict>, bool))
        requires
            old(self).wf(),
        ensures
            final(self).wf(),
            role != ROLE_CREATURE_HOST ==> heard.0@.len() == 0 && !heard.1
                && final(self).residents() == old(self).residents() && final(self).streams() == old(self).streams(),
            role == ROLE_CREATURE_HOST && !old(self).residents().contains_key(actions.creature_id) ==>
                heard.0@ == seq![Verdict::RefusedNotEmbodied { creature_id: actions.creature_id, sender }] && !heard.1
                && final(self).residents() == old(self).residents() && final(self).streams() == old(self).streams(),
            role == ROLE_CREATURE_HOST && old(self).residents().contains_key(actions.creature_id)
                && old(self).residents()[actions.creature_id].owner is None ==>
                heard.1
                && final(self).residents() == old(self).residents().insert(actions.creature_id,
                    Resident { owner: Some(sender), ..old(self).residents()[actions.creature_id] })
                && (final(self).streams(), heard.0@) == fed(old(self).streams().insert(actions.creature_id, fresh_staging(sender)), sender, *actions, next_tick),
            role == ROLE_CREATURE_HOST && old(self).residents().contains_key(actions.creature_id)
                && old(self).residents()[actions.creature_id].owner is Some ==>
                !heard.1
                && final(self).residents() == old(self).residents()
                && (final(self).streams(), heard.0@) == fed(old(self).streams(), sender, *actions, next_tick),
    {
        if role != ROLE_CREATURE_HOST {
            return (Vec::new(), false);
        }
        let id = actions.creature_id;
        match self.roster.owner_of(id) {
            None => {
                let mut verdicts = Vec::new();
                verdicts.push(Verdict::RefusedNotEmbodied { creature_id: id, sender });
                (verdicts, false)
            }
            Some(owner) => {
                let mut claimed = false;
                if owner.is_none() {
                    claimed = self.roster.claim(id, sender);
                    self.stager.reassign(id, sender);
                }
                let ghost mid_streams = self.stager@;
                let verdicts = self.stager.feed(sender, actions, next_tick);
                proof {
                    let r = self.roster@;
                    let s = self.stager@;
                    assert(mid_streams.contains_key(id));
                    assert(mid_streams[id].owner == sender || r[id].owner != Some(sender));
                    assert forall|c: u32| #[trigger] s.contains_key(c) implies r.contains_key(c) && r[c].owner == Some(s[c].owner) by {
                        assert(mid_streams.contains_key(c));
                    }
                    assert forall|c: u32| #[trigger] r.contains_key(c) && r[c].owner is Some implies s.contains_key(c) && r[c].owner == Some(s[c].owner) by {
                        assert(mid_streams.contains_key(c));
                    }
                }
                (verdicts, claimed)
            }
        }
    }

    /// A `REZ` from citizen `sender` of role `role`: its declared bounds, mesh and chain judged
    /// by the validator, then the roster's word; an admitted body's stream is handed to the
    /// sender, and nothing of an earlier owner's is kept. `body` is where the creature stands if
    /// admitted, as the physics placed it. `None` when the role may not rez.
    pub fn on_rez(
        &mut self,
        sender: u64,
        role: u8,
        creature_id: u32,
        bounds: &DeclaredBounds,
        chain: &DeclaredChain,
        vertices: &Vec<[u32; 3]>,
        model: M,
        body: Option<B>,
    ) -> (admission: Option<Admission>)
        requires
            old(self).wf(),
        ensures
            final(self).wf(),
            role != ROLE_CREATURE_HOST ==> admission is None && final(self).residents() == old(self).residents()
                && final(self).streams() == old(self).streams(),
            role == ROLE_CREATURE_HOST ==> ({
                let (r, a) = rezzed(old(self).residents(), sender, creature_id, judgement(*bounds, *chain, vertices@), model, body);
                &&& admission == Some(a)
                &&& final(self).residents() == r
                &&& (a is Embodied || a is Adopted) ==> final(self).streams() == old(self).streams().insert(creature_id, fresh_staging(sender))
                &&& !(a is Embodied || a is Adopted) ==> final(self).streams() == old(self).streams()
            }),
    {
        if role != ROLE_CREATURE_HOST {
            return None;
        }
        let admission = self.roster.rez(sender, creature_id, bounds, chain, vertices, model, body);
        match admission {
            Admission::Embodied | Admission::Adopted => {
                self.stager.reassign(creature_id, sender);
            }
            _ => {}
        }
        proof {
            let r = self.roster@;
            let s = self.stager@;
            assert forall|c: u32| #[trigger] s.contains_key(c) implies r.contains_key(c) && r[c].owner == Some(s[c].owner) by {
                if c != creature_id { assert(old(self).stager@.contains_key(c)); }
            }
            assert forall|c: u32| #[trigger] r.contains_key(c) && r[c].owner is Some implies s.contains_key(c) && r[c].owner == Some(s[c].owner) by {
                if c != creature_id { assert(old(self).roster@.contains_key(c)); }
            }
        }
        Some(admission)
    }

    /// A `DEREZ` from citizen `sender` of role `role`: its own creature leaves, and its stream
    /// with it. `None` when the role may not derez.
    pub fn on_derez(&mut self, sender: u64, role: u8, creature_id: u32) -> (result: Option<Result<(), DerezRefusal>>)
        requires
            old(self).wf(),
        ensures
            final(self).wf(),
            role != ROLE_CREATURE_HOST ==> result is None && final(self).residents() == old(self).residents()
                && final(self).streams() == old(self).streams(),
            role == ROLE_CREATURE_HOST ==> result is Some,
            role == ROLE_CREATURE_HOST ==> result.unwrap() == (if !old(self).residents().contains_key(creature_id) {
                Err(DerezRefusal::NotResident)
            } else if old(self).residents()[creature_id].owner != Some(sender) {
                Err(DerezRefusal::NotOwner { owner: old(self).residents()[creature_id].owner })
            } else {
                Ok::<(), DerezRefusal>(())
            }),
            role == ROLE_CREATURE_HOST && result.unwrap() is Ok ==>
                final(self).residents() == old(self).residents().remove(creature_id)
                && final(self).streams() == old(self).streams().remove(creature_id),
            role == ROLE_CREATURE_HOST && result.unwrap() is Err ==>
                final(self).residents() == old(self).residents() && final(self).streams() == old(self).streams(),
    {
        if role != ROLE_CREATURE_HOST {
            return None;
        }
        let result = self.roster.derez(sender, creature_id);
        if result.is_ok() {
            self.stager.release(creature_id);
        }
        proof {
            let r = self.roster@;
            let s = self.stager@;
            assert forall|c: u32| #[trigger] s.contains_key(c) implies r.contains_key(c) && r[c].owner == Some(s[c].owner) by {
                assert(old(self).stager@.contains_key(c));
            }
            assert forall|c: u32| #[trigger] r.contains_key(c) && r[c].owner is Some implies s.contains_key(c) && r[c].owner == Some(s[c].owner) by {
                assert(old(self).roster@.contains_key(c));
            }
        }
        Some(result)
    }

    /// A citizen's `BYE`, or its farewell found in a failed socket: a leave. Every creature it
    /// owns leaves the world with its stream, and every stream it held is forgotten. The
    /// identities that left, in roster order, for the `DEREZ` each is owed.
    pub fn on_bye(&mut self, sender: u64) -> (leaving: Vec<u32>)
        requires
            old(self).wf(),
        ensures
            final(self).wf(),
            final(self).residents() == old(self).residents().restrict(
                old(self).residents().dom().filter(|id: u32| old(self).residents()[id].owner != Some(sender))),
            final(self).streams() == old(self).streams().restrict(
                old(self).streams().dom().filter(|c: u32| old(self).streams()[c].owner != sender)),
            forall|id: u32| #[trigger] leaving@.contains(id) <==> old(self).residents().contains_key(id) && old(self).residents()[id].owner == Some(sender),
            forall|i: int, j: int| 0 <= i < j < leaving@.len() ==> #[trigger] leaving@[i] < #[trigger] leaving@[j],
    {
        let ghost s0 = self.stager@;
        let leaving = self.roster.leave(sender);
        let ghost r1 = self.roster@;
        let mut i: usize = 0;
        while i < leaving.len()
            invariant
                self.stager.wf(),
                self.roster.wf(),
                self.roster@ == r1,
                r1 == old(self).roster@.restrict(old(self).roster@.dom().filter(|id: u32| old(self).roster@[id].owner != Some(sender))),
                i <= leaving@.len(),
                forall|c: u32| #[trigger] self.stager@.contains_key(c) ==> s0.contains_key(c) && self.stager@[c] == s0[c],
                forall|c: u32| #[trigger] s0.contains_key(c) && s0[c].owner != sender ==> self.stager@.contains_key(c),
                forall|id: u32| #[trigger] leaving@.contains(id) ==> old(self).roster@.contains_key(id) && old(self).roster@[id].owner == Some(sender),
                in_step(old(self).roster@, s0),
            decreases leaving@.len() - i,
        {
            let id = leaving[i];
            assert(leaving@.contains(id));
            self.stager.release(id);
            i += 1;
        }
        self.stager.owner_died(sender);
        proof {
            let r = self.roster@;
            let s = self.stager@;
            assert(s =~= s0.restrict(s0.dom().filter(|c: u32| s0[c].owner != sender)));
            assert forall|c: u32| #[trigger] s.contains_key(c) implies r.contains_key(c) && r[c].owner == Some(s[c].owner) by {
                assert(s0.contains_key(c));
            }
            assert forall|c: u32| #[trigger] r.contains_key(c) && r[c].owner is Some implies s.contains_key(c) && r[c].owner == Some(s[c].owner) by {
                assert(old(self).roster@.contains_key(c));
                assert(s0.contains_key(c));
            }
        }
        leaving
    }

    /// A citizen gone without a farewell - a crash, a reap, a socket that failed: not a leave.
    /// Its creatures stay embodied where they stand, owned by nobody, on the neutral reflex;
    /// every stream it held is forgotten. The identities orphaned, in roster order.
    pub fn on_gone(&mut self, sender: u64) -> (orphaned: Vec<u32>)
        requires
            old(self).wf(),
        ensures
            final(self).wf(),
            final(self).residents() == orphaned_all(old(self).residents(), sender),
            final(self).streams() == old(self).streams().restrict(
                old(self).streams().dom().filter(|c: u32| old(self).streams()[c].owner != sender)),
            forall|id: u32| #[trigger] orphaned@.contains(id) <==> old(self).residents().contains_key(id) && old(self).residents()[id].owner == Some(sender),
            forall|i: int, j: int| 0 <= i < j < orphaned@.len() ==> #[trigger] orphaned@[i] < #[trigger] orphaned@[j],
    {
        let orphaned = self.roster.orphan(sender);
        self.stager.owner_died(sender);
        proof {
            let r = self.roster@;
            let s = self.stager@;
            assert forall|c: u32| #[trigger] s.contains_key(c) implies r.contains_key(c) && r[c].owner == Some(s[c].owner) by {
                assert(old(self).stager@.contains_key(c));
            }
            assert forall|c: u32| #[trigger] r.contains_key(c) && r[c].owner is Some implies s.contains_key(c) && r[c].owner == Some(s[c].owner) by {
                assert(old(self).roster@.contains_key(c));
            }
        }
        orphaned
    }

    /// The body a resident stands as after the physics stepped it.
    pub fn set_body(&mut self, creature_id: u32, body: B)
        requires
            old(self).wf(),
            old(self).residents().contains_key(creature_id),
        ensures
            final(self).wf(),
            final(self).residents() == old(self).residents().insert(creature_id, Resident { body, ..old(self).residents()[creature_id] }),
            final(self).streams() == old(self).streams(),
            final(self).ids() == old(self).ids(),
    {
        self.roster.set_body(creature_id, body);
        proof {
            let r = self.roster@;
            let s = self.stager@;
            assert forall|c: u32| #[trigger] s.contains_key(c) implies r.contains_key(c) && r[c].owner == Some(s[c].owner) by {}
            assert forall|c: u32| #[trigger] r.contains_key(c) && r[c].owner is Some implies s.contains_key(c) && r[c].owner == Some(s[c].owner) by {
                assert(old(self).roster@.contains_key(c));
            }
        }
    }

    /// The intents the world steps every resident with at `tick`, in roster order, under the
    /// silence rules: each resident's stream stepped once.
    pub fn applied_intents(&mut self, tick: u64) -> (applied: Vec<(u32, Applied)>)
        requires
            old(self).wf(),
        ensures
            final(self).wf(),
            final(self).residents() == old(self).residents(),
            final(self).streams() == all_stepped(old(self).streams(), tick),
            applied@.len() == old(self).ids().len(),
            forall|i: int| 0 <= i < applied@.len() ==> #[trigger] applied@[i] == (old(self).ids()[i], stepped(old(self).streams(), old(self).ids()[i], tick).1),
    {
        let ghost s0 = self.stager@;
        let ids = self.roster.ids_in_order();
        let mut applied: Vec<(u32, Applied)> = Vec::new();
        let mut i: usize = 0;
        while i < ids.len()
            invariant
                self.stager.wf(),
                self.roster.wf(),
                self.roster@ == old(self).roster@,
                ids@ == old(self).roster.ids(),
                i <= ids@.len(),
                forall|a: int, b: int| 0 <= a < b < ids@.len() ==> #[trigger] ids@[a] < #[trigger] ids@[b],
                forall|c: u32| old(self).roster@.contains_key(c) <==> #[trigger] ids@.contains(c),
                in_step(old(self).roster@, s0),
                self.stager@.dom() == s0.dom(),
                forall|c: u32| #[trigger] self.stager@.contains_key(c) ==>
                    self.stager@[c] == (if ids@.take(i as int).contains(c) { stepped(s0, c, tick).0[c] } else { s0[c] }),
                applied@.len() == i,
                forall|j: int| 0 <= j < i ==> #[trigger] applied@[j] == (ids@[j], stepped(s0, ids@[j], tick).1),
            decreases ids@.len() - i,
        {
            let id = ids[i];
            let ghost pre = self.stager@;
            proof {
                assert(!ids@.take(i as int).contains(id)) by {
                    if ids@.take(i as int).contains(id) {
                        let t0 = ids@.take(i as int);
                        let j = choose|j: int| 0 <= j < t0.len() && t0[j] == id;
                        assert(ids@[j] < ids@[i as int]);
                    }
                }
            }
            let a = self.stager.intent_for(id, tick);
            applied.push((id, a));
            proof {
                assert forall|c: u32| #[trigger] self.stager@.contains_key(c) implies
                    self.stager@[c] == (if ids@.take(i + 1).contains(c) { stepped(s0, c, tick).0[c] } else { s0[c] }) by {
                    if c == id {
                        assert(ids@.take(i + 1)[i as int] == c);
                    } else {
                        assert(pre.contains_key(c));
                        let t1 = ids@.take(i + 1);
                        let t0 = ids@.take(i as int);
                        if t1.contains(c) {
                            let j = choose|j: int| 0 <= j < t1.len() && t1[j] == c;
                            assert(t0[j] == c);
                        }
                        if t0.contains(c) {
                            let j = choose|j: int| 0 <= j < t0.len() && t0[j] == c;
                            assert(t1[j] == c);
                        }
                    }
                }
                assert(self.stager@.dom() =~= s0.dom());
            }
            i += 1;
        }
        proof {
            assert(ids@.take(ids@.len() as int) =~= ids@);
            assert(self.stager@ =~= all_stepped(s0, tick)) by {
                assert forall|c: u32| #[trigger] self.stager@.contains_key(c) implies self.stager@[c] == all_stepped(s0, tick)[c] by {
                    assert(s0.contains_key(c));
                    assert(old(self).roster@.contains_key(c));
                    assert(ids@.contains(c));
                }
            }
            let r = self.roster@;
            let s = self.stager@;
            assert forall|c: u32| #[trigger] s.contains_key(c) implies r.contains_key(c) && r[c].owner == Some(s[c].owner) by {
                assert(s0.contains_key(c));
            }
            assert forall|c: u32| #[trigger] r.contains_key(c) && r[c].owner is Some implies s.contains_key(c) && r[c].owner == Some(s[c].owner) by {
                assert(s0.contains_key(c));
            }
        }
        applied
    }
}

/// Sender owns creature: while the roster and the streams are in step, an ACTIONS message for
/// an embodied creature from a host that does not own it is refused, and changes nothing.
pub proof fn law_only_the_owner_steers<B, M>(r: Map<u32, Resident<B, M>>, s: Map<u32, StagingView>, sender: u64, a: Actions, next_tick: u64)
    requires
        in_step(r, s),
        r.contains_key(a.creature_id),
        r[a.creature_id].owner is Some,
        r[a.creature_id].owner != Some(sender),
    ensures
        fed(s, sender, a, next_tick) == (s, seq![Verdict::RefusedNotOwner { creature_id: a.creature_id, sender }]),
{
    assert(s.contains_key(a.creature_id));
}


} // verus!
