//! The roster of record: who is embodied, owned by whom, wearing what.
//!
//! A `REZ` from a host embodies a creature (or adopts one a dead host left behind); a `DEREZ`
//! (or a `BYE`) is a leave; a crash is not a leave - the creature stays embodied, ownerless,
//! until a host rezzes the same identity again or steers it. Residents are kept in
//! creature-id order, so every telling lists them the same way on every run. What a body is
//! made of - its pose, its hull, its model - is carried here, never computed: the physics
//! that moves it works in floating point and stands outside.

use vstd::prelude::*;
use crate::table::Table;
use crate::record::DeclaredBounds;
use crate::validator::{judge_rez, judgement, DeclaredChain};
use crate::wire::{TICK_STATE_MAX_CREATURES, REFUSED_OWNED, REFUSED_FULL, REFUSED_CROWDED, REFUSED_BOUNDS};

verus! {

/// The world's own guest: embodied by the world itself at the first tick, unowned, so the
/// first host to steer it takes it up.
pub const GUEST_CREATURE_ID: u32 = 100;

/// The set dressing told beside the roster: two orbiters and the blinker.
pub const SET_DRESSING_ROWS: u32 = 3;

/// The set dressing's identities, which no host may rez.
pub const SET_DRESSING_LAST_ID: u32 = 3;

/// The most residents the roster holds: what one snapshot carries, less the set dressing.
pub const ROSTER_CAPACITY: usize = 253;

/// What became of a `REZ`.
#[derive(Clone, Copy, PartialEq, Eq, Debug)]
pub enum Admission {
    /// A new creature stands on the spawn pad.
    Embodied,
    /// An orphan - or the sender's own creature, rezzed again - taken up where it stands,
    /// wearing the new model.
    Adopted,
    /// Another host owns this identity.
    RefusedOwned { owner: u64 },
    /// The snapshot could not carry one more row.
    RefusedFull,
    /// Every spot of the spawn lattice is taken.
    RefusedCrowded,
    /// A bound outside what the world allows, named.
    RefusedBounds(&'static str),
}

impl Admission {
    /// The reason the wire's refusal letter names, for a refusal; nothing for an admission.
    pub fn wire_reason(&self) -> (reason: Option<u8>)
        ensures
            reason == match *self {
                Admission::Embodied | Admission::Adopted => None,
                Admission::RefusedOwned { .. } => Some(REFUSED_OWNED),
                Admission::RefusedFull => Some(REFUSED_FULL),
                Admission::RefusedCrowded => Some(REFUSED_CROWDED),
                Admission::RefusedBounds(_) => Some(REFUSED_BOUNDS),
            },
    {
        match self {
            Admission::Embodied | Admission::Adopted => None,
            Admission::RefusedOwned { .. } => Some(REFUSED_OWNED),
            Admission::RefusedFull => Some(REFUSED_FULL),
            Admission::RefusedCrowded => Some(REFUSED_CROWDED),
            Admission::RefusedBounds(_) => Some(REFUSED_BOUNDS),
        }
    }
}

/// Why a `DEREZ` was not honoured.
#[derive(Clone, Copy, PartialEq, Eq, Debug)]
pub enum DerezRefusal {
    NotResident,
    NotOwner { owner: Option<u64> },
}

/// One embodied creature.
pub struct Resident<B, M> {
    /// The connection whose intents steer this body; `None` is an orphan on the neutral
    /// reflex, claimable by the next host that rezzes the identity or steers it.
    pub owner: Option<u64>,
    pub body: B,
    pub model: M,
}

/// The reason named for an identity of the set dressing.
pub open spec fn set_dressing_reason() -> &'static str {
    "creature ids 0 to 3 are the set dressing's"
}

/// The roster of record.
pub struct Roster<B, M> {
    residents: Table<Resident<B, M>>,
}

impl<B, M> View for Roster<B, M> {
    type V = Map<u32, Resident<B, M>>;

    closed spec fn view(&self) -> Map<u32, Resident<B, M>> {
        Map::new(
            |id: u32| self.residents@.contains_key(id as u64),
            |id: u32| self.residents@[id as u64],
        )
    }
}

/// The owners a roster's residents have, by identity.
pub open spec fn owners<B, M>(m: Map<u32, Resident<B, M>>) -> Map<u32, Option<u64>> {
    m.map_values(|r: Resident<B, M>| r.owner)
}

impl<B, M> Roster<B, M> {
    /// The roster's own invariant: its table is well formed, every key an identity, and it
    /// holds no more residents than a snapshot can carry.
    pub closed spec fn wf(&self) -> bool {
        &&& self.residents.wf()
        &&& forall|k: u64| #[trigger] self.residents@.contains_key(k) ==> k <= u32::MAX
        &&& self.residents@.len() <= ROSTER_CAPACITY
    }

    /// The residents' identities in roster order: ascending.
    pub closed spec fn ids(&self) -> Seq<u32> {
        self.residents.keys().map_values(|k: u64| k as u32)
    }

    proof fn lemma_ids(&self)
        requires
            self.wf(),
        ensures
            self.ids().len() == self.residents.keys().len(),
            self.ids().len() == self@.len(),
            forall|i: int| 0 <= i < self.ids().len() ==> #[trigger] self.ids()[i] as u64 == self.residents.keys()[i],
            forall|i: int, j: int| 0 <= i < j < self.ids().len() ==> #[trigger] self.ids()[i] < #[trigger] self.ids()[j],
            forall|id: u32| self@.contains_key(id) <==> #[trigger] self.ids().contains(id),
    {
        self.residents.lemma_wf();
        assert forall|i: int| 0 <= i < self.ids().len() implies #[trigger] self.ids()[i] as u64 == self.residents.keys()[i] by {
            assert(self.residents@.contains_key(self.residents.keys()[i]));
        }
        assert forall|id: u32| self@.contains_key(id) <==> #[trigger] self.ids().contains(id) by {
            if self@.contains_key(id) {
                assert(self.residents.keys().contains(id as u64));
                let i = choose|i: int| 0 <= i < self.residents.keys().len() && self.residents.keys()[i] == id as u64;
                assert(self.ids()[i] == id);
            }
            if self.ids().contains(id) {
                let i = choose|i: int| 0 <= i < self.ids().len() && self.ids()[i] == id;
                assert(self.residents.keys()[i] == id as u64);
                assert(self.residents.keys().contains(id as u64));
            }
        }
        assert(self@.dom() =~= self.residents@.dom().map(|k: u64| k as u32));
        assert(self@.len() == self.residents@.len()) by {
            assert(vstd::relations::injective_on(|k: u64| k as u32, self.residents@.dom())) by {
                assert forall|a: u64, b: u64| self.residents@.dom().contains(a) && self.residents@.dom().contains(b) && #[trigger] (a as u32) == #[trigger] (b as u32) implies a == b by {}
            }
            vstd::set_lib::lemma_map_size(self.residents@.dom(), self@.dom(), |k: u64| k as u32);
        }
    }

    /// A roster of one: the world's own guest, owned by nobody.
    pub fn with_the_guest(body: B, model: M) -> (roster: Roster<B, M>)
        ensures
            roster.wf(),
            roster@ == Map::<u32, Resident<B, M>>::empty().insert(
                GUEST_CREATURE_ID,
                Resident { owner: None, body, model },
            ),
    {
        let mut residents = Table::new();
        residents.insert(GUEST_CREATURE_ID as u64, Resident { owner: None, body, model });
        let roster = Roster { residents };
        proof {
            assert(roster.residents@.dom() =~= set![GUEST_CREATURE_ID as u64]);
            assert(roster.residents@.len() == 1);
            assert(roster@ =~= Map::<u32, Resident<B, M>>::empty().insert(GUEST_CREATURE_ID, Resident { owner: None, body, model }));
        }
        roster
    }

    /// How many creatures are embodied.
    pub fn len(&self) -> (n: usize)
        requires
            self.wf(),
        ensures
            n == self@.len(),
    {
        proof { self.lemma_ids(); }
        self.residents.len()
    }

    /// Whether nobody is embodied.
    pub fn is_empty(&self) -> (b: bool)
        requires
            self.wf(),
        ensures
            b == (self@.len() == 0),
    {
        self.len() == 0
    }

    /// The most residents the roster holds: the rows one snapshot carries, less the set
    /// dressing's.
    pub fn capacity() -> (n: usize)
        ensures
            n == ROSTER_CAPACITY,
            n == TICK_STATE_MAX_CREATURES - SET_DRESSING_ROWS,
    {
        ROSTER_CAPACITY
    }

    /// `Some(owner)` for a resident (the owner itself `None` for an orphan); `None` for an
    /// identity nobody wears.
    pub fn owner_of(&self, creature_id: u32) -> (owner: Option<Option<u64>>)
        requires
            self.wf(),
        ensures
            owner == (if self@.contains_key(creature_id) { Some(self@[creature_id].owner) } else { None::<Option<u64>> }),
    {
        match self.residents.get(creature_id as u64) {
            Some(resident) => Some(resident.owner),
            None => None,
        }
    }

    /// The resident wearing `creature_id`, if any.
    pub fn resident(&self, creature_id: u32) -> (resident: Option<&Resident<B, M>>)
        requires
            self.wf(),
        ensures
            resident is None <==> !self@.contains_key(creature_id),
            resident matches Some(r) ==> *r == self@[creature_id],
    {
        self.residents.get(creature_id as u64)
    }

    /// Every identity embodied, in roster order: ascending.
    pub fn ids_in_order(&self) -> (ids: Vec<u32>)
        requires
            self.wf(),
        ensures
            ids@ == self.ids(),
            forall|i: int, j: int| 0 <= i < j < ids@.len() ==> #[trigger] ids@[i] < #[trigger] ids@[j],
            forall|id: u32| self@.contains_key(id) <==> #[trigger] ids@.contains(id),
    {
        proof { self.lemma_ids(); }
        let mut ids: Vec<u32> = Vec::new();
        let n = self.residents.len();
        let mut i: usize = 0;
        while i < n
            invariant
                self.wf(),
                n == self.residents.keys().len(),
                i <= n,
                ids@ == self.ids().take(i as int),
            decreases n - i,
        {
            proof { self.lemma_ids(); }
            let k = self.residents.key_at(i);
            ids.push(k as u32);
            proof { assert(ids@ =~= self.ids().take(i + 1)); }
            i += 1;
        }
        proof { assert(ids@ =~= self.ids()); self.lemma_ids(); }
        ids
    }

    /// Every resident's model, in roster order: what a late joiner is told, verbatim, before
    /// its first tick.
    pub fn models(&self) -> (models: Vec<&M>)
        requires
            self.wf(),
        ensures
            models@.len() == self@.len(),
            models@.len() == self.ids().len(),
            forall|i: int| 0 <= i < models@.len() ==> *#[trigger] models@[i] == self@[self.ids()[i]].model,
    {
        proof { self.lemma_ids(); }
        let mut models: Vec<&M> = Vec::new();
        let n = self.residents.len();
        let mut i: usize = 0;
        while i < n
            invariant
                self.wf(),
                n == self.residents.keys().len(),
                n == self.ids().len(),
                i <= n,
                models@.len() == i,
                forall|j: int| 0 <= j < i ==> *#[trigger] models@[j] == self@[self.ids()[j]].model,
            decreases n - i,
        {
            proof { self.lemma_ids(); }
            let resident = self.residents.value_at(i);
            models.push(&resident.model);
            proof {
                assert(self.ids()[i as int] as u64 == self.residents.keys()[i as int]);
            }
            i += 1;
        }
        models
    }

    /// A host's `REZ`: its declared bounds, mesh and chain judged by the validator against the
    /// world's, then the roster's state. `body` is what the creature stands as if admitted -
    /// taken up where it stands for a resident (`None` keeps its body as it is), or stood on the
    /// first free spot of the spawn pad for a newcomer (`None` when every spot is taken).
    pub fn rez(
        &mut self,
        sender: u64,
        creature_id: u32,
        bounds: &DeclaredBounds,
        chain: &DeclaredChain,
        vertices: &Vec<[u32; 3]>,
        model: M,
        body: Option<B>,
    ) -> (admission: Admission)
        requires
            old(self).wf(),
        ensures
            final(self).wf(),
            (final(self)@, admission) == rezzed(old(self)@, sender, creature_id, judgement(*bounds, *chain, vertices@), model, body),
    {
        let judged = match judge_rez(bounds, chain, vertices) {
            Ok(_) => Ok(()),
            Err(reason) => Err(reason),
        };
        self.rez_judged(sender, creature_id, judged, model, body)
    }

    /// A `REZ` the validator has judged: `judged` is its verdict.
    fn rez_judged(
        &mut self,
        sender: u64,
        creature_id: u32,
        judged: Result<(), &'static str>,
        model: M,
        body: Option<B>,
    ) -> (admission: Admission)
        requires
            old(self).wf(),
        ensures
            final(self).wf(),
            (final(self)@, admission) == rezzed(old(self)@, sender, creature_id, judged, model, body),
    {
        if let Err(reason) = judged {
            return Admission::RefusedBounds(reason);
        }
        if creature_id <= SET_DRESSING_LAST_ID {
            return Admission::RefusedBounds("creature ids 0 to 3 are the set dressing's");
        }
        let ghost before = self@;
        proof { self.lemma_ids(); }
        match self.residents.position_of(creature_id as u64) {
            Some(i) => {
                let owner = self.residents.value_at(i).owner;
                if let Some(o) = owner {
                    if o != sender {
                        return Admission::RefusedOwned { owner: o };
                    }
                }
                let row = self.residents.remove_at(i);
                proof { self.residents.lemma_wf(); }
                let kept = match body {
                    Some(b) => b,
                    None => row.1.body,
                };
                self.residents.put_back(i, row.0, Resident { owner: Some(sender), body: kept, model });
                proof {
                    self.residents.lemma_wf();
                    old(self).residents.lemma_wf();
                    assert(self.residents@ =~= old(self).residents@.insert(row.0, self.residents@[row.0]));
                    assert(self.residents@.dom() =~= old(self).residents@.dom());
                    assert forall|k: u64| #[trigger] self.residents@.contains_key(k) implies k <= u32::MAX by {
                        assert(old(self).residents@.contains_key(k));
                    }
                    assert(self@ =~= rezzed(before, sender, creature_id, judged, model, body).0);
                }
                Admission::Adopted
            }
            None => {
                if self.residents.len() >= ROSTER_CAPACITY {
                    return Admission::RefusedFull;
                }
                match body {
                    None => Admission::RefusedCrowded,
                    Some(b) => {
                        self.residents.insert(creature_id as u64, Resident { owner: Some(sender), body: b, model });
                        proof {
                            self.residents.lemma_wf();
                            old(self).residents.lemma_wf();
                            assert(self.residents@.dom() =~= old(self).residents@.dom().insert(creature_id as u64));
                            assert forall|k: u64| #[trigger] self.residents@.contains_key(k) implies k <= u32::MAX by {
                                if k != creature_id as u64 { assert(old(self).residents@.contains_key(k)); }
                            }
                            assert(self@ =~= rezzed(before, sender, creature_id, judged, model, body).0);
                        }
                        Admission::Embodied
                    }
                }
            }
        }
    }

    /// A host steering an orphan takes it up - the first claimant's. Whether a claim happened:
    /// a resident already owned, by anyone, is left as it is.
    pub fn claim(&mut self, creature_id: u32, sender: u64) -> (claimed: bool)
        requires
            old(self).wf(),
        ensures
            final(self).wf(),
            claimed == (old(self)@.contains_key(creature_id) && old(self)@[creature_id].owner is None),
            claimed ==> final(self)@ == old(self)@.insert(creature_id, Resident { owner: Some(sender), ..old(self)@[creature_id] }),
            !claimed ==> final(self)@ == old(self)@,
    {
        match self.residents.position_of(creature_id as u64) {
            Some(i) => {
                if self.residents.value_at(i).owner.is_some() {
                    return false;
                }
                let ghost before = self@;
                let row = self.residents.remove_at(i);
                proof { self.residents.lemma_wf(); }
                self.residents.put_back(i, row.0, Resident { owner: Some(sender), body: row.1.body, model: row.1.model });
                proof {
                    self.residents.lemma_wf();
                    old(self).residents.lemma_wf();
                    assert(self.residents@.dom() =~= old(self).residents@.dom());
                    assert forall|k: u64| #[trigger] self.residents@.contains_key(k) implies k <= u32::MAX by {
                        assert(old(self).residents@.contains_key(k));
                    }
                    assert(self@ =~= before.insert(creature_id, Resident { owner: Some(sender), ..before[creature_id] }));
                }
                true
            }
            None => false,
        }
    }

    /// A host's `DEREZ` of its own creature: a leave, removed from the record.
    pub fn derez(&mut self, sender: u64, creature_id: u32) -> (result: Result<(), DerezRefusal>)
        requires
            old(self).wf(),
        ensures
            final(self).wf(),
            result == (if !old(self)@.contains_key(creature_id) {
                Err(DerezRefusal::NotResident)
            } else if old(self)@[creature_id].owner != Some(sender) {
                Err(DerezRefusal::NotOwner { owner: old(self)@[creature_id].owner })
            } else {
                Ok::<(), DerezRefusal>(())
            }),
            result is Ok ==> final(self)@ == old(self)@.remove(creature_id),
            result is Err ==> final(self)@ == old(self)@,
    {
        match self.residents.get(creature_id as u64) {
            None => Err(DerezRefusal::NotResident),
            Some(resident) => {
                if resident.owner != Some(sender) {
                    return Err(DerezRefusal::NotOwner { owner: resident.owner });
                }
                let ghost before = self@;
                let _ = self.residents.remove(creature_id as u64);
                proof {
                    self.residents.lemma_wf();
                    old(self).residents.lemma_wf();
                    assert(self.residents@.dom() =~= old(self).residents@.dom().remove(creature_id as u64));
                    assert forall|k: u64| #[trigger] self.residents@.contains_key(k) implies k <= u32::MAX by {
                        assert(old(self).residents@.contains_key(k));
                    }
                    assert(self@ =~= before.remove(creature_id));
                }
                Ok(())
            }
        }
    }

    /// Take a resident out of the record.
    fn remove_resident(&mut self, creature_id: u32)
        requires
            old(self).wf(),
        ensures
            final(self).wf(),
            final(self)@ == old(self)@.remove(creature_id),
    {
        let ghost before = self@;
        let ghost pre_table = self.residents@;
        proof { self.residents.lemma_wf(); }
        let _ = self.residents.remove(creature_id as u64);
        proof {
            self.residents.lemma_wf();
            assert(self.residents@.dom() =~= pre_table.dom().remove(creature_id as u64));
            assert forall|k: u64| #[trigger] self.residents@.contains_key(k) implies k <= u32::MAX by {
                assert(pre_table.contains_key(k));
            }
            assert(self@ =~= before.remove(creature_id));
        }
    }

    /// A host's `BYE`: every creature it owns leaves with it. The identities that left, in
    /// roster order, for the `DEREZ` each is owed.
    pub fn leave(&mut self, owner: u64) -> (leaving: Vec<u32>)
        requires
            old(self).wf(),
        ensures
            final(self).wf(),
            final(self)@ == old(self)@.restrict(old(self)@.dom().filter(|id: u32| old(self)@[id].owner != Some(owner))),
            forall|id: u32| #[trigger] leaving@.contains(id) <==> old(self)@.contains_key(id) && old(self)@[id].owner == Some(owner),
            forall|i: int, j: int| 0 <= i < j < leaving@.len() ==> #[trigger] leaving@[i] < #[trigger] leaving@[j],
    {
        let ghost before = self@;
        let ids = self.ids_in_order();
        let mut leaving: Vec<u32> = Vec::new();
        proof {
            assert forall|c: u32| before.contains_key(c) && 0 < ids@.len() implies ids@[0] <= c by {
                assert(ids@.contains(c));
                let p = choose|p: int| 0 <= p < ids@.len() && ids@[p] == c;
                if p > 0 { assert(ids@[0] < ids@[p]); }
            }
            assert forall|c: u32| !before.contains_key(c) || 0 < ids@.len() by {
                if before.contains_key(c) { assert(ids@.contains(c)); }
            }
        }
        let mut i: usize = 0;
        while i < ids.len()
            invariant
                self.wf(),
                i <= ids@.len(),
                forall|a: int, b: int| 0 <= a < b < ids@.len() ==> #[trigger] ids@[a] < #[trigger] ids@[b],
                forall|c: u32| before.contains_key(c) <==> #[trigger] ids@.contains(c),
                forall|c: u32| #[trigger] self@.contains_key(c) <==> before.contains_key(c) && !(before[c].owner == Some(owner) && leaving@.contains(c)),
                forall|c: u32| #[trigger] self@.contains_key(c) ==> self@[c] == before[c],
                forall|c: u32| #[trigger] leaving@.contains(c) <==> before.contains_key(c) && before[c].owner == Some(owner) && (i < ids@.len() ==> c < ids@[i as int]),
                forall|a: int, b: int| 0 <= a < b < leaving@.len() ==> #[trigger] leaving@[a] < #[trigger] leaving@[b],
                forall|a: int| 0 <= a < leaving@.len() && i < ids@.len() ==> #[trigger] leaving@[a] < ids@[i as int],
            decreases ids@.len() - i,
        {
            let id = ids[i];
            assert(ids@.contains(id));
            let goes = self.owner_of(id) == Some(Some(owner));
            let ghost pre = self@;
            let ghost pre_leaving = leaving@;
            if goes {
                self.remove_resident(id);
                leaving.push(id);
            }
            proof {
                assert forall|c: u32| #[trigger] leaving@.contains(c) <==> before.contains_key(c) && before[c].owner == Some(owner) && (i + 1 < ids@.len() ==> c < ids@[i + 1]) by {
                    if leaving@.contains(c) {
                        if goes && c == id {
                        } else {
                            let a = choose|a: int| 0 <= a < leaving@.len() && leaving@[a] == c;
                            if goes { assert(a < pre_leaving.len()); }
                            assert(pre_leaving[a] == c);
                            assert(pre_leaving.contains(c));
                            if i + 1 < ids@.len() { assert(ids@[i as int] < ids@[i + 1]); }
                        }
                    }
                    if before.contains_key(c) && before[c].owner == Some(owner) && (i + 1 < ids@.len() ==> c < ids@[i + 1]) {
                        if c == id {
                            assert(!pre_leaving.contains(c));
                            assert(goes);
                            assert(leaving@[leaving@.len() - 1] == c);
                        } else {
                            assert(ids@.contains(c));
                            let p = choose|p: int| 0 <= p < ids@.len() && ids@[p] == c;
                            if p > i as int {
                                if p > i + 1 { assert(ids@[i + 1] < ids@[p]); }
                            } else {
                                if p < i as int { assert(ids@[p] < ids@[i as int]); }
                            }
                            assert(c < ids@[i as int]);
                            assert(pre_leaving.contains(c));
                            let a = choose|a: int| 0 <= a < pre_leaving.len() && pre_leaving[a] == c;
                            assert(leaving@[a] == c);
                        }
                    }
                }
                assert forall|a: int| 0 <= a < leaving@.len() && i + 1 < ids@.len() implies #[trigger] leaving@[a] < ids@[i + 1] by {
                    assert(ids@[i as int] < ids@[i + 1]);
                    if a < pre_leaving.len() { assert(leaving@[a] == pre_leaving[a]); }
                }
                assert forall|c: u32| #[trigger] self@.contains_key(c) <==> before.contains_key(c) && !(before[c].owner == Some(owner) && leaving@.contains(c)) by {
                    if goes && c == id {
                        assert(leaving@[leaving@.len() - 1] == c);
                    } else if goes {
                        if leaving@.contains(c) {
                            let a = choose|a: int| 0 <= a < leaving@.len() && leaving@[a] == c;
                            assert(pre_leaving[a] == c);
                        }
                        if pre_leaving.contains(c) {
                            let a = choose|a: int| 0 <= a < pre_leaving.len() && pre_leaving[a] == c;
                            assert(leaving@[a] == c);
                        }
                    } else {
                        if c == id && before.contains_key(c) && before[c].owner == Some(owner) {
                            assert(pre.contains_key(c) || pre_leaving.contains(c));
                        }
                    }
                }
            }
            i += 1;
        }
        proof {
            assert(self@ =~= before.restrict(before.dom().filter(|id: u32| before[id].owner != Some(owner))));
        }
        leaving
    }

    /// A host that died: its creatures stay embodied, ownerless, on the neutral reflex. The
    /// identities orphaned, in roster order.
    pub fn orphan(&mut self, owner: u64) -> (orphaned: Vec<u32>)
        requires
            old(self).wf(),
        ensures
            final(self).wf(),
            final(self)@ == orphaned_all(old(self)@, owner),
            forall|id: u32| #[trigger] orphaned@.contains(id) <==> old(self)@.contains_key(id) && old(self)@[id].owner == Some(owner),
            forall|i: int, j: int| 0 <= i < j < orphaned@.len() ==> #[trigger] orphaned@[i] < #[trigger] orphaned@[j],
    {
        let ghost before = self@;
        let ids = self.ids_in_order();
        let mut orphaned: Vec<u32> = Vec::new();
        proof {
            assert forall|c: u32| before.contains_key(c) && 0 < ids@.len() implies ids@[0] <= c by {
                assert(ids@.contains(c));
                let p = choose|p: int| 0 <= p < ids@.len() && ids@[p] == c;
                if p > 0 { assert(ids@[0] < ids@[p]); }
            }
            assert forall|c: u32| !before.contains_key(c) || 0 < ids@.len() by {
                if before.contains_key(c) { assert(ids@.contains(c)); }
            }
        }
        let mut i: usize = 0;
        while i < ids.len()
            invariant
                self.wf(),
                i <= ids@.len(),
                forall|a: int, b: int| 0 <= a < b < ids@.len() ==> #[trigger] ids@[a] < #[trigger] ids@[b],
                forall|c: u32| before.contains_key(c) <==> #[trigger] ids@.contains(c),
                self@.dom() == before.dom(),
                forall|c: u32| #[trigger] self@.contains_key(c) ==> self@[c] == (if orphaned@.contains(c) { Resident { owner: None, ..before[c] } } else { before[c] }),
                forall|c: u32| #[trigger] orphaned@.contains(c) <==> before.contains_key(c) && before[c].owner == Some(owner) && (i < ids@.len() ==> c < ids@[i as int]),
                forall|a: int, b: int| 0 <= a < b < orphaned@.len() ==> #[trigger] orphaned@[a] < #[trigger] orphaned@[b],
                forall|a: int| 0 <= a < orphaned@.len() && i < ids@.len() ==> #[trigger] orphaned@[a] < ids@[i as int],
            decreases ids@.len() - i,
        {
            let id = ids[i];
            assert(ids@.contains(id));
            let ghost pre = self@;
            let ghost pre_orphaned = orphaned@;
            let goes = self.owner_of(id) == Some(Some(owner));
            if goes {
                self.disown(id);
                orphaned.push(id);
            }
            proof {
                assert forall|c: u32| #[trigger] orphaned@.contains(c) <==> before.contains_key(c) && before[c].owner == Some(owner) && (i + 1 < ids@.len() ==> c < ids@[i + 1]) by {
                    if orphaned@.contains(c) {
                        if goes && c == id {
                        } else {
                            let a = choose|a: int| 0 <= a < orphaned@.len() && orphaned@[a] == c;
                            if goes { assert(a < pre_orphaned.len()); }
                            assert(pre_orphaned[a] == c);
                            assert(pre_orphaned.contains(c));
                            if i + 1 < ids@.len() { assert(ids@[i as int] < ids@[i + 1]); }
                        }
                    }
                    if before.contains_key(c) && before[c].owner == Some(owner) && (i + 1 < ids@.len() ==> c < ids@[i + 1]) {
                        if c == id {
                            assert(!pre_orphaned.contains(c));
                            assert(goes);
                            assert(orphaned@[orphaned@.len() - 1] == c);
                        } else {
                            assert(ids@.contains(c));
                            let p = choose|p: int| 0 <= p < ids@.len() && ids@[p] == c;
                            if p > i as int {
                                if p > i + 1 { assert(ids@[i + 1] < ids@[p]); }
                            } else {
                                if p < i as int { assert(ids@[p] < ids@[i as int]); }
                            }
                            assert(c < ids@[i as int]);
                            assert(pre_orphaned.contains(c));
                            let a = choose|a: int| 0 <= a < pre_orphaned.len() && pre_orphaned[a] == c;
                            assert(orphaned@[a] == c);
                        }
                    }
                }
                assert forall|a: int| 0 <= a < orphaned@.len() && i + 1 < ids@.len() implies #[trigger] orphaned@[a] < ids@[i + 1] by {
                    assert(ids@[i as int] < ids@[i + 1]);
                    if a < pre_orphaned.len() { assert(orphaned@[a] == pre_orphaned[a]); }
                }
                assert forall|c: u32| #[trigger] self@.contains_key(c) implies self@[c] == (if orphaned@.contains(c) { Resident { owner: None, ..before[c] } } else { before[c] }) by {
                    if goes && c == id {
                        assert(orphaned@[orphaned@.len() - 1] == c);
                        assert(!pre_orphaned.contains(c));
                    } else {
                        if orphaned@.contains(c) {
                            let a = choose|a: int| 0 <= a < orphaned@.len() && orphaned@[a] == c;
                            if goes { assert(a < pre_orphaned.len()); }
                            assert(pre_orphaned[a] == c);
                        }
                        if pre_orphaned.contains(c) {
                            let a = choose|a: int| 0 <= a < pre_orphaned.len() && pre_orphaned[a] == c;
                            assert(orphaned@[a] == c);
                        }
                    }
                }
            }
            i += 1;
        }
        proof {
            assert(self@ =~= orphaned_all(before, owner));
        }
        orphaned
    }

    /// A resident made an orphan where it stands.
    fn disown(&mut self, creature_id: u32)
        requires
            old(self).wf(),
            old(self)@.contains_key(creature_id),
        ensures
            final(self).wf(),
            final(self)@ == old(self)@.insert(creature_id, Resident { owner: None, ..old(self)@[creature_id] }),
    {
        let ghost before = self@;
        let ghost pre_table = self.residents@;
        proof { self.residents.lemma_wf(); }
        match self.residents.remove(creature_id as u64) {
            Some(r) => {
                self.residents.insert(creature_id as u64, Resident { owner: None, body: r.body, model: r.model });
                proof {
                    self.residents.lemma_wf();
                    assert(self.residents@.dom() =~= pre_table.dom());
                    assert forall|k: u64| #[trigger] self.residents@.contains_key(k) implies k <= u32::MAX by {
                        assert(pre_table.contains_key(k));
                    }
                    assert(self@ =~= before.insert(creature_id, Resident { owner: None, ..before[creature_id] }));
                }
            }
            None => {}
        }
    }

    /// The body a resident stands as, replaced - what the physics made of it this tick.
    pub fn set_body(&mut self, creature_id: u32, body: B)
        requires
            old(self).wf(),
            old(self)@.contains_key(creature_id),
        ensures
            final(self).wf(),
            final(self)@ == old(self)@.insert(creature_id, Resident { body, ..old(self)@[creature_id] }),
            final(self).ids() == old(self).ids(),
    {
        let ghost before = self@;
        let i = match self.residents.position_of(creature_id as u64) {
            Some(i) => i,
            None => { return; }
        };
        let row = self.residents.remove_at(i);
        self.residents.put_back(i, row.0, Resident { owner: row.1.owner, body, model: row.1.model });
        proof {
            self.residents.lemma_wf();
            old(self).residents.lemma_wf();
            assert(self.residents.keys() =~= old(self).residents.keys());
            assert(self.residents@.dom() =~= old(self).residents@.dom());
            assert forall|k: u64| #[trigger] self.residents@.contains_key(k) implies k <= u32::MAX by {
                assert(old(self).residents@.contains_key(k));
            }
            assert(self@ =~= before.insert(creature_id, Resident { body, ..before[creature_id] }));
        }
    }
}

/// Every resident `owner` held, made an orphan where it stands; the rest as they were.
pub open spec fn orphaned_all<B, M>(m: Map<u32, Resident<B, M>>, owner: u64) -> Map<u32, Resident<B, M>> {
    Map::new(
        |id: u32| m.contains_key(id),
        |id: u32| if m[id].owner == Some(owner) { Resident { owner: None, ..m[id] } } else { m[id] },
    )
}

/// The roster after a `REZ`, and what became of it. Bounds first; then the set dressing's
/// identities; then a resident's owner - only its own owner, or anyone for an orphan, takes it
/// up; then the snapshot's room; then the spawn pad's.
pub open spec fn rezzed<B, M>(
    m: Map<u32, Resident<B, M>>,
    sender: u64,
    creature_id: u32,
    judged: Result<(), &'static str>,
    model: M,
    body: Option<B>,
) -> (Map<u32, Resident<B, M>>, Admission) {
    match judged {
        Err(reason) => (m, Admission::RefusedBounds(reason)),
        Ok(_) => {
            if creature_id <= SET_DRESSING_LAST_ID {
                (m, Admission::RefusedBounds(set_dressing_reason()))
            } else if m.contains_key(creature_id) {
                let r = m[creature_id];
                if r.owner is Some && r.owner != Some(sender) {
                    (m, Admission::RefusedOwned { owner: r.owner.unwrap() })
                } else {
                    (
                        m.insert(creature_id, Resident {
                            owner: Some(sender),
                            body: if body is Some { body.unwrap() } else { r.body },
                            model,
                        }),
                        Admission::Adopted,
                    )
                }
            } else if m.len() >= ROSTER_CAPACITY {
                (m, Admission::RefusedFull)
            } else if body is None {
                (m, Admission::RefusedCrowded)
            } else {
                (
                    m.insert(creature_id, Resident { owner: Some(sender), body: body.unwrap(), model }),
                    Admission::Embodied,
                )
            }
        },
    }
}


/// Sender owns creature: a `REZ` of an identity another host wears is refused, naming the
/// owner, and the roster is left as it was.
pub proof fn law_sender_owns_creature<B, M>(
    m: Map<u32, Resident<B, M>>,
    sender: u64,
    creature_id: u32,
    model: M,
    body: Option<B>,
)
    requires
        creature_id > SET_DRESSING_LAST_ID,
        m.contains_key(creature_id),
        m[creature_id].owner is Some,
        m[creature_id].owner != Some(sender),
    ensures
        rezzed(m, sender, creature_id, Ok(()), model, body)
            == (m, Admission::RefusedOwned { owner: m[creature_id].owner.unwrap() }),
{
}

/// A refused `REZ` changes nothing: whatever the refusal, the roster is the one it was.
pub proof fn law_refused_rez_changes_nothing<B, M>(
    m: Map<u32, Resident<B, M>>,
    sender: u64,
    creature_id: u32,
    judged: Result<(), &'static str>,
    model: M,
    body: Option<B>,
)
    requires
        !(rezzed(m, sender, creature_id, judged, model, body).1 is Embodied),
        !(rezzed(m, sender, creature_id, judged, model, body).1 is Adopted),
    ensures
        rezzed(m, sender, creature_id, judged, model, body).0 == m,
{
}

/// The roster never holds more than a snapshot can carry: a `REZ` into a roster within its
/// capacity leaves it within its capacity.
pub proof fn law_rez_keeps_the_capacity<B, M>(
    m: Map<u32, Resident<B, M>>,
    sender: u64,
    creature_id: u32,
    judged: Result<(), &'static str>,
    model: M,
    body: Option<B>,
)
    requires
        m.dom().finite(),
        m.len() <= ROSTER_CAPACITY,
    ensures
        rezzed(m, sender, creature_id, judged, model, body).0.len() <= ROSTER_CAPACITY,
{
    let out = rezzed(m, sender, creature_id, judged, model, body);
    if out.1 is Embodied {
        assert(out.0.dom() =~= m.dom().insert(creature_id));
    } else if out.1 is Adopted {
        assert(out.0.dom() =~= m.dom());
    }
}

/// A crash is not a leave: when a host is gone without a `BYE`, every creature it owned stays
/// embodied where it stands, owned by nobody; when it says `BYE`, exactly those creatures leave.
/// Either way every other resident is untouched.
pub proof fn law_crash_keeps_bodies_and_bye_takes_them<B, M>(m: Map<u32, Resident<B, M>>, owner: u64, creature_id: u32)
    requires
        m.contains_key(creature_id),
    ensures
        orphaned_all(m, owner).contains_key(creature_id),
        orphaned_all(m, owner)[creature_id].owner != Some(owner),
        orphaned_all(m, owner)[creature_id].body == m[creature_id].body,
        m[creature_id].owner != Some(owner) ==> orphaned_all(m, owner)[creature_id] == m[creature_id],
        m.restrict(m.dom().filter(|id: u32| m[id].owner != Some(owner))).contains_key(creature_id)
            <==> m[creature_id].owner != Some(owner),
{
}

/// An orphan is anyone's: after its host died, the next host to rez the identity takes the
/// creature up where it stands.
pub proof fn law_orphan_is_adopted<B, M>(
    m: Map<u32, Resident<B, M>>,
    owner: u64,
    sender: u64,
    creature_id: u32,
    model: M,
    body: Option<B>,
)
    requires
        creature_id > SET_DRESSING_LAST_ID,
        m.contains_key(creature_id),
        m[creature_id].owner == Some(owner),
    ensures
        rezzed(orphaned_all(m, owner), sender, creature_id, Ok(()), model, body).1 == Admission::Adopted,
        rezzed(orphaned_all(m, owner), sender, creature_id, Ok(()), model, body).0[creature_id].owner == Some(sender),
{
}

/// The `i`-th spot of ring `n` of the spawn pad's square spiral, as lattice offsets: ring 0 is
/// the pad itself; ring `n` walks its perimeter from the east edge's north end - the east edge
/// north to south, the south edge east to west, the west edge south to north, the north edge
/// west to east - each edge without the corner the next begins with.
pub open spec fn ring_spot(n: int, i: int) -> (i32, i32) {
    if n == 0 {
        (0i32, 0i32)
    } else if i < 2 * n {
        (n as i32, (-n + i) as i32)
    } else if i < 4 * n {
        ((n - (i - 2 * n)) as i32, n as i32)
    } else if i < 6 * n {
        ((-n) as i32, (n - (i - 4 * n)) as i32)
    } else {
        ((-n + (i - 6 * n)) as i32, (-n) as i32)
    }
}

/// How many spots ring `n` has: one for the pad, eight a ring after it.
pub open spec fn ring_len(n: int) -> int {
    if n == 0 { 1 } else { 8 * n }
}

/// One ring of the square spiral, as lattice offsets, in its fixed order.
pub fn ring_walk(ring: i32) -> (walk: Vec<(i32, i32)>)
    requires
        0 <= ring <= i32::MAX / 8,
    ensures
        walk@.len() == ring_len(ring as int),
        forall|i: int| 0 <= i < walk@.len() ==> #[trigger] walk@[i] == ring_spot(ring as int, i),
{
    let mut walk: Vec<(i32, i32)> = Vec::new();
    if ring == 0 {
        walk.push((0, 0));
        return walk;
    }
    let n = ring;
    let ghost g = n as int;
    let mut dz: i32 = -n;
    while dz < n
        invariant
            g == n as int, 0 < n <= i32::MAX / 8,
            -n <= dz <= n,
            walk@.len() == dz + n,
            forall|i: int| 0 <= i < walk@.len() ==> #[trigger] walk@[i] == ring_spot(g, i),
        decreases n - dz,
    {
        walk.push((n, dz));
        dz = dz + 1;
    }
    let mut dx: i32 = n;
    while dx > -n
        invariant
            g == n as int, 0 < n <= i32::MAX / 8,
            -n <= dx <= n,
            walk@.len() == 2 * n + (n - dx),
            forall|i: int| 0 <= i < walk@.len() ==> #[trigger] walk@[i] == ring_spot(g, i),
        decreases dx + n,
    {
        walk.push((dx, n));
        dx = dx - 1;
    }
    let mut dz: i32 = n;
    while dz > -n
        invariant
            g == n as int, 0 < n <= i32::MAX / 8,
            -n <= dz <= n,
            walk@.len() == 4 * n + (n - dz),
            forall|i: int| 0 <= i < walk@.len() ==> #[trigger] walk@[i] == ring_spot(g, i),
        decreases dz + n,
    {
        walk.push((-n, dz));
        dz = dz - 1;
    }
    let mut dx: i32 = -n;
    while dx < n
        invariant
            g == n as int, 0 < n <= i32::MAX / 8,
            -n <= dx <= n,
            walk@.len() == 6 * n + (dx + n),
            forall|i: int| 0 <= i < walk@.len() ==> #[trigger] walk@[i] == ring_spot(g, i),
        decreases n - dx,
    {
        walk.push((dx, -n));
        dx = dx + 1;
    }
    walk
}

/// How far a lattice offset is from the pad, counted in rings.
pub open spec fn ring_of(spot: (i32, i32)) -> int {
    let x = if spot.0 < 0 { -spot.0 } else { spot.0 as int };
    let z = if spot.1 < 0 { -spot.1 } else { spot.1 as int };
    if x >= z { x } else { z }
}

/// The spiral seats every body on a spot of its own: ring `n` walks exactly the spots `n`
/// rings out, each of them once.
pub proof fn law_ring_walks_its_perimeter_once(n: int)
    requires
        0 <= n <= i32::MAX / 8,
    ensures
        forall|i: int| 0 <= i < ring_len(n) ==> ring_of(#[trigger] ring_spot(n, i)) == n,
        forall|i: int, j: int| 0 <= i < j < ring_len(n) ==> #[trigger] ring_spot(n, i) != #[trigger] ring_spot(n, j),
{
}

/// A body is relayed and replayed verbatim: a `REZ` the roster admits - embodied or taken up -
/// keeps the host's own model whole, and the host owns what it rezzed; every other resident is
/// left exactly as it was.
pub proof fn law_an_admitted_model_is_kept_whole<B, M>(
    m: Map<u32, Resident<B, M>>,
    sender: u64,
    creature_id: u32,
    judged: Result<(), &'static str>,
    model: M,
    body: Option<B>,
)
    requires
        rezzed(m, sender, creature_id, judged, model, body).1 is Embodied
            || rezzed(m, sender, creature_id, judged, model, body).1 is Adopted,
    ensures
        ({
            let after = rezzed(m, sender, creature_id, judged, model, body).0;
            &&& after.contains_key(creature_id)
            &&& after[creature_id].model == model
            &&& after[creature_id].owner == Some(sender)
            &&& forall|id: u32| id != creature_id ==> (#[trigger] after.contains_key(id) <==> m.contains_key(id))
            &&& forall|id: u32| id != creature_id && m.contains_key(id) ==> #[trigger] after[id] == m[id]
        }),
{
}

} // verus!
