//! The reorder buffer: a rendezvous per action, so that the arrival of an
//! action and the wait for it may come in either order.
//!
//! Blocking and timers belong to the caller: a waiter registers with
//! `begin_wait`, then takes the action with `take_arrived` once it is there,
//! or gives up with `cancel_wait` when its time runs out.
use vstd::prelude::*;
use crate::action::{Action, ActionV, opt_view};
use crate::error::DtmError;

verus! {

/// The model of one rendezvous entry: the action delivered and not yet taken,
/// and how many parties hold the entry.
pub struct Slot {
    pub arrived: Option<ActionV>,
    pub refcount: nat,
}

/// One rendezvous entry.
pub struct RendezvousEntry {
    pub action: Action,
    pub arrived: Option<Action>,
    pub refcount: u64,
}

impl RendezvousEntry {
    pub open spec fn slot(&self) -> Slot {
        Slot {
            arrived: opt_view(self.arrived),
            refcount: self.refcount as nat,
        }
    }
}

/// What holds of every entry at all times: an entry that nobody holds and
/// that carries no action is gone, and a delivered action is the entry's own.
pub open spec fn slots_ok(m: Map<ActionV, Slot>) -> bool {
    &&& forall|k: ActionV| #[trigger] m.contains_key(k) ==> m[k].refcount > 0 || m[k].arrived is Some
    &&& forall|k: ActionV| #[trigger] m.contains_key(k) && m[k].arrived is Some ==> m[k].arrived == Some(k)
}

/// `m` after the entry of `a` became `s`; the entry goes when nothing is left in it.
pub open spec fn settle(m: Map<ActionV, Slot>, a: ActionV, s: Slot) -> Map<ActionV, Slot> {
    if s.refcount == 0 && s.arrived is None {
        m.remove(a)
    } else {
        m.insert(a, s)
    }
}

/// One reference fewer, never below zero.
pub open spec fn one_less(n: nat) -> nat {
    if n > 0 { (n - 1) as nat } else { 0 }
}

/// Rendezvous entries keyed by action.
pub struct ActionReorder {
    seconds_timeout: u64,
    entries: Vec<RendezvousEntry>,
    model: Ghost<Map<ActionV, Slot>>,
}

impl ActionReorder {
    /// The entries, by action.
    pub closed spec fn view(&self) -> Map<ActionV, Slot> {
        self.model@
    }

    pub closed spec fn wf(&self) -> bool {
        &&& forall|i: int, j: int|
            0 <= i < j < self.entries.len() ==> self.entries@[i].action@ != self.entries@[j].action@
        &&& forall|i: int|
            0 <= i < self.entries.len() ==> self.model@.contains_key(#[trigger] self.entries@[i].action@)
                && self.model@[self.entries@[i].action@] == self.entries@[i].slot()
        &&& forall|k: ActionV| #[trigger]
            self.model@.contains_key(k) ==> exists|i: int|
                0 <= i < self.entries.len() && self.entries@[i].action@ == k
        &&& forall|i: int|
            0 <= i < self.entries.len() ==> match (#[trigger] self.entries@[i]).arrived {
                Some(x) => x@ == self.entries@[i].action@,
                None => true,
            }
        &&& slots_ok(self.model@)
    }

    /// How long, in seconds, a waiter waits for its action.
    pub closed spec fn timeout(&self) -> u64 {
        self.seconds_timeout
    }

    pub fn seconds_timeout(&self) -> (r: u64)
        ensures
            r == self.timeout(),
    {
        self.seconds_timeout
    }

    /// The invariant of the buffer, as its users can see it.
    pub proof fn lemma_slots_ok(&self)
        requires
            self.wf(),
        ensures
            slots_ok(self@),
    {
    }

    pub fn new(seconds_timeout: u64) -> (r: ActionReorder)
        ensures
            r.wf(),
            r@ == Map::<ActionV, Slot>::empty(),
            r.timeout() == seconds_timeout,
    {
        ActionReorder { seconds_timeout, entries: Vec::new(), model: Ghost(Map::empty()) }
    }

    /// Takes a reference on the entry of `a`, creating it when absent.
    fn register(&mut self, a: &Action) -> (r: Result<(), DtmError>)
        requires
            old(self).wf(),
        ensures
            final(self).wf(),
            final(self).timeout() == old(self).timeout(),
            match r {
                Ok(()) => final(self)@ == old(self)@.insert(
                    a@,
                    if old(self)@.contains_key(a@) {
                        Slot { arrived: old(self)@[a@].arrived, refcount: old(self)@[a@].refcount + 1 }
                    } else {
                        Slot { arrived: None, refcount: 1 }
                    },
                ),
                Err(e) => e == DtmError::InvariantViolation && final(self)@ == old(self)@
                    && old(self)@.contains_key(a@) && old(self)@[a@].refcount == u64::MAX,
            },
    {
        match self.find(a) {
            Some(i) => {
                if self.entries[i].refcount == u64::MAX {
                    return Err(DtmError::InvariantViolation);
                }
                let n = self.entries[i].refcount + 1;
                let ghost old_entries = self.entries@;
                let ghost new_slot = Slot { arrived: old(self)@[a@].arrived, refcount: n as nat };
                self.entries[i].refcount = n;
                self.model = Ghost(self.model@.insert(a@, new_slot));
                proof {
                    assert forall|k: ActionV| #[trigger] self.model@.contains_key(k) implies exists|j: int|
                        0 <= j < self.entries.len() && self.entries@[j].action@ == k by {
                        if k != a@ {
                            let j = choose|j: int| 0 <= j < old_entries.len() && old_entries[j].action@ == k;
                            assert(self.entries@[j].action@ == k);
                        } else {
                            assert(self.entries@[i as int].action@ == k);
                        }
                    }
                    assert forall|j: int| 0 <= j < self.entries.len() implies self.model@.contains_key(
                        #[trigger] self.entries@[j].action@,
                    ) && self.model@[self.entries@[j].action@] == self.entries@[j].slot() by {
                        if j != i {
                            assert(old_entries[j] == self.entries@[j]);
                        }
                    }
                    assert forall|j: int| 0 <= j < self.entries.len() implies match (
                    #[trigger] self.entries@[j]).arrived {
                        Some(x) => x@ == self.entries@[j].action@,
                        None => true,
                    } by {
                        assert(old_entries[j].arrived == self.entries@[j].arrived);
                        assert(old_entries[j].action == self.entries@[j].action);
                    }
                }
                Ok(())
            },
            None => {
                let ghost old_entries = self.entries@;
                let e = RendezvousEntry { action: a.copy(), arrived: None, refcount: 1 };
                self.entries.push(e);
                self.model = Ghost(self.model@.insert(a@, Slot { arrived: None, refcount: 1 }));
                proof {
                    let n = old_entries.len() as int;
                    assert(self.entries@[n].action@ == a@);
                    assert forall|k: ActionV| #[trigger] self.model@.contains_key(k) implies exists|j: int|
                        0 <= j < self.entries.len() && self.entries@[j].action@ == k by {
                        if k != a@ {
                            let j = choose|j: int| 0 <= j < old_entries.len() && old_entries[j].action@ == k;
                            assert(self.entries@[j].action@ == k);
                        }
                    }
                    assert forall|j: int| 0 <= j < self.entries.len() implies self.model@.contains_key(
                        #[trigger] self.entries@[j].action@,
                    ) && self.model@[self.entries@[j].action@] == self.entries@[j].slot() by {
                        if j < n {
                            assert(old_entries[j] == self.entries@[j]);
                        }
                    }
                    assert forall|j: int| 0 <= j < self.entries.len() implies match (
                    #[trigger] self.entries@[j]).arrived {
                        Some(x) => x@ == self.entries@[j].action@,
                        None => true,
                    } by {
                        if j < n {
                            assert(old_entries[j] == self.entries@[j]);
                        }
                    }
                }
                Ok(())
            },
        }
    }

    /// Registers a waiter for `a`.
    pub fn begin_wait(&mut self, a: &Action) -> (r: Result<(), DtmError>)
        requires
            old(self).wf(),
        ensures
            final(self).wf(),
            slots_ok(final(self)@),
            final(self).timeout() == old(self).timeout(),
            match r {
                Ok(()) => final(self)@ == old(self)@.insert(
                    a@,
                    if old(self)@.contains_key(a@) {
                        Slot { arrived: old(self)@[a@].arrived, refcount: old(self)@[a@].refcount + 1 }
                    } else {
                        Slot { arrived: None, refcount: 1 }
                    },
                ),
                Err(e) => e == DtmError::InvariantViolation && final(self)@ == old(self)@
                    && old(self)@.contains_key(a@) && old(self)@[a@].refcount == u64::MAX,
            },
    {
        self.register(a)
    }

    /// Gives the entry at `i` its new contents, or removes it when nothing is left in it.
    fn settle_at(&mut self, i: usize, arrived: Option<Action>, refcount: u64)
        requires
            old(self).wf(),
            i < old(self).entries.len(),
            match arrived {
                Some(x) => x@ == old(self).entries@[i as int].action@,
                None => true,
            },
        ensures
            final(self).wf(),
            final(self).timeout() == old(self).timeout(),
            final(self)@ == settle(
                old(self)@,
                old(self).entries@[i as int].action@,
                Slot { arrived: opt_view(arrived), refcount: refcount as nat },
            ),
    {
        let ghost old_entries = self.entries@;
        let ghost key = old_entries[i as int].action@;
        let ghost new_slot = Slot { arrived: opt_view(arrived), refcount: refcount as nat };
        if refcount == 0 && arrived.is_none() {
            self.entries.remove(i);
            self.model = Ghost(self.model@.remove(key));
            proof {
                assert forall|p: int, q: int| 0 <= p < q < self.entries.len() implies self.entries@[p].action@
                    != self.entries@[q].action@ by {
                    let p1 = if p < i { p } else { p + 1 };
                    let q1 = if q < i { q } else { q + 1 };
                    assert(self.entries@[p] == old_entries[p1]);
                    assert(self.entries@[q] == old_entries[q1]);
                }
                assert forall|j: int| 0 <= j < self.entries.len() implies self.model@.contains_key(
                    #[trigger] self.entries@[j].action@,
                ) && self.model@[self.entries@[j].action@] == self.entries@[j].slot() by {
                    let j1 = if j < i { j } else { j + 1 };
                    assert(self.entries@[j] == old_entries[j1]);
                    assert(old_entries[j1].action@ != key);
                }
                assert forall|k: ActionV| #[trigger] self.model@.contains_key(k) implies exists|j: int|
                    0 <= j < self.entries.len() && self.entries@[j].action@ == k by {
                    let j1 = choose|j: int| 0 <= j < old_entries.len() && old_entries[j].action@ == k;
                    assert(j1 != i);
                    let j = if j1 < i { j1 } else { j1 - 1 };
                    assert(self.entries@[j] == old_entries[j1]);
                }
                assert forall|j: int| 0 <= j < self.entries.len() implies match (
                #[trigger] self.entries@[j]).arrived {
                    Some(x) => x@ == self.entries@[j].action@,
                    None => true,
                } by {
                    let j1 = if j < i { j } else { j + 1 };
                    assert(self.entries@[j] == old_entries[j1]);
                }
            }
        } else {
            self.entries[i].arrived = arrived;
            self.entries[i].refcount = refcount;
            self.model = Ghost(self.model@.insert(key, new_slot));
            proof {
                assert forall|p: int, q: int| 0 <= p < q < self.entries.len() implies self.entries@[p].action@
                    != self.entries@[q].action@ by {
                    assert(self.entries@[p].action == old_entries[p].action);
                    assert(self.entries@[q].action == old_entries[q].action);
                }
                assert forall|k: ActionV| #[trigger] self.model@.contains_key(k) implies exists|j: int|
                    0 <= j < self.entries.len() && self.entries@[j].action@ == k by {
                    if k != key {
                        let j = choose|j: int| 0 <= j < old_entries.len() && old_entries[j].action@ == k;
                        assert(self.entries@[j].action == old_entries[j].action);
                    } else {
                        assert(self.entries@[i as int].action@ == k);
                    }
                }
                assert forall|j: int| 0 <= j < self.entries.len() implies self.model@.contains_key(
                    #[trigger] self.entries@[j].action@,
                ) && self.model@[self.entries@[j].action@] == self.entries@[j].slot() by {
                    if j != i {
                        assert(old_entries[j] == self.entries@[j]);
                    }
                }
                assert forall|j: int| 0 <= j < self.entries.len() implies match (
                #[trigger] self.entries@[j]).arrived {
                    Some(x) => x@ == self.entries@[j].action@,
                    None => true,
                } by {
                    if j != i {
                        assert(old_entries[j] == self.entries@[j]);
                    }
                }
            }
        }
    }

    /// Delivers `a` to its entry, creating the entry when absent. The slot
    /// holds one action: delivering into a full slot is refused.
    pub fn add_action(&mut self, a: &Action) -> (r: Result<(), DtmError>)
        requires
            old(self).wf(),
        ensures
            final(self).wf(),
            slots_ok(final(self)@),
            final(self).timeout() == old(self).timeout(),
            r is Ok <==> !(old(self)@.contains_key(a@) && old(self)@[a@].arrived is Some),
            match r {
                Ok(()) => final(self)@ == old(self)@.insert(
                    a@,
                    Slot {
                        arrived: Some(a@),
                        refcount: if old(self)@.contains_key(a@) { old(self)@[a@].refcount } else { 0 },
                    },
                ),
                Err(e) => e == DtmError::InvariantViolation && final(self)@ == old(self)@,
            },
    {
        match self.find(a) {
            Some(i) => {
                if self.entries[i].arrived.is_some() {
                    return Err(DtmError::InvariantViolation);
                }
                let n = self.entries[i].refcount;
                self.settle_at(i, Some(a.copy()), n);
                Ok(())
            },
            None => {
                let ghost before = self@;
                let _ = self.register(a);
                match self.find(a) {
                    Some(i) => {
                        self.settle_at(i, Some(a.copy()), 0);
                        proof {
                            assert(self@ =~= before.insert(a@, Slot { arrived: Some(a@), refcount: 0 }));
                        }
                        Ok(())
                    },
                    None => Err(DtmError::InvariantViolation),
                }
            },
        }
    }

    /// Takes the action delivered to the entry of `a`, if it has come, and
    /// drops the waiter's reference.
    pub fn take_arrived(&mut self, a: &Action) -> (r: Option<Action>)
        requires
            old(self).wf(),
        ensures
            final(self).wf(),
            slots_ok(final(self)@),
            final(self).timeout() == old(self).timeout(),
            r is Some <==> old(self)@.contains_key(a@) && old(self)@[a@].arrived is Some,
            match r {
                Some(v) => v@ == a@ && final(self)@ == settle(
                    old(self)@,
                    a@,
                    Slot { arrived: None, refcount: one_less(old(self)@[a@].refcount) },
                ),
                None => final(self)@ == old(self)@,
            },
    {
        match self.find(a) {
            Some(i) => {
                let v = match &self.entries[i].arrived {
                    Some(x) => x.copy(),
                    None => {
                        return None;
                    },
                };
                let n = self.entries[i].refcount;
                let m = if n > 0 {
                    n - 1
                } else {
                    0
                };
                self.settle_at(i, None, m);
                Some(v)
            },
            None => None,
        }
    }

    /// Drops a waiter's reference on the entry of `a` when its wait ran out.
    pub fn cancel_wait(&mut self, a: &Action)
        requires
            old(self).wf(),
        ensures
            final(self).wf(),
            slots_ok(final(self)@),
            final(self).timeout() == old(self).timeout(),
            old(self)@.contains_key(a@) ==> final(self)@ == settle(
                old(self)@,
                a@,
                Slot { arrived: old(self)@[a@].arrived, refcount: one_less(old(self)@[a@].refcount) },
            ),
            !old(self)@.contains_key(a@) ==> final(self)@ == old(self)@,
    {
        match self.find(a) {
            Some(i) => {
                let arrived = match &self.entries[i].arrived {
                    Some(x) => Some(x.copy()),
                    None => None,
                };
                let n = self.entries[i].refcount;
                let m = if n > 0 {
                    n - 1
                } else {
                    0
                };
                self.settle_at(i, arrived, m);
            },
            None => {},
        }
    }

    fn find(&self, a: &Action) -> (r: Option<usize>)
        requires
            self.wf(),
        ensures
            match r {
                Some(i) => i < self.entries.len() && self.entries@[i as int].action@ == a@
                    && self@.contains_key(a@),
                None => !self@.contains_key(a@),
            },
    {
        let mut i: usize = 0;
        while i < self.entries.len()
            invariant
                i <= self.entries.len(),
                self.wf(),
                forall|j: int| 0 <= j < i ==> self.entries@[j].action@ != a@,
            decreases self.entries.len() - i,
        {
            if self.entries[i].action.same_as(a) {
                proof {
                    assert(self.model@.contains_key(self.entries@[i as int].action@));
                }
                return Some(i);
            }
            i = i + 1;
        }
        None
    }
}

} // verus!
