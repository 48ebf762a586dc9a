//! The per-replica instance log: the authoritative table from `InstanceRef`
//! to `Instance`. Exactly one exists per replica; it grows monotonically and
//! never deletes an entry. Its mathematical model is a finite map from slots
//! to instance models.

use vstd::prelude::*;
use vstd::pervasive::VecAdditionalExecFns;

use crate::types::CommandState;
use crate::types::Instance;
use crate::types::InstanceModel;
use crate::types::InstanceRef;
use crate::types::ProtocolError;

verus! {

/// The keys of the entry list are pairwise distinct.
pub open spec fn keys_unique(s: Seq<(InstanceRef, Instance)>) -> bool {
    forall|i: int, j: int| 0 <= i < j < s.len() ==> (#[trigger] s[i]).0 != (#[trigger] s[j]).0
}

/// The map that an entry list stands for: later entries win, though under
/// `keys_unique` there is only one entry per key.
pub open spec fn entries_map(s: Seq<(InstanceRef, Instance)>) -> Map<InstanceRef, InstanceModel>
    decreases s.len(),
{
    if s.len() == 0 {
        Map::empty()
    } else {
        entries_map(s.drop_last()).insert(s.last().0, s.last().1@)
    }
}

/// What `entries_map` holds, entry by entry: its domain is the set of listed
/// keys, and under `keys_unique` each listed key maps to its listed instance.
pub proof fn lemma_entries_map(s: Seq<(InstanceRef, Instance)>)
    ensures
        forall|r: InstanceRef| #[trigger] entries_map(s).dom().contains(r)
            <==> exists|i: int| 0 <= i < s.len() && (#[trigger] s[i]).0 == r,
        keys_unique(s) ==> forall|i: int|
            0 <= i < s.len() ==> entries_map(s)[(#[trigger] s[i]).0] == s[i].1@,
    decreases s.len(),
{
    if s.len() > 0 {
        let sd = s.drop_last();
        lemma_entries_map(sd);
        assert forall|r: InstanceRef| #[trigger] entries_map(s).dom().contains(r)
            implies exists|i: int| 0 <= i < s.len() && (#[trigger] s[i]).0 == r by {
            if r == s.last().0 {
                assert(s[s.len() - 1].0 == r);
            } else {
                assert(entries_map(sd).dom().contains(r));
                let i = choose|i: int| 0 <= i < sd.len() && (#[trigger] sd[i]).0 == r;
                assert(sd[i] == s[i]);
                assert(s[i].0 == r);
            }
        }
        assert forall|r: InstanceRef| (exists|i: int| 0 <= i < s.len() && (#[trigger] s[i]).0 == r)
            implies #[trigger] entries_map(s).dom().contains(r) by {
            let i = choose|i: int| 0 <= i < s.len() && (#[trigger] s[i]).0 == r;
            if i < s.len() - 1 {
                assert(sd[i] == s[i]);
                assert(entries_map(sd).dom().contains(r));
            }
        }
        if keys_unique(s) {
            assert(keys_unique(sd)) by {
                assert(forall|i: int| 0 <= i < sd.len() ==> #[trigger] sd[i] == s[i]);
            }
            assert forall|i: int| 0 <= i < s.len()
                implies entries_map(s)[(#[trigger] s[i]).0] == s[i].1@ by {
                if i < s.len() - 1 {
                    assert(s[i].0 != s[s.len() - 1].0);
                    assert(sd[i] == s[i]);
                    assert(entries_map(sd)[sd[i].0] == sd[i].1@);
                }
            }
        }
    }
}

/// The map an entry list stands for is finite, with no more slots than
/// entries.
pub proof fn lemma_entries_map_dom_size(s: Seq<(InstanceRef, Instance)>)
    ensures
        entries_map(s).dom().finite(),
        entries_map(s).dom().len() <= s.len(),
    decreases s.len(),
{
    if s.len() > 0 {
        lemma_entries_map_dom_size(s.drop_last());
    }
}

/// The per-replica command log. Entries are kept as a list with pairwise
/// distinct keys; the model is the finite map the list stands for.
pub struct Commands(pub Vec<(InstanceRef, Instance)>);

impl View for Commands {
    type V = Map<InstanceRef, InstanceModel>;

    open spec fn view(&self) -> Map<InstanceRef, InstanceModel> {
        entries_map(self.0@)
    }
}

impl Commands {
    /// Well-formed: one entry per slot.
    pub open spec fn wf(&self) -> bool {
        keys_unique(self.0@)
    }

    /// The empty log.
    pub fn new() -> (log: Commands)
        ensures
            log.wf(),
            log@ == Map::<InstanceRef, InstanceModel>::empty(),
    {
        Commands(Vec::new())
    }

    /// Number of entries.
    pub fn len(&self) -> (n: usize)
        ensures
            n == self.0@.len(),
    {
        self.0.len()
    }

    /// Position of the entry for `r`, if there is one.
    fn position_of(&self, r: InstanceRef) -> (pos: Option<usize>)
        requires
            self.wf(),
        ensures
            match pos {
                Some(i) => 0 <= i < self.0@.len() && self.0@[i as int].0 == r
                    && self@.dom().contains(r) && self@[r] == self.0@[i as int].1@,
                None => !self@.dom().contains(r),
            },
    {
        let n = self.0.len();
        let mut i: usize = 0;
        while i < n
            invariant
                self.wf(),
                n == self.0@.len(),
                0 <= i <= n,
                forall|j: int| 0 <= j < i ==> (#[trigger] self.0@[j]).0 != r,
            decreases n - i,
        {
            if self.0[i].0 == r {
                proof {
                    lemma_entries_map(self.0@);
                    assert(self.0@[i as int].0 == r);
                }
                return Some(i);
            }
            i = i + 1;
        }
        proof {
            lemma_entries_map(self.0@);
        }
        None
    }

    /// Lookup. Fails with `NotFound` when the slot is absent, signalling a
    /// missing dependency that the caller must defer on or fetch.
    pub fn get(&self, r: InstanceRef) -> (res: Result<&Instance, ProtocolError>)
        requires
            self.wf(),
        ensures
            match res {
                Ok(inst) => self@.dom().contains(r) && inst@ == self@[r],
                Err(e) => !self@.dom().contains(r) && e is NotFound,
            },
    {
        match self.position_of(r) {
            Some(i) => Ok(&self.0[i].1),
            None => Err(ProtocolError::NotFound),
        }
    }

    /// Whether the slot is present.
    pub fn contains(&self, r: InstanceRef) -> (b: bool)
        requires
            self.wf(),
        ensures
            b == self@.dom().contains(r),
    {
        self.position_of(r).is_some()
    }

    /// First insertion of a slot. Fails with `ProtocolInvariantViolation` when the
    /// slot is already taken, leaving the log unchanged: a slot, once
    /// inserted, is never reassigned.
    pub fn insert(&mut self, r: InstanceRef, inst: Instance) -> (res: Result<(), ProtocolError>)
        requires
            old(self).wf(),
        ensures
            final(self).wf(),
            match res {
                Ok(()) => !old(self)@.dom().contains(r)
                    && final(self)@ == old(self)@.insert(r, inst@),
                Err(e) => old(self)@.dom().contains(r) && e is ProtocolInvariantViolation
                    && final(self)@ == old(self)@ && final(self).0@ == old(self).0@,
            },
    {
        match self.position_of(r) {
            Some(_) => Err(ProtocolError::ProtocolInvariantViolation),
            None => {
                self.0.push((r, inst));
                proof {
                    lemma_entries_map(old(self).0@);
                    let s_new = self.0@;
                    assert(s_new.drop_last() =~= old(self).0@);
                    assert forall|i: int, j: int| 0 <= i < j < s_new.len()
                        implies (#[trigger] s_new[i]).0 != (#[trigger] s_new[j]).0 by {
                        if j == s_new.len() - 1 {
                            assert(s_new[i] == old(self).0@[i]);
                            assert(old(self).0@[i].0 != r);
                        } else {
                            assert(s_new[i] == old(self).0@[i]);
                            assert(s_new[j] == old(self).0@[j]);
                        }
                    }
                }
                Ok(())
            }
        }
    }

    /// Insert-or-overwrite: records the instance at `r` whether or not the
    /// slot is already present, as the Accept and Commit handlers do.
    pub fn put(&mut self, r: InstanceRef, inst: Instance)
        requires
            old(self).wf(),
        ensures
            final(self).wf(),
            final(self)@ == old(self)@.insert(r, inst@),
    {
        let ghost s_old = self.0@;
        match self.position_of(r) {
            Some(i) => {
                let ghost inst_view = inst@;
                self.0.set(i, (r, inst));
                proof {
                    let s_new = self.0@;
                    assert(s_new == s_old.update(i as int, (r, inst)));
                    assert(forall|j: int| 0 <= j < s_new.len()
                        ==> (#[trigger] s_new[j]).0 == s_old[j].0);
                    assert(keys_unique(s_new));
                    lemma_entries_map(s_new);
                    lemma_entries_map(s_old);
                    assert forall|q: InstanceRef| #[trigger] entries_map(s_new).dom().contains(q)
                        implies old(self)@.insert(r, inst_view).dom().contains(q) by {
                        let j = choose|j: int| 0 <= j < s_new.len() && (#[trigger] s_new[j]).0 == q;
                        if j != i {
                            assert(s_old[j].0 == q);
                        }
                    }
                    assert forall|q: InstanceRef| old(self)@.insert(r, inst_view).dom().contains(q)
                        implies #[trigger] entries_map(s_new).dom().contains(q) by {
                        if q == r {
                            assert(s_new[i as int].0 == q);
                        } else {
                            let j = choose|j: int| 0 <= j < s_old.len() && (#[trigger] s_old[j]).0 == q;
                            assert(s_new[j].0 == q);
                        }
                    }
                    assert forall|q: InstanceRef| #[trigger] entries_map(s_new).dom().contains(q)
                        implies entries_map(s_new)[q] == old(self)@.insert(r, inst_view)[q] by {
                        let j = choose|j: int| 0 <= j < s_new.len() && (#[trigger] s_new[j]).0 == q;
                        assert(entries_map(s_new)[q] == s_new[j].1@);
                        if q == r {
                            assert(j == i);
                        } else {
                            assert(j != i);
                            assert(s_old[j].0 == q);
                            assert(entries_map(s_old)[q] == s_old[j].1@);
                        }
                    }
                    assert(entries_map(s_new) =~= old(self)@.insert(r, inst_view));
                }
            }
            None => {
                self.0.push((r, inst));
                proof {
                    lemma_entries_map(s_old);
                    let s_new = self.0@;
                    assert(s_new.drop_last() =~= s_old);
                    assert forall|i: int, j: int| 0 <= i < j < s_new.len()
                        implies (#[trigger] s_new[i]).0 != (#[trigger] s_new[j]).0 by {
                        if j == s_new.len() - 1 {
                            assert(s_new[i] == s_old[i]);
                            assert(s_old[i].0 != r);
                        } else {
                            assert(s_new[i] == s_old[i]);
                            assert(s_new[j] == s_old[j]);
                        }
                    }
                }
            }
        }
    }

    /// Sets the state of the instance at `r`, leaving its other fields as
    /// they are. Fails with `NotFound` when the slot is absent.
    pub fn set_state(&mut self, r: InstanceRef, state: CommandState) -> (res: Result<
        (),
        ProtocolError,
    >)
        requires
            old(self).wf(),
        ensures
            final(self).wf(),
            match res {
                Ok(()) => old(self)@.dom().contains(r)
                    && final(self)@ == old(self)@.insert(
                    r,
                    InstanceModel { state, ..old(self)@[r] },
                ),
                Err(e) => !old(self)@.dom().contains(r) && e is NotFound
                    && final(self)@ == old(self)@ && final(self).0@ == old(self).0@,
            },
    {
        let ghost s_old = self.0@;
        let ghost target = InstanceModel { state, ..old(self)@[r] };
        match self.position_of(r) {
            Some(i) => {
                let entry = &mut self.0[i];
                entry.1.state = state;
                proof {
                    let s_new = self.0@;
                    assert(s_new == s_old.update(i as int, s_new[i as int]));
                    assert(s_new[i as int].0 == r);
                    assert(s_new[i as int].1@ == target);
                    assert(forall|j: int| 0 <= j < s_new.len()
                        ==> (#[trigger] s_new[j]).0 == s_old[j].0);
                    assert(keys_unique(s_new));
                    lemma_entries_map(s_new);
                    lemma_entries_map(s_old);
                    assert forall|q: InstanceRef| #[trigger] entries_map(s_new).dom().contains(q)
                        implies entries_map(s_old).insert(r, target).dom().contains(q) by {
                        let j = choose|j: int| 0 <= j < s_new.len() && (#[trigger] s_new[j]).0 == q;
                        if j != i {
                            assert(s_old[j].0 == q);
                        }
                    }
                    assert forall|q: InstanceRef| entries_map(s_old).insert(r, target).dom().contains(
                        q,
                    ) implies #[trigger] entries_map(s_new).dom().contains(q) by {
                        if q == r {
                            assert(s_new[i as int].0 == q);
                        } else {
                            let j = choose|j: int| 0 <= j < s_old.len() && (#[trigger] s_old[j]).0 == q;
                            assert(s_new[j].0 == q);
                        }
                    }
                    assert forall|q: InstanceRef| #[trigger] entries_map(s_new).dom().contains(q)
                        implies entries_map(s_new)[q] == entries_map(s_old).insert(r, target)[q] by {
                        let j = choose|j: int| 0 <= j < s_new.len() && (#[trigger] s_new[j]).0 == q;
                        assert(entries_map(s_new)[q] == s_new[j].1@);
                        if q == r {
                            assert(j == i);
                        } else {
                            assert(j != i);
                            assert(s_old[j].0 == q);
                            assert(entries_map(s_old)[q] == s_old[j].1@);
                        }
                    }
                    assert(entries_map(s_new) =~= entries_map(s_old).insert(r, target));
                }
                Ok(())
            }
            None => Err(ProtocolError::NotFound),
        }
    }
}

} // verus!
