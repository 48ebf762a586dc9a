//! One replica of the consensus group: its identity, its instance log, and
//! the slot counter for the instances it leads. The methods here are the
//! whole per-replica decision logic: interference detection, sequence and
//! dependency assignment, the leader's fast/slow-path choice, and the
//! handlers for inbound PreAccept / Accept / Commit messages.
//!
//! Callers must serialize these operations per replica: each read-compute-
//! write sequence below assumes exclusive access to the log for its whole
//! duration. Network traffic belongs outside that exclusive region and
//! outside this crate.

use vstd::prelude::*;

use crate::exec::ExecutionEngine;
use crate::exec::apply_seq;
use crate::exec::valid_batch;
use crate::log::Commands;
use crate::log::lemma_entries_map;
use crate::types::Accept;
use crate::types::AcceptOK;
use crate::types::CommandModel;
use crate::types::CommandState;
use crate::types::Commit;
use crate::types::Instance;
use crate::types::InstanceModel;
use crate::types::InstanceRef;
use crate::types::Path;
use crate::types::Payload;
use crate::types::PollDecision;
use crate::types::PreAccept;
use crate::types::PreAcceptOK;
use crate::types::ProtocolError;
use crate::types::ReadRequest;
use crate::types::ReadResponse;
use crate::types::ReplicaId;
use crate::types::WriteRequest;
use crate::types::WriteResponse;

verus! {

/// Every instance whose command touches `key`: the interference set of a
/// command on `key`. Two commands interfere exactly when they address the
/// same key; the instance's state is irrelevant, so that concurrent
/// proposals still observe each other while only PreAccepted.
pub open spec fn interference_of(m: Map<InstanceRef, InstanceModel>, key: Seq<char>) -> Set<
    InstanceRef,
> {
    Set::new(|r: InstanceRef| m.dom().contains(r) && m[r].command.key == key)
}

/// All recorded sequence numbers leave room for one more: what the
/// `1 + max` rule of sequence assignment needs to stay within `usize`.
pub open spec fn seqs_bounded(m: Map<InstanceRef, InstanceModel>) -> bool {
    forall|r: InstanceRef| #[trigger] m.dom().contains(r) ==> m[r].seq < usize::MAX as nat
}

/// `v` is the next sequence number after the dependencies `deps`:
/// `1 + max(seq(d) for d in deps)`, or 1 when `deps` is empty. The three
/// clauses pin the value: it exceeds every dependency's sequence number, and
/// it is the least such value at least 1.
pub open spec fn is_next_seq(
    m: Map<InstanceRef, InstanceModel>,
    deps: Set<InstanceRef>,
    v: nat,
) -> bool {
    &&& v >= 1
    &&& forall|r: InstanceRef| deps.contains(r) && #[trigger] m.dom().contains(r) ==> m[r].seq < v
    &&& (v == 1 || exists|r: InstanceRef| deps.contains(r) && #[trigger] m.dom().contains(r)
        && m[r].seq + 1 == v)
}

/// Every polled reply agreed with the proposal: same sequence number and an
/// empty difference set. Exactly then may the leader skip the Accept round.
pub open spec fn fast_path_taken(proposal_seq: nat, rs: Seq<PreAcceptOK>) -> bool {
    forall|i: int| 0 <= i < rs.len() ==> (#[trigger] rs[i]).0@.seq == proposal_seq
        && rs[i].0.dependencies@.len() == 0
}

/// `v` is the slow-path sequence number: the maximum of the proposal's
/// sequence number and every reply's. The clauses determine `v` uniquely,
/// so the result cannot depend on the order the replies arrived in.
pub open spec fn is_slow_seq(proposal_seq: nat, rs: Seq<PreAcceptOK>, v: nat) -> bool {
    &&& v >= proposal_seq
    &&& forall|i: int| 0 <= i < rs.len() ==> (#[trigger] rs[i]).0@.seq <= v
    &&& (v == proposal_seq || exists|i: int| 0 <= i < rs.len() && (#[trigger] rs[i]).0@.seq == v)
}

/// `d` is the slow-path dependency set: the union of the proposal's
/// dependencies and every reply's difference set. Membership alone defines
/// it, so the result cannot depend on the order the replies arrived in.
pub open spec fn is_slow_deps(
    proposal_deps: Set<InstanceRef>,
    rs: Seq<PreAcceptOK>,
    d: Set<InstanceRef>,
) -> bool {
    forall|q: InstanceRef| #[trigger] d.contains(q) <==> proposal_deps.contains(q) || exists|i: int|
        0 <= i < rs.len() && (#[trigger] rs[i]).0.dependencies@.contains(q)
}

/// `v` is the sequence number a PreAccept handler must record for a command
/// on `key` arriving with sequence number `incoming`: the maximum of
/// `incoming` and `1 + max(seq(r) for r in the local interference)`. The
/// clauses pin the value: `v` is the least number that is at least 1, at
/// least `incoming`, and above every interfering instance's sequence number.
pub open spec fn is_handler_seq(
    m: Map<InstanceRef, InstanceModel>,
    key: Seq<char>,
    incoming: nat,
    v: nat,
) -> bool {
    &&& v >= 1
    &&& v >= incoming
    &&& forall|r: InstanceRef| #[trigger] interference_of(m, key).contains(r) ==> m[r].seq < v
    &&& (v == incoming || v == 1 || exists|r: InstanceRef|
        #[trigger] interference_of(m, key).contains(r) && m[r].seq + 1 == v)
}

/// Whether `r` occurs in `v`.
pub(crate) fn contains_ref(v: &Vec<InstanceRef>, r: InstanceRef) -> (b: bool)
    ensures
        b == v@.contains(r),
{
    let n = v.len();
    let mut i: usize = 0;
    while i < n
        invariant
            n == v@.len(),
            0 <= i <= n,
            forall|j: int| 0 <= j < i ==> v@[j] != r,
        decreases n - i,
    {
        if v[i] == r {
            return true;
        }
        i = i + 1;
    }
    false
}

/// An element-by-element copy of a list of slots.
fn copy_refs(v: &Vec<InstanceRef>) -> (c: Vec<InstanceRef>)
    ensures
        c@ == v@,
{
    let n = v.len();
    let mut c: Vec<InstanceRef> = Vec::new();
    let mut i: usize = 0;
    while i < n
        invariant
            n == v@.len(),
            0 <= i <= n,
            c@ == v@.take(i as int),
        decreases n - i,
    {
        c.push(v[i]);
        proof {
            assert(c@ =~= v@.take(i + 1));
        }
        i = i + 1;
    }
    proof {
        assert(c@ =~= v@);
    }
    c
}

/// One replica: its identity, its log, and the number of instances it has
/// led so far (its next slot is `instance_number + 1`).
pub struct Replica {
    pub id: ReplicaId,
    pub commands: Commands,
    pub instance_number: usize,
}

impl Replica {
    /// The log keeps one entry per slot, and this replica's own row holds
    /// no slot beyond its counter: slots there are allocated only by
    /// `write1`, in strictly increasing order, so the next one is fresh.
    pub open spec fn wf(&self) -> bool {
        &&& self.commands.wf()
        &&& forall|r: InstanceRef| #[trigger] self.commands@.dom().contains(r)
            && r.replica == self.id ==> r.slot <= self.instance_number
    }

    /// A phase message for `inst` carrying `cmd` may be recorded: it neither
    /// rebinds an occupied slot to a different command (a slot, once
    /// inserted, is never reassigned) nor names a slot of this replica's own
    /// row that this replica has not allocated. Either would be a protocol
    /// invariant violation, fatal and surfaced, never swallowed.
    pub open spec fn message_admissible(&self, cmd: CommandModel, inst: InstanceRef) -> bool {
        &&& self.commands@.dom().contains(inst) ==> self.commands@[inst].command == cmd
        &&& inst.replica == self.id ==> inst.slot <= self.instance_number
    }

    /// Runtime check of `message_admissible`, made by every inbound handler.
    fn admissible(&self, command: &WriteRequest, instance: InstanceRef) -> (b: bool)
        requires
            self.commands.wf(),
        ensures
            b == self.message_admissible(command@, instance),
    {
        if instance.replica == self.id && instance.slot > self.instance_number {
            return false;
        }
        match self.commands.get(instance) {
            Ok(stored) => {
                let same = stored.command.key == command.key
                    && stored.command.value == command.value;
                proof {
                    assert(same == (self.commands@[instance].command == command@));
                }
                same
            }
            Err(_) => true,
        }
    }

    /// A fresh replica with an empty log.
    pub fn new(id: ReplicaId) -> (rep: Replica)
        ensures
            rep.wf(),
            rep.id == id,
            rep.commands@ == Map::<InstanceRef, InstanceModel>::empty(),
            rep.instance_number == 0,
    {
        Replica { id, commands: Commands::new(), instance_number: 0 }
    }

    /// Conflict detection: every instance in the local log whose command
    /// addresses `key`, in no particular order and without duplicates.
    pub fn find_interference(&self, key: &String) -> (deps: Vec<InstanceRef>)
        requires
            self.wf(),
        ensures
            deps@.to_set() == interference_of(self.commands@, key@),
            deps@.no_duplicates(),
    {
        proof {
            lemma_entries_map(self.commands.0@);
        }
        let ghost s = self.commands.0@;
        let n = self.commands.0.len();
        let mut acc: Vec<InstanceRef> = Vec::new();
        let mut i: usize = 0;
        while i < n
            invariant
                self.wf(),
                n == s.len(),
                s == self.commands.0@,
                0 <= i <= n,
                forall|r: InstanceRef| #[trigger] acc@.contains(r) <==> exists|j: int|
                    0 <= j < i && (#[trigger] s[j]).0 == r && s[j].1.command.key@ == key@,
                acc@.no_duplicates(),
            decreases n - i,
        {
            let entry = &self.commands.0[i];
            if entry.1.command.key == *key {
                proof {
                    let r = s[i as int].0;
                    if acc@.contains(r) {
                        let j = choose|j: int|
                            0 <= j < i && (#[trigger] s[j]).0 == r && s[j].1.command.key@ == key@;
                        assert(s[j].0 == s[i as int].0);
                        assert(false);
                    }
                }
                let ghost acc_old = acc@;
                acc.push(entry.0);
                proof {
                    let r = s[i as int].0;
                    assert(acc@ == acc_old.push(r));
                    assert forall|q: InstanceRef| #[trigger] acc@.contains(q) implies exists|j: int|
                        0 <= j < i + 1 && (#[trigger] s[j]).0 == q && s[j].1.command.key@ == key@ by {
                        let k = choose|k: int| 0 <= k < acc@.len() && acc@[k] == q;
                        if k < acc@.len() - 1 {
                            assert(acc_old[k] == q);
                            assert(acc_old.contains(q));
                        } else {
                            assert(s[i as int].0 == q && s[i as int].1.command.key@ == key@);
                        }
                    }
                    assert forall|q: InstanceRef| (exists|j: int|
                        0 <= j < i + 1 && (#[trigger] s[j]).0 == q && s[j].1.command.key@ == key@)
                        implies #[trigger] acc@.contains(q) by {
                        let j = choose|j: int|
                            0 <= j < i + 1 && (#[trigger] s[j]).0 == q && s[j].1.command.key@ == key@;
                        if j < i {
                            assert(acc_old.contains(q));
                            let k = choose|k: int| 0 <= k < acc_old.len() && acc_old[k] == q;
                            assert(acc@[k] == q);
                        } else {
                            assert(acc@[acc@.len() - 1] == q);
                        }
                    }
                    assert forall|k1: int, k2: int| 0 <= k1 < k2 < acc@.len()
                        implies acc@[k1] != acc@[k2] by {
                        if k2 == acc@.len() - 1 {
                            assert(acc@[k1] == acc_old[k1]);
                            assert(acc_old.contains(acc_old[k1]));
                        }
                    }
                }
            }
            i = i + 1;
        }
        proof {
            assert forall|r: InstanceRef| #[trigger] acc@.to_set().contains(r)
                implies interference_of(self.commands@, key@).contains(r) by {
                let j = choose|j: int|
                    0 <= j < n && (#[trigger] s[j]).0 == r && s[j].1.command.key@ == key@;
                assert(self.commands@.dom().contains(r));
                assert(self.commands@[s[j].0] == s[j].1@);
            }
            assert forall|r: InstanceRef| interference_of(self.commands@, key@).contains(r)
                implies #[trigger] acc@.to_set().contains(r) by {
                let j = choose|j: int| 0 <= j < s.len() && (#[trigger] s[j]).0 == r;
                assert(self.commands@[s[j].0] == s[j].1@);
                assert(s[j].1.command.key@ == key@);
            }
            assert(acc@.to_set() =~= interference_of(self.commands@, key@));
        }
        acc
    }

    /// Peer handler for a PreAccept from the leader of an instance. The
    /// handler folds its own view of the conflicts into the proposal: it
    /// raises the sequence number to clear everything it knows about the
    /// key, stores the instance PreAccepted with the union of the leader's
    /// dependencies and the locally discovered interference, and replies
    /// with only the *difference* (what the leader had not listed), so that
    /// the leader can compute the union without double-counting.
    ///
    /// A message that would rebind an occupied slot to a different command,
    /// or that names an unallocated slot of this replica's own row, is a
    /// protocol invariant violation: surfaced as a fatal error, the log
    /// untouched. A re-delivery for a slot still PreAccepted is re-recorded
    /// (with the same command); one for a slot already Accepted or
    /// Committed is answered without touching the log — states never
    /// regress.
    pub fn pre_accept_(&mut self, pre_accept_req: PreAccept) -> (res: Result<
        PreAcceptOK,
        ProtocolError,
    >)
        requires
            old(self).wf(),
            seqs_bounded(old(self).commands@),
            pre_accept_req.0.seq < usize::MAX,
        ensures
            final(self).wf(),
            final(self).id == old(self).id,
            final(self).instance_number == old(self).instance_number,
            res is Err <==> !old(self).message_admissible(
                pre_accept_req.0@.command,
                pre_accept_req.0@.instance,
            ),
            res matches Err(e) ==> e is ProtocolInvariantViolation
                && final(self).commands@ == old(self).commands@,
            res matches Ok(reply) ==> {
                &&& reply.0@.command == pre_accept_req.0@.command
                &&& reply.0@.instance == pre_accept_req.0@.instance
                &&& is_handler_seq(
                    old(self).commands@,
                    pre_accept_req.0@.command.key,
                    pre_accept_req.0@.seq,
                    reply.0@.seq,
                )
                &&& reply.0@.deps == interference_of(
                    old(self).commands@,
                    pre_accept_req.0@.command.key,
                ).difference(pre_accept_req.0@.deps)
                &&& reply.0.dependencies@.no_duplicates()
                &&& if old(self).commands@.dom().contains(pre_accept_req.0@.instance)
                    && !(old(self).commands@[pre_accept_req.0@.instance].state
                        is PreAccepted) {
                    final(self).commands@ == old(self).commands@
                } else {
                    final(self).commands@ == old(self).commands@.insert(
                        pre_accept_req.0@.instance,
                        InstanceModel {
                            command: pre_accept_req.0@.command,
                            seq: reply.0@.seq,
                            deps: pre_accept_req.0@.deps.union(
                                interference_of(
                                    old(self).commands@,
                                    pre_accept_req.0@.command.key,
                                ),
                            ),
                            state: CommandState::PreAccepted,
                        },
                    )
                }
            },
    {
        let ghost m = old(self).commands@;
        if !self.admissible(&pre_accept_req.0.command, pre_accept_req.0.instance) {
            return Err(ProtocolError::ProtocolInvariantViolation);
        }
        let PreAccept(payload) = pre_accept_req;
        let Payload { command, seq, mut dependencies, instance } = payload;
        let ghost incoming_deps = dependencies@;
        let dependencies1 = self.find_interference(&command.key);
        proof {
            assert forall|j: int| 0 <= j < dependencies1@.len()
                implies self.commands@.dom().contains(#[trigger] dependencies1@[j]) by {
                assert(dependencies1@.to_set().contains(dependencies1@[j]));
            }
        }
        let seq_candidate = self.find_next_seq(&dependencies1);
        let seq1 = if seq > seq_candidate {
            seq
        } else {
            seq_candidate
        };
        proof {
            let local = interference_of(m, command.key@);
            assert forall|r: InstanceRef| #[trigger] local.contains(r)
                implies m[r].seq < seq_candidate as nat by {
                assert(dependencies1@.to_set().contains(r));
            }
            if seq1 == seq_candidate && seq_candidate != 1 {
                let r = choose|r: InstanceRef| dependencies1@.to_set().contains(r)
                    && #[trigger] m.dom().contains(r) && m[r].seq + 1 == seq_candidate as nat;
                assert(local.contains(r));
            }
            assert(is_handler_seq(m, command.key@, seq as nat, seq1 as nat));
        }
        let mut dep_diff: Vec<InstanceRef> = Vec::new();
        let n1 = dependencies1.len();
        let mut i: usize = 0;
        while i < n1
            invariant
                n1 == dependencies1@.len(),
                0 <= i <= n1,
                dependencies@ == incoming_deps,
                dependencies1@.no_duplicates(),
                forall|q: InstanceRef| #[trigger] dep_diff@.contains(q) <==> exists|j: int|
                    0 <= j < i && dependencies1@[j] == q && !incoming_deps.contains(q),
                dep_diff@.no_duplicates(),
            decreases n1 - i,
        {
            let d = dependencies1[i];
            if !contains_ref(&dependencies, d) {
                proof {
                    if dep_diff@.contains(d) {
                        let j = choose|j: int|
                            0 <= j < i && dependencies1@[j] == d && !incoming_deps.contains(d);
                        assert(dependencies1@[j] == dependencies1@[i as int]);
                        assert(false);
                    }
                }
                let ghost diff_old = dep_diff@;
                dep_diff.push(d);
                proof {
                    assert forall|q: InstanceRef| #[trigger] dep_diff@.contains(q)
                        implies exists|j: int|
                        0 <= j < i + 1 && dependencies1@[j] == q && !incoming_deps.contains(q) by {
                        let k = choose|k: int| 0 <= k < dep_diff@.len() && dep_diff@[k] == q;
                        if k < dep_diff@.len() - 1 {
                            assert(diff_old[k] == q);
                            assert(diff_old.contains(q));
                        } else {
                            assert(dependencies1@[i as int] == q);
                        }
                    }
                    assert forall|q: InstanceRef| (exists|j: int|
                        0 <= j < i + 1 && dependencies1@[j] == q && !incoming_deps.contains(q))
                        implies #[trigger] dep_diff@.contains(q) by {
                        let j = choose|j: int|
                            0 <= j < i + 1 && dependencies1@[j] == q && !incoming_deps.contains(q);
                        if j < i {
                            assert(diff_old.contains(q));
                            let k = choose|k: int| 0 <= k < diff_old.len() && diff_old[k] == q;
                            assert(dep_diff@[k] == q);
                        } else {
                            assert(dep_diff@[dep_diff@.len() - 1] == q);
                        }
                    }
                    assert forall|k1: int, k2: int| 0 <= k1 < k2 < dep_diff@.len()
                        implies dep_diff@[k1] != dep_diff@[k2] by {
                        if k2 == dep_diff@.len() - 1 {
                            assert(dep_diff@[k1] == diff_old[k1]);
                            assert(diff_old.contains(diff_old[k1]));
                        }
                    }
                }
            }
            i = i + 1;
        }
        proof {
            let local = interference_of(m, command.key@);
            assert forall|q: InstanceRef| #[trigger] dep_diff@.to_set().contains(q)
                implies local.difference(incoming_deps.to_set()).contains(q) by {
                let j = choose|j: int|
                    0 <= j < n1 && dependencies1@[j] == q && !incoming_deps.contains(q);
                assert(dependencies1@.to_set().contains(q));
            }
            assert forall|q: InstanceRef| local.difference(incoming_deps.to_set()).contains(q)
                implies #[trigger] dep_diff@.to_set().contains(q) by {
                assert(dependencies1@.to_set().contains(q));
                let j = choose|j: int| 0 <= j < dependencies1@.len() && dependencies1@[j] == q;
            }
            assert(dep_diff@.to_set() =~= local.difference(incoming_deps.to_set()));
        }
        // fold the difference back in: the stored dependency set is the union
        let n2 = dep_diff.len();
        let mut k: usize = 0;
        while k < n2
            invariant
                n2 == dep_diff@.len(),
                0 <= k <= n2,
                dependencies@ == incoming_deps + dep_diff@.take(k as int),
            decreases n2 - k,
        {
            dependencies.push(dep_diff[k]);
            proof {
                assert(dependencies@ =~= incoming_deps + dep_diff@.take(k + 1));
            }
            k = k + 1;
        }
        proof {
            let local = interference_of(m, command.key@);
            assert(dependencies@ =~= incoming_deps + dep_diff@);
            assert forall|q: InstanceRef| #[trigger] dependencies@.to_set().contains(q)
                implies incoming_deps.to_set().union(local).contains(q) by {
                let j = choose|j: int| 0 <= j < dependencies@.len() && dependencies@[j] == q;
                if j < incoming_deps.len() {
                    assert(incoming_deps.contains(q));
                } else {
                    assert(dep_diff@.contains(q));
                    assert(dep_diff@.to_set().contains(q));
                }
            }
            assert forall|q: InstanceRef| incoming_deps.to_set().union(local).contains(q)
                implies #[trigger] dependencies@.to_set().contains(q) by {
                if incoming_deps.contains(q) {
                    let j = choose|j: int| 0 <= j < incoming_deps.len() && incoming_deps[j] == q;
                    assert(dependencies@[j] == q);
                } else {
                    assert(dep_diff@.to_set().contains(q));
                    let j = choose|j: int| 0 <= j < dep_diff@.len() && dep_diff@[j] == q;
                    assert(dependencies@[incoming_deps.len() + j] == q);
                }
            }
            assert(dependencies@.to_set() =~= incoming_deps.to_set().union(local));
        }
        let record = match self.commands.get(instance) {
            Ok(stored) => stored.state == CommandState::PreAccepted,
            Err(_) => true,
        };
        if record {
            let stored = Instance {
                command: command.duplicate(),
                seq: seq1,
                dependencies,
                state: CommandState::PreAccepted,
            };
            self.commands.put(instance, stored);
            proof {
                assert forall|r: InstanceRef| #[trigger] self.commands@.dom().contains(r)
                    && r.replica == self.id implies r.slot <= self.instance_number by {
                    if r != instance {
                        assert(m.dom().contains(r));
                    }
                }
            }
        }
        Ok(PreAcceptOK(Payload { command, seq: seq1, dependencies: dep_diff, instance }))
    }

    /// Peer handler for an Accept: records the leader's slow-path decision
    /// (final seq and dependencies) at the given slot, overwriting the
    /// provisional instance there, and acknowledges it. A message that
    /// would rebind the slot to a different command or names an
    /// unallocated slot of this replica's own row is a fatal protocol
    /// invariant violation. Committed is terminal: an Accept arriving for
    /// an already-Committed slot is acknowledged without touching the log —
    /// states never regress.
    pub fn accept_(&mut self, accept_req: Accept) -> (res: Result<AcceptOK, ProtocolError>)
        requires
            old(self).wf(),
        ensures
            final(self).wf(),
            final(self).id == old(self).id,
            final(self).instance_number == old(self).instance_number,
            res is Err <==> !old(self).message_admissible(
                accept_req.0@.command,
                accept_req.0@.instance,
            ),
            res matches Err(e) ==> e is ProtocolInvariantViolation
                && final(self).commands@ == old(self).commands@,
            res matches Ok(reply) ==> {
                &&& reply.command@ == accept_req.0@.command
                &&& reply.instance == accept_req.0@.instance
                &&& if old(self).commands@.dom().contains(accept_req.0@.instance)
                    && old(self).commands@[accept_req.0@.instance].state is Committed {
                    final(self).commands@ == old(self).commands@
                } else {
                    final(self).commands@ == old(self).commands@.insert(
                        accept_req.0@.instance,
                        InstanceModel {
                            command: accept_req.0@.command,
                            seq: accept_req.0@.seq,
                            deps: accept_req.0@.deps,
                            state: CommandState::Accepted,
                        },
                    )
                }
            },
    {
        let ghost m = old(self).commands@;
        if !self.admissible(&accept_req.0.command, accept_req.0.instance) {
            return Err(ProtocolError::ProtocolInvariantViolation);
        }
        let Accept(payload) = accept_req;
        let Payload { command, seq, dependencies, instance } = payload;
        let record = match self.commands.get(instance) {
            Ok(stored) => !(stored.state == CommandState::Committed),
            Err(_) => true,
        };
        if record {
            let stored = Instance {
                command: command.duplicate(),
                seq,
                dependencies,
                state: CommandState::Accepted,
            };
            self.commands.put(instance, stored);
            proof {
                assert forall|r: InstanceRef| #[trigger] self.commands@.dom().contains(r)
                    && r.replica == self.id implies r.slot <= self.instance_number by {
                    if r != instance {
                        assert(m.dom().contains(r));
                    }
                }
            }
        }
        Ok(AcceptOK { command, instance })
    }

    /// Peer handler for a Commit: records the decided instance at the given
    /// slot, overwriting whatever earlier phase was there. A message that
    /// would rebind the slot to a different command or names an
    /// unallocated slot of this replica's own row is a fatal protocol
    /// invariant violation. A duplicate Commit rewrites the same fields:
    /// committing is idempotent.
    pub fn commit_(&mut self, commit_req: Commit) -> (res: Result<(), ProtocolError>)
        requires
            old(self).wf(),
        ensures
            final(self).wf(),
            final(self).id == old(self).id,
            final(self).instance_number == old(self).instance_number,
            res is Err <==> !old(self).message_admissible(
                commit_req.0@.command,
                commit_req.0@.instance,
            ),
            res matches Err(e) ==> e is ProtocolInvariantViolation
                && final(self).commands@ == old(self).commands@,
            res is Ok ==> final(self).commands@ == old(self).commands@.insert(
                commit_req.0@.instance,
                InstanceModel {
                    command: commit_req.0@.command,
                    seq: commit_req.0@.seq,
                    deps: commit_req.0@.deps,
                    state: CommandState::Committed,
                },
            ),
    {
        let ghost m = old(self).commands@;
        if !self.admissible(&commit_req.0.command, commit_req.0.instance) {
            return Err(ProtocolError::ProtocolInvariantViolation);
        }
        let Commit(payload) = commit_req;
        let Payload { command, seq, dependencies, instance } = payload;
        let stored = Instance {
            command,
            seq,
            dependencies,
            state: CommandState::Committed,
        };
        self.commands.put(instance, stored);
        proof {
            assert forall|r: InstanceRef| #[trigger] self.commands@.dom().contains(r)
                && r.replica == self.id implies r.slot <= self.instance_number by {
                if r != instance {
                    assert(m.dom().contains(r));
                }
            }
        }
        Ok(())
    }

    /// The slot of the instance this replica led most recently.
    fn current_instance_ref(&self) -> (r: InstanceRef)
        ensures
            r == (InstanceRef { replica: self.id, slot: self.instance_number }),
    {
        InstanceRef { replica: self.id, slot: self.instance_number }
    }

    /// First leader step for a client write: allocate the next slot in this
    /// replica's own row, record the command PreAccepted with the locally
    /// visible interference as dependencies and `1 + max` of their sequence
    /// numbers as its sequence number, and build the PreAccept to broadcast
    /// to a quorum of peers.
    pub fn write1(&mut self, write_req: WriteRequest) -> (pa: PreAccept)
        requires
            old(self).wf(),
            seqs_bounded(old(self).commands@),
            old(self).instance_number < usize::MAX,
        ensures
            final(self).wf(),
            final(self).id == old(self).id,
            final(self).instance_number == old(self).instance_number + 1,
            pa.0@.command == write_req@,
            pa.0@.instance == (InstanceRef {
                replica: old(self).id,
                slot: (old(self).instance_number + 1) as usize,
            }),
            !old(self).commands@.dom().contains(pa.0@.instance),
            pa.0@.deps == interference_of(old(self).commands@, write_req@.key),
            pa.0.dependencies@.no_duplicates(),
            is_next_seq(old(self).commands@, pa.0@.deps, pa.0@.seq),
            final(self).commands@ == old(self).commands@.insert(
                pa.0@.instance,
                InstanceModel {
                    command: write_req@,
                    seq: pa.0@.seq,
                    deps: pa.0@.deps,
                    state: CommandState::PreAccepted,
                },
            ),
    {
        let ghost m = old(self).commands@;
        let dependencies = self.find_interference(&write_req.key);
        proof {
            assert forall|j: int| 0 <= j < dependencies@.len()
                implies self.commands@.dom().contains(#[trigger] dependencies@[j]) by {
                assert(dependencies@.to_set().contains(dependencies@[j]));
            }
        }
        let seq = self.find_next_seq(&dependencies);
        self.instance_number = self.instance_number + 1;
        let r = self.current_instance_ref();
        let stored = Instance {
            command: write_req.duplicate(),
            seq,
            dependencies: copy_refs(&dependencies),
            state: CommandState::PreAccepted,
        };
        // the slot is fresh: this replica allocates its own row in strictly
        // increasing order
        match self.commands.insert(r, stored) {
            Ok(()) => {}
            Err(_) => {
                return vstd::pervasive::unreached();
            }
        }
        proof {
            assert forall|q: InstanceRef| #[trigger] self.commands@.dom().contains(q)
                && q.replica == self.id implies q.slot <= self.instance_number by {
                if q != r {
                    assert(m.dom().contains(q));
                }
            }
        }
        PreAccept(Payload { command: write_req, seq, dependencies, instance: r })
    }

    /// Second leader step: fold the PreAcceptOK replies of the polled
    /// quorum. If every reply agrees with the proposal (same sequence
    /// number, empty difference set) the fast path commits at once; any
    /// single dissenting reply forces the slow path, whose Accept carries
    /// the maximum of all the sequence numbers and the union of the
    /// proposal's dependencies with every reply's difference set.
    ///
    /// `required` is the quorum of replies the protocol demands (`F`); a
    /// path may be concluded only from at least that many replies, never
    /// from fewer — an unreceived reply is not an agreeing one. With fewer
    /// in hand the leader must keep polling (see `poll_decision`).
    pub fn write2(
        &mut self,
        pre_accept_req: PreAccept,
        pre_accept_resps: Vec<PreAcceptOK>,
        required: usize,
    ) -> (path: Path)
        requires
            old(self).wf(),
            old(self).commands@.dom().contains(pre_accept_req.0.instance),
            1 <= required <= pre_accept_resps@.len(),
        ensures
            final(self).wf(),
            final(self).id == old(self).id,
            final(self).instance_number == old(self).instance_number,
            path is Fast <==> fast_path_taken(pre_accept_req.0@.seq, pre_accept_resps@),
            path is Fast ==> {
                &&& path->Fast_0.committed
                &&& path->Fast_1.0@ == pre_accept_req.0@
                &&& final(self).commands@ == old(self).commands@.insert(
                    pre_accept_req.0@.instance,
                    InstanceModel {
                        state: CommandState::Committed,
                        ..old(self).commands@[pre_accept_req.0@.instance]
                    },
                )
            },
            path is Slow ==> {
                &&& path->Slow_0.0@.command == pre_accept_req.0@.command
                &&& path->Slow_0.0@.instance == pre_accept_req.0@.instance
                &&& is_slow_seq(pre_accept_req.0@.seq, pre_accept_resps@, path->Slow_0.0@.seq)
                &&& is_slow_deps(pre_accept_req.0@.deps, pre_accept_resps@, path->Slow_0.0@.deps)
                &&& (pre_accept_req.0.dependencies@.no_duplicates()
                    ==> path->Slow_0.0.dependencies@.no_duplicates())
                &&& final(self).commands@ == old(self).commands@.insert(
                    pre_accept_req.0@.instance,
                    InstanceModel {
                        state: CommandState::Accepted,
                        ..old(self).commands@[pre_accept_req.0@.instance]
                    },
                )
            },
    {
        let PreAccept(mut payload) = pre_accept_req;
        let n = pre_accept_resps.len();
        let mut fast = true;
        let mut i: usize = 0;
        while i < n
            invariant
                n == pre_accept_resps@.len(),
                0 <= i <= n,
                payload == pre_accept_req.0,
                fast == (forall|j: int| 0 <= j < i
                    ==> (#[trigger] pre_accept_resps@[j]).0.seq == payload.seq
                        && pre_accept_resps@[j].0.dependencies@.len() == 0),
            decreases n - i,
        {
            let resp = &pre_accept_resps[i];
            if !(resp.0.seq == payload.seq && resp.0.dependencies.len() == 0) {
                fast = false;
                proof {
                    assert(!((#[trigger] pre_accept_resps@[i as int]).0.seq == payload.seq
                        && pre_accept_resps@[i as int].0.dependencies@.len() == 0));
                }
            }
            i = i + 1;
        }
        if fast {
            // every polled reply agreed: commit without a second round
            match self.commands.set_state(payload.instance, CommandState::Committed) {
                Ok(()) => {}
                Err(_) => {
                    return vstd::pervasive::unreached();
                }
            }
            proof {
                assert forall|r: InstanceRef| #[trigger] self.commands@.dom().contains(r)
                    && r.replica == self.id implies r.slot <= self.instance_number by {
                    assert(old(self).commands@.dom().contains(r));
                }
            }
            Path::Fast(WriteResponse { committed: true }, Commit(payload))
        } else {
            let ghost p = payload@;
            let mut mseq = payload.seq;
            let mut i: usize = 0;
            while i < n
                invariant
                    n == pre_accept_resps@.len(),
                    0 <= i <= n,
                    mseq >= p.seq,
                    forall|j: int| 0 <= j < i
                        ==> (#[trigger] pre_accept_resps@[j]).0@.seq <= mseq as nat,
                    mseq as nat == p.seq || exists|j: int| 0 <= j < i
                        && (#[trigger] pre_accept_resps@[j]).0@.seq == mseq as nat,
                decreases n - i,
            {
                if pre_accept_resps[i].0.seq > mseq {
                    mseq = pre_accept_resps[i].0.seq;
                    proof {
                        assert((#[trigger] pre_accept_resps@[i as int]).0@.seq == mseq as nat);
                    }
                }
                i = i + 1;
            }
            payload.seq = mseq;
            let ghost orig_deps = payload.dependencies@;
            let mut i: usize = 0;
            while i < n
                invariant
                    n == pre_accept_resps@.len(),
                    0 <= i <= n,
                    payload.instance == p.instance,
                    payload.command@ == p.command,
                    payload.seq == mseq,
                    forall|q: InstanceRef| #[trigger] payload.dependencies@.contains(q)
                        <==> orig_deps.contains(q) || exists|j: int| 0 <= j < i
                            && (#[trigger] pre_accept_resps@[j]).0.dependencies@.contains(q),
                    orig_deps.no_duplicates() ==> payload.dependencies@.no_duplicates(),
                decreases n - i,
            {
                let resp_deps_len = pre_accept_resps[i].0.dependencies.len();
                let mut k: usize = 0;
                while k < resp_deps_len
                    invariant
                        n == pre_accept_resps@.len(),
                        0 <= i < n,
                        resp_deps_len == pre_accept_resps@[i as int].0.dependencies@.len(),
                        0 <= k <= resp_deps_len,
                        payload.instance == p.instance,
                        payload.command@ == p.command,
                        payload.seq == mseq,
                        forall|q: InstanceRef| #[trigger] payload.dependencies@.contains(q)
                            <==> orig_deps.contains(q) || (exists|j: int| 0 <= j < i
                                && (#[trigger] pre_accept_resps@[j]).0.dependencies@.contains(q))
                                || (exists|l: int| 0 <= l < k
                                    && pre_accept_resps@[i as int].0.dependencies@[l] == q),
                        orig_deps.no_duplicates() ==> payload.dependencies@.no_duplicates(),
                    decreases resp_deps_len - k,
                {
                    let ghost deps_before = payload.dependencies@;
                    let d = pre_accept_resps[i].0.dependencies[k];
                    if !contains_ref(&payload.dependencies, d) {
                        payload.dependencies.push(d);
                        proof {
                            let pushed = pre_accept_resps@[i as int].0.dependencies@[k as int];
                            assert forall|q: InstanceRef| #[trigger] payload.dependencies@.contains(
                                q,
                            ) implies deps_before.contains(q) || q == pushed by {
                                let x = choose|x: int|
                                    0 <= x < payload.dependencies@.len()
                                        && payload.dependencies@[x] == q;
                                if x < payload.dependencies@.len() - 1 {
                                    assert(deps_before[x] == q);
                                }
                            }
                            assert forall|q: InstanceRef| deps_before.contains(q)
                                implies #[trigger] payload.dependencies@.contains(q) by {
                                let x = choose|x: int|
                                    0 <= x < deps_before.len() && deps_before[x] == q;
                                assert(payload.dependencies@[x] == q);
                            }
                            assert(payload.dependencies@.contains(pushed)) by {
                                assert(payload.dependencies@[payload.dependencies@.len() - 1]
                                    == pushed);
                            }
                            if orig_deps.no_duplicates() {
                                assert forall|x1: int, x2: int|
                                    0 <= x1 < x2 < payload.dependencies@.len()
                                    implies payload.dependencies@[x1]
                                        != payload.dependencies@[x2] by {
                                    if x2 == payload.dependencies@.len() - 1 {
                                        assert(payload.dependencies@[x1] == deps_before[x1]);
                                        assert(deps_before.contains(deps_before[x1]));
                                    }
                                }
                            }
                        }
                    } else {
                        proof {
                            assert(payload.dependencies@.contains(
                                pre_accept_resps@[i as int].0.dependencies@[k as int],
                            ));
                        }
                    }
                    k = k + 1;
                }
                proof {
                    assert forall|q: InstanceRef| #[trigger] payload.dependencies@.contains(q)
                        implies orig_deps.contains(q) || (exists|j: int| 0 <= j < i + 1
                            && (#[trigger] pre_accept_resps@[j]).0.dependencies@.contains(q)) by {
                        if !orig_deps.contains(q) {
                            if exists|j: int| 0 <= j < i
                                && (#[trigger] pre_accept_resps@[j]).0.dependencies@.contains(q) {
                                let j = choose|j: int| 0 <= j < i
                                    && (#[trigger] pre_accept_resps@[j]).0.dependencies@.contains(q);
                                assert(pre_accept_resps@[j].0.dependencies@.contains(q));
                            } else {
                                let l = choose|l: int| 0 <= l < resp_deps_len
                                    && pre_accept_resps@[i as int].0.dependencies@[l] == q;
                                assert(pre_accept_resps@[i as int].0.dependencies@.contains(q));
                            }
                        }
                    }
                    assert forall|q: InstanceRef| (exists|j: int| 0 <= j < i + 1
                        && (#[trigger] pre_accept_resps@[j]).0.dependencies@.contains(q))
                        implies #[trigger] payload.dependencies@.contains(q) by {
                        let j = choose|j: int| 0 <= j < i + 1
                            && (#[trigger] pre_accept_resps@[j]).0.dependencies@.contains(q);
                        if j == i {
                            let l = choose|l: int|
                                0 <= l < pre_accept_resps@[j].0.dependencies@.len()
                                    && pre_accept_resps@[j].0.dependencies@[l] == q;
                        }
                    }
                }
                i = i + 1;
            }
            match self.commands.set_state(payload.instance, CommandState::Accepted) {
                Ok(()) => {}
                Err(_) => {
                    return vstd::pervasive::unreached();
                }
            }
            proof {
                assert forall|r: InstanceRef| #[trigger] self.commands@.dom().contains(r)
                    && r.replica == self.id implies r.slot <= self.instance_number by {
                    assert(old(self).commands@.dom().contains(r));
                }
            }
            Path::Slow(Accept(payload))
        }
    }

    /// Final leader step: record the decided instance Committed in the
    /// leader's own log, confirm the write to the client, and build the
    /// Commit to broadcast to all replicas. The payload is the leader's own
    /// decision, so when it names a slot of the leader's own row, that slot
    /// was allocated by `write1` and lies within the counter.
    pub fn leader_commit(&mut self, payload: Payload) -> (out: (WriteResponse, Commit))
        requires
            old(self).wf(),
            payload.instance.replica == old(self).id ==> payload.instance.slot <= old(
                self,
            ).instance_number,
        ensures
            final(self).wf(),
            final(self).id == old(self).id,
            final(self).instance_number == old(self).instance_number,
            final(self).commands@ == old(self).commands@.insert(
                payload@.instance,
                InstanceModel {
                    command: payload@.command,
                    seq: payload@.seq,
                    deps: payload@.deps,
                    state: CommandState::Committed,
                },
            ),
            out.0.committed,
            out.1.0@ == payload@,
    {
        let ghost m = old(self).commands@;
        let Payload { command, seq, dependencies, instance } = payload;
        let stored = Instance {
            command: command.duplicate(),
            seq,
            dependencies: copy_refs(&dependencies),
            state: CommandState::Committed,
        };
        self.commands.put(instance, stored);
        proof {
            assert forall|r: InstanceRef| #[trigger] self.commands@.dom().contains(r)
                && r.replica == self.id implies r.slot <= self.instance_number by {
                if r != instance {
                    assert(m.dom().contains(r));
                }
            }
        }
        (WriteResponse { committed: true }, Commit(Payload { command, seq, dependencies, instance }))
    }

    /// The leader's polling decision while gathering PreAcceptOK replies: a
    /// peer that has not replied is excluded from the tally, never counted
    /// as agreeing or dissenting, so with fewer than the required quorum of
    /// replies in hand the leader widens the poll (or keeps waiting) rather
    /// than concluding a path; exactly with the quorum may it conclude and
    /// fold the replies (`write2`).
    pub fn poll_decision(replies_received: usize, required: usize) -> (d: PollDecision)
        ensures
            d is Conclude <==> replies_received >= required,
    {
        if replies_received >= required {
            PollDecision::Conclude
        } else {
            PollDecision::Widen
        }
    }

    /// Serves a client read. Reading must give the same dependency-safety
    /// guarantee as execution: before looking the key up, every committed
    /// instance whose dependencies are cleared — in particular every
    /// committed write to this key — is applied to the store. A key no
    /// committed write has touched is reported to the client as unknown.
    pub fn read_(&self, read_req: ReadRequest, engine: &mut ExecutionEngine) -> (res: Result<
        ReadResponse,
        ProtocolError,
    >)
        requires
            self.wf(),
            old(engine).wf(),
        ensures
            final(engine).wf(),
            exists|b: Seq<InstanceRef>|
                {
                    &&& #[trigger] valid_batch(self.commands@, old(engine).applied_view(), b)
                    &&& final(engine).applied_view() == old(engine).applied_view().union(b.to_set())
                    &&& final(engine).store_view() == apply_seq(
                        self.commands@,
                        old(engine).store_view(),
                        b,
                    )
                },
            match res {
                Ok(resp) => final(engine).store_view().dom().contains(read_req.key@)
                    && final(engine).store_view()[read_req.key@] == resp.value as int,
                Err(e) => !final(engine).store_view().dom().contains(read_req.key@)
                    && e is UnknownKey,
            },
    {
        let batch = engine.execute(&self.commands);
        proof {
            assert(valid_batch(self.commands@, old(engine).applied_view(), batch@));
        }
        match engine.get(&read_req.key) {
            Some(v) => Ok(ReadResponse { value: v }),
            None => Err(ProtocolError::UnknownKey),
        }
    }

    /// Sequence assignment: `1 + max(seq(d) for d in deps)`, or 1 when
    /// `deps` is empty. The sole source of sequence numbers; the returned
    /// value exceeds the sequence number of every listed dependency.
    pub fn find_next_seq(&self, deps: &Vec<InstanceRef>) -> (v: usize)
        requires
            self.wf(),
            seqs_bounded(self.commands@),
            forall|i: int| 0 <= i < deps@.len() ==> self.commands@.dom().contains(
                #[trigger] deps@[i],
            ),
        ensures
            is_next_seq(self.commands@, deps@.to_set(), v as nat),
    {
        let n = deps.len();
        let mut acc: usize = 0;
        let mut i: usize = 0;
        while i < n
            invariant
                self.wf(),
                seqs_bounded(self.commands@),
                n == deps@.len(),
                forall|j: int| 0 <= j < deps@.len() ==> self.commands@.dom().contains(
                    #[trigger] deps@[j],
                ),
                0 <= i <= n,
                acc < usize::MAX,
                forall|j: int| 0 <= j < i ==> self.commands@[#[trigger] deps@[j]].seq <= acc as nat,
                acc == 0 || exists|j: int| 0 <= j < i
                    && self.commands@[#[trigger] deps@[j]].seq == acc as nat,
            decreases n - i,
        {
            let d = deps[i];
            match self.commands.get(d) {
                Ok(inst) => {
                    if inst.seq > acc {
                        acc = inst.seq;
                        proof {
                            assert(self.commands@[deps@[i as int]].seq == acc as nat);
                        }
                    }
                }
                Err(_) => {
                    proof {
                        assert(self.commands@.dom().contains(deps@[i as int]));
                    }
                    // every listed dependency is in the log
                    return vstd::pervasive::unreached();
                }
            }
            i = i + 1;
        }
        proof {
            assert forall|r: InstanceRef| deps@.to_set().contains(r)
                && #[trigger] self.commands@.dom().contains(r)
                implies self.commands@[r].seq < (acc + 1) as nat by {
                let j = choose|j: int| 0 <= j < deps@.len() && deps@[j] == r;
                assert(self.commands@[deps@[j]].seq <= acc as nat);
            }
            if acc != 0 {
                let j = choose|j: int| 0 <= j < n && self.commands@[#[trigger] deps@[j]].seq
                    == acc as nat;
                assert(deps@.to_set().contains(deps@[j]));
            }
        }
        acc + 1
    }
}

} // verus!
