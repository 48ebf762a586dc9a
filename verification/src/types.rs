//! Shared data model: replica identities, commands, instance slots, the
//! per-instance lifecycle states, and the message payloads exchanged during
//! the PreAccept / Accept / Commit phases.

use vstd::prelude::*;

verus! {

/// Identity of one of the fixed replicas.
#[derive(Clone, Copy, PartialEq, Eq, Structural, Debug)]
pub struct ReplicaId(pub usize);

/// A client write: assigns `value` to `key`.
#[derive(Clone)]
pub struct WriteRequest {
    pub key: String,
    pub value: i32,
}

/// Reply to a client write: whether the command committed.
#[derive(Clone, Copy, PartialEq, Eq, Structural)]
pub struct WriteResponse {
    pub committed: bool,
}

/// A client read of one key.
#[derive(Clone)]
pub struct ReadRequest {
    pub key: String,
}

/// Reply to a client read.
#[derive(Clone, Copy, PartialEq, Eq, Structural)]
pub struct ReadResponse {
    pub value: i32,
}

/// Globally unique slot of one command instance: the replica that leads the
/// instance, and the slot in that replica's row of the log.
#[derive(Clone, Copy, PartialEq, Eq, Structural, Debug)]
pub struct InstanceRef {
    pub replica: ReplicaId,
    pub slot: usize,
}

/// Lifecycle stage of an instance. States only ever advance:
/// PreAccepted -> Accepted -> Committed, or PreAccepted -> Committed on the
/// fast path; Committed is terminal.
#[derive(Clone, Copy, PartialEq, Eq, Structural)]
pub enum CommandState {
    PreAccepted,
    Accepted,
    Committed,
}

/// Envelope exchanged between replicas during a phase: the command, its
/// candidate sequence number and dependency set, and the slot it occupies.
pub struct Payload {
    pub command: WriteRequest,
    pub seq: usize,
    pub dependencies: Vec<InstanceRef>,
    pub instance: InstanceRef,
}

/// First-round request from the leader of an instance to its peers.
pub struct PreAccept(pub Payload);

/// Second-round (slow path) request fixing the final seq and dependencies.
pub struct Accept(pub Payload);

/// Final notification that an instance is decided.
pub struct Commit(pub Payload);

/// A peer's reply to a PreAccept. By convention its `dependencies` field
/// carries only the *difference*: interference the peer discovered that the
/// leader had not already listed. The leader computes the union itself.
pub struct PreAcceptOK(pub Payload);

/// A peer's acknowledgement that an Accept was recorded.
pub struct AcceptOK {
    pub command: WriteRequest,
    pub instance: InstanceRef,
}

/// A command instance occupying one slot of the log.
pub struct Instance {
    pub command: WriteRequest,
    pub seq: usize,
    pub dependencies: Vec<InstanceRef>,
    pub state: CommandState,
}

/// Outcome of folding the PreAcceptOK replies: either the fast path (commit
/// at once) or the slow path (a second, Accept, round is needed).
pub enum Path {
    Slow(Accept),
    Fast(WriteResponse, Commit),
}

/// Errors of the consensus core.
#[derive(Clone, Copy, PartialEq, Eq, Structural, Debug)]
pub enum ProtocolError {
    /// A required instance slot is not in the log: the replica is missing a
    /// dependency and must defer until it is learned.
    NotFound,
    /// A correctness bug, fatal to the operation and never swallowed: a slot
    /// would be rebound to a different command, or a message names a slot in
    /// this replica's own row that only this replica may allocate.
    ProtocolInvariantViolation,
    /// A client asked to read a key that no committed write has touched.
    UnknownKey,
}

/// What a leader waiting on PreAcceptOK replies does next: with fewer than
/// the required quorum of replies it widens the poll (or keeps waiting) —
/// it never concludes a path; with the quorum in hand it concludes.
#[derive(Clone, Copy, PartialEq, Eq, Structural, Debug)]
pub enum PollDecision {
    Widen,
    Conclude,
}

/// Mathematical model of a command: its key as a character sequence and its
/// value as an unbounded integer.
pub ghost struct CommandModel {
    pub key: Seq<char>,
    pub value: int,
}

impl View for WriteRequest {
    type V = CommandModel;

    open spec fn view(&self) -> CommandModel {
        CommandModel { key: self.key@, value: self.value as int }
    }
}

impl WriteRequest {
    /// A copy of the command with the same model, for storing the command
    /// in the log while the command itself travels on in a message.
    pub fn duplicate(&self) -> (c: WriteRequest)
        ensures
            c@ == self@,
    {
        WriteRequest { key: self.key.clone(), value: self.value }
    }
}

/// Mathematical model of an instance: dependencies as a set, the sequence
/// number as an unbounded natural.
pub ghost struct InstanceModel {
    pub command: CommandModel,
    pub seq: nat,
    pub deps: Set<InstanceRef>,
    pub state: CommandState,
}

impl View for Instance {
    type V = InstanceModel;

    open spec fn view(&self) -> InstanceModel {
        InstanceModel {
            command: self.command@,
            seq: self.seq as nat,
            deps: self.dependencies@.to_set(),
            state: self.state,
        }
    }
}

/// Mathematical model of a phase envelope.
pub ghost struct PayloadModel {
    pub command: CommandModel,
    pub seq: nat,
    pub deps: Set<InstanceRef>,
    pub instance: InstanceRef,
}

impl View for Payload {
    type V = PayloadModel;

    open spec fn view(&self) -> PayloadModel {
        PayloadModel {
            command: self.command@,
            seq: self.seq as nat,
            deps: self.dependencies@.to_set(),
            instance: self.instance,
        }
    }
}

impl Payload {
    /// A copy of the envelope with the same model, for broadcasting one
    /// decision to several replicas.
    pub fn duplicate(&self) -> (c: Payload)
        ensures
            c@ == self@,
            c.dependencies@ == self.dependencies@,
            c.seq == self.seq,
            c.instance == self.instance,
            c.command@ == self.command@,
    {
        let mut deps: Vec<InstanceRef> = Vec::new();
        let n = self.dependencies.len();
        let mut i: usize = 0;
        while i < n
            invariant
                n == self.dependencies@.len(),
                0 <= i <= n,
                deps@ == self.dependencies@.take(i as int),
            decreases n - i,
        {
            deps.push(self.dependencies[i]);
            proof {
                assert(deps@ =~= self.dependencies@.take(i + 1));
            }
            i = i + 1;
        }
        proof {
            assert(deps@ =~= self.dependencies@);
        }
        Payload {
            command: self.command.duplicate(),
            seq: self.seq,
            dependencies: deps,
            instance: self.instance,
        }
    }
}

} // verus!
