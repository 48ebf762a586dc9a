//! The leader and peer paths of the consensus engine: sequence and
//! dependency assignment, the fast/slow-path choice, and the log errors.

use epaxos::log::Commands;
use epaxos::replica::Replica;
use epaxos::types::{
    Accept, CommandState, Commit, Instance, InstanceRef, Payload, PollDecision, PreAccept,
    PreAcceptOK, ProtocolError, ReplicaId, WriteRequest,
};

fn write(key: &str, value: i32) -> WriteRequest {
    WriteRequest { key: key.to_string(), value }
}

fn slot(replica: usize, slot: usize) -> InstanceRef {
    InstanceRef { replica: ReplicaId(replica), slot }
}

fn payload(key: &str, value: i32, seq: usize, deps: Vec<InstanceRef>, inst: InstanceRef) -> Payload {
    Payload { command: write(key, value), seq, dependencies: deps, instance: inst }
}

fn copy_payload(p: &Payload) -> Payload {
    Payload {
        command: p.command.clone(),
        seq: p.seq,
        dependencies: p.dependencies.clone(),
        instance: p.instance,
    }
}

#[test]
fn write1_with_no_history_gets_seq_one_and_no_deps() {
    let mut r0 = Replica::new(ReplicaId(0));
    let pa = r0.write1(write("x", 1));
    assert_eq!(pa.0.seq, 1);
    assert!(pa.0.dependencies.is_empty());
    assert_eq!(pa.0.instance, slot(0, 1));
    assert_eq!(r0.instance_number, 1);
    let inst = r0.commands.get(slot(0, 1)).unwrap();
    assert_eq!(inst.seq, 1);
    assert_eq!(inst.command.key, "x");
    assert_eq!(inst.command.value, 1);
    assert!(matches!(inst.state, CommandState::PreAccepted));
}

#[test]
fn consecutive_writes_on_one_key_chain_their_seqs() {
    let mut r0 = Replica::new(ReplicaId(0));
    let first = r0.write1(write("x", 1));
    assert_eq!(first.0.seq, 1);
    let second = r0.write1(write("x", 2));
    assert_eq!(second.0.seq, 2);
    assert_eq!(second.0.dependencies, vec![slot(0, 1)]);
    let third = r0.write1(write("y", 9));
    assert_eq!(third.0.seq, 1);
    assert!(third.0.dependencies.is_empty());
}

#[test]
fn pre_accept_with_no_interference_echoes_seq_and_empty_diff() {
    let mut r1 = Replica::new(ReplicaId(1));
    let reply = r1.pre_accept_(PreAccept(payload("x", 1, 1, Vec::new(), slot(0, 1)))).unwrap();
    assert_eq!(reply.0.seq, 1);
    assert!(reply.0.dependencies.is_empty());
    assert_eq!(reply.0.instance, slot(0, 1));
    let inst = r1.commands.get(slot(0, 1)).unwrap();
    assert!(matches!(inst.state, CommandState::PreAccepted));
    assert_eq!(inst.seq, 1);
}

#[test]
fn pre_accept_raises_seq_and_returns_only_the_difference() {
    let mut r1 = Replica::new(ReplicaId(1));
    // replica 1 already leads its own write to the same key
    let own = r1.write1(write("x", 2));
    assert_eq!(own.0.instance, slot(1, 1));
    // now replica 0's concurrent proposal for "x" arrives
    let reply = r1.pre_accept_(PreAccept(payload("x", 1, 1, Vec::new(), slot(0, 1)))).unwrap();
    assert_eq!(reply.0.seq, 2);
    assert_eq!(reply.0.dependencies, vec![slot(1, 1)]);
    // the stored instance carries the union, not the difference
    let inst = r1.commands.get(slot(0, 1)).unwrap();
    assert_eq!(inst.seq, 2);
    assert_eq!(inst.dependencies, vec![slot(1, 1)]);
}

#[test]
fn pre_accept_does_not_return_deps_the_leader_listed() {
    let mut r1 = Replica::new(ReplicaId(1));
    let own = r1.write1(write("x", 2));
    assert_eq!(own.0.instance, slot(1, 1));
    // the leader already lists replica 1's instance: the difference is empty
    let reply = r1.pre_accept_(PreAccept(payload("x", 1, 2, vec![slot(1, 1)], slot(0, 1)))).unwrap();
    assert_eq!(reply.0.seq, 2);
    assert!(reply.0.dependencies.is_empty());
}

#[test]
fn write2_takes_fast_path_iff_every_reply_agrees() {
    // all replies agree: fast path
    let mut r0 = Replica::new(ReplicaId(0));
    let pa = r0.write1(write("x", 1));
    let agree1 = PreAcceptOK(payload("x", 1, 1, Vec::new(), slot(0, 1)));
    let agree2 = PreAcceptOK(payload("x", 1, 1, Vec::new(), slot(0, 1)));
    match r0.write2(pa, vec![agree1, agree2], 2) {
        epaxos::types::Path::Fast(resp, commit) => {
            assert!(resp.committed);
            assert_eq!(commit.0.seq, 1);
            assert!(commit.0.dependencies.is_empty());
        }
        epaxos::types::Path::Slow(_) => panic!("expected the fast path"),
    }
    let inst = r0.commands.get(slot(0, 1)).unwrap();
    assert!(matches!(inst.state, CommandState::Committed));

    // one dissenting reply (same seq, non-empty difference): slow path
    let mut r0 = Replica::new(ReplicaId(0));
    let pa = r0.write1(write("x", 1));
    let agree = PreAcceptOK(payload("x", 1, 1, Vec::new(), slot(0, 1)));
    let dissent = PreAcceptOK(payload("x", 1, 1, vec![slot(1, 1)], slot(0, 1)));
    match r0.write2(pa, vec![agree, dissent], 2) {
        epaxos::types::Path::Slow(_) => {}
        epaxos::types::Path::Fast(..) => panic!("a dissenting reply must force the slow path"),
    }
    let inst = r0.commands.get(slot(0, 1)).unwrap();
    assert!(matches!(inst.state, CommandState::Accepted));
}

#[test]
fn write2_slow_path_takes_max_seq_and_union_of_deps() {
    let mut r0 = Replica::new(ReplicaId(0));
    let pa = r0.write1(write("x", 1));
    let reply1 = PreAcceptOK(payload("x", 1, 3, vec![slot(1, 1)], slot(0, 1)));
    let reply2 = PreAcceptOK(payload("x", 1, 2, vec![slot(2, 5)], slot(0, 1)));
    match r0.write2(pa, vec![reply1, reply2], 2) {
        epaxos::types::Path::Slow(Accept(p)) => {
            assert_eq!(p.seq, 3);
            let mut deps = p.dependencies.clone();
            deps.sort_by_key(|r| (r.replica.0, r.slot));
            assert_eq!(deps, vec![slot(1, 1), slot(2, 5)]);
            assert_eq!(p.instance, slot(0, 1));
        }
        epaxos::types::Path::Fast(..) => panic!("expected the slow path"),
    }
}

#[test]
fn write2_slow_path_result_ignores_reply_order() {
    let build = |reversed: bool| {
        let mut r0 = Replica::new(ReplicaId(0));
        let pa = r0.write1(write("x", 1));
        let a = PreAcceptOK(payload("x", 1, 3, vec![slot(1, 1)], slot(0, 1)));
        let b = PreAcceptOK(payload("x", 1, 2, vec![slot(2, 5)], slot(0, 1)));
        let replies = if reversed { vec![b, a] } else { vec![a, b] };
        match r0.write2(pa, replies, 2) {
            epaxos::types::Path::Slow(Accept(p)) => {
                let mut deps = p.dependencies;
                deps.sort_by_key(|r| (r.replica.0, r.slot));
                (p.seq, deps)
            }
            epaxos::types::Path::Fast(..) => panic!("expected the slow path"),
        }
    };
    assert_eq!(build(false), build(true));
}

#[test]
fn accept_overwrites_with_the_leaders_decision() {
    let mut r1 = Replica::new(ReplicaId(1));
    r1.pre_accept_(PreAccept(payload("x", 1, 1, Vec::new(), slot(0, 1)))).unwrap();
    let ack = r1.accept_(Accept(payload("x", 1, 4, vec![slot(1, 1)], slot(0, 1)))).unwrap();
    assert_eq!(ack.instance, slot(0, 1));
    assert_eq!(ack.command.key, "x");
    let inst = r1.commands.get(slot(0, 1)).unwrap();
    assert!(matches!(inst.state, CommandState::Accepted));
    assert_eq!(inst.seq, 4);
    assert_eq!(inst.dependencies, vec![slot(1, 1)]);
}

#[test]
fn commit_records_the_instance_committed() {
    let mut r1 = Replica::new(ReplicaId(1));
    r1.commit_(Commit(payload("x", 1, 2, vec![slot(1, 1)], slot(0, 1)))).unwrap();
    let inst = r1.commands.get(slot(0, 1)).unwrap();
    assert!(matches!(inst.state, CommandState::Committed));
    assert_eq!(inst.seq, 2);
}

#[test]
fn commit_is_idempotent_on_the_log() {
    let mut r1 = Replica::new(ReplicaId(1));
    let msg = payload("x", 1, 2, vec![slot(1, 1)], slot(0, 1));
    r1.commit_(Commit(copy_payload(&msg))).unwrap();
    let once = {
        let inst = r1.commands.get(slot(0, 1)).unwrap();
        (inst.command.key.clone(), inst.command.value, inst.seq, inst.dependencies.clone())
    };
    let len_once = r1.commands.len();
    r1.commit_(Commit(copy_payload(&msg))).unwrap();
    let inst = r1.commands.get(slot(0, 1)).unwrap();
    assert_eq!(inst.command.key, once.0);
    assert_eq!(inst.command.value, once.1);
    assert_eq!(inst.seq, once.2);
    assert_eq!(inst.dependencies, once.3);
    assert!(matches!(inst.state, CommandState::Committed));
    assert_eq!(r1.commands.len(), len_once);
}

#[test]
fn leader_commit_confirms_and_broadcasts() {
    let mut r0 = Replica::new(ReplicaId(0));
    let (resp, commit) = r0.leader_commit(payload("x", 1, 3, vec![slot(1, 1)], slot(0, 1)));
    assert!(resp.committed);
    assert_eq!(commit.0.seq, 3);
    assert_eq!(commit.0.instance, slot(0, 1));
    let inst = r0.commands.get(slot(0, 1)).unwrap();
    assert!(matches!(inst.state, CommandState::Committed));
}

#[test]
fn log_rejects_duplicate_insert_and_reports_missing_slots() {
    let mut log = Commands::new();
    assert!(matches!(log.get(slot(0, 1)), Err(ProtocolError::NotFound)));
    let inst = Instance {
        command: write("x", 1),
        seq: 1,
        dependencies: Vec::new(),
        state: CommandState::PreAccepted,
    };
    assert!(log.insert(slot(0, 1), inst).is_ok());
    let again = Instance {
        command: write("x", 5),
        seq: 2,
        dependencies: Vec::new(),
        state: CommandState::PreAccepted,
    };
    assert!(matches!(log.insert(slot(0, 1), again), Err(ProtocolError::ProtocolInvariantViolation)));
    // the failed insert left the first command in place
    assert_eq!(log.get(slot(0, 1)).unwrap().command.value, 1);
    assert!(matches!(
        log.set_state(slot(2, 2), CommandState::Committed),
        Err(ProtocolError::NotFound)
    ));
    assert!(log.set_state(slot(0, 1), CommandState::Committed).is_ok());
    assert!(matches!(log.get(slot(0, 1)).unwrap().state, CommandState::Committed));
}

#[test]
fn pre_accept_refuses_to_rebind_a_slot_to_a_different_command() {
    let mut r1 = Replica::new(ReplicaId(1));
    r1.pre_accept_(PreAccept(payload("x", 1, 1, Vec::new(), slot(0, 1)))).unwrap();
    // same slot, different command: a protocol invariant violation
    let res = r1.pre_accept_(PreAccept(payload("y", 7, 1, Vec::new(), slot(0, 1))));
    assert!(matches!(res, Err(ProtocolError::ProtocolInvariantViolation)));
    // the slot still holds the first command
    let inst = r1.commands.get(slot(0, 1)).unwrap();
    assert_eq!(inst.command.key, "x");
    assert_eq!(inst.command.value, 1);
}

#[test]
fn handlers_refuse_a_message_for_an_unallocated_own_slot() {
    // only replica 1 may allocate slots of its own row
    let mut r1 = Replica::new(ReplicaId(1));
    let res = r1.pre_accept_(PreAccept(payload("x", 1, 1, Vec::new(), slot(1, 1))));
    assert!(matches!(res, Err(ProtocolError::ProtocolInvariantViolation)));
    let res = r1.accept_(Accept(payload("x", 1, 1, Vec::new(), slot(1, 1))));
    assert!(matches!(res, Err(ProtocolError::ProtocolInvariantViolation)));
    let res = r1.commit_(Commit(payload("x", 1, 1, Vec::new(), slot(1, 1))));
    assert!(matches!(res, Err(ProtocolError::ProtocolInvariantViolation)));
    assert!(matches!(r1.commands.get(slot(1, 1)), Err(ProtocolError::NotFound)));
}

#[test]
fn accept_does_not_regress_a_committed_instance() {
    let mut r1 = Replica::new(ReplicaId(1));
    r1.commit_(Commit(payload("x", 1, 3, vec![slot(2, 1)], slot(0, 1)))).unwrap();
    // a delayed Accept for the decided slot: acknowledged, log untouched
    let ack = r1.accept_(Accept(payload("x", 1, 2, Vec::new(), slot(0, 1)))).unwrap();
    assert_eq!(ack.instance, slot(0, 1));
    let inst = r1.commands.get(slot(0, 1)).unwrap();
    assert!(matches!(inst.state, CommandState::Committed));
    assert_eq!(inst.seq, 3);
    assert_eq!(inst.dependencies, vec![slot(2, 1)]);
}

#[test]
fn pre_accept_does_not_regress_a_decided_instance() {
    let mut r1 = Replica::new(ReplicaId(1));
    r1.commit_(Commit(payload("x", 1, 3, Vec::new(), slot(0, 1)))).unwrap();
    // a stale PreAccept re-delivery after the commit: answered, log untouched
    let reply = r1.pre_accept_(PreAccept(payload("x", 1, 1, Vec::new(), slot(0, 1)))).unwrap();
    assert_eq!(reply.0.seq, 4);
    let inst = r1.commands.get(slot(0, 1)).unwrap();
    assert!(matches!(inst.state, CommandState::Committed));
    assert_eq!(inst.seq, 3);
}

#[test]
fn write1_never_reuses_a_slot() {
    let mut r0 = Replica::new(ReplicaId(0));
    let first = r0.write1(write("x", 1));
    let second = r0.write1(write("y", 2));
    assert_eq!(first.0.instance, slot(0, 1));
    assert_eq!(second.0.instance, slot(0, 2));
    assert_eq!(r0.commands.get(slot(0, 1)).unwrap().command.key, "x");
    assert_eq!(r0.commands.get(slot(0, 2)).unwrap().command.key, "y");
}

#[test]
fn poll_decision_concludes_exactly_at_quorum() {
    assert!(matches!(Replica::poll_decision(0, 2), PollDecision::Widen));
    assert!(matches!(Replica::poll_decision(1, 2), PollDecision::Widen));
    assert!(matches!(Replica::poll_decision(2, 2), PollDecision::Conclude));
    assert!(matches!(Replica::poll_decision(3, 2), PollDecision::Conclude));
}
