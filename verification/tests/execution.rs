//! The execution engine: apply order, exactly-once application, deferral on
//! missing or uncommitted dependencies, and the read path.

use epaxos::exec::ExecutionEngine;
use epaxos::replica::Replica;
use epaxos::types::{
    Commit, InstanceRef, Payload, ProtocolError, ReadRequest, ReplicaId, WriteRequest,
};

fn write(key: &str, value: i32) -> WriteRequest {
    WriteRequest { key: key.to_string(), value }
}

fn slot(replica: usize, slot: usize) -> InstanceRef {
    InstanceRef { replica: ReplicaId(replica), slot }
}

fn payload(key: &str, value: i32, seq: usize, deps: Vec<InstanceRef>, inst: InstanceRef) -> Payload {
    Payload { command: write(key, value), seq, dependencies: deps, instance: inst }
}

#[test]
fn execute_applies_committed_instances_in_seq_order() {
    let mut r = Replica::new(ReplicaId(9));
    r.commit_(Commit(payload("x", 10, 2, vec![slot(0, 1)], slot(0, 2)))).unwrap();
    r.commit_(Commit(payload("x", 5, 1, Vec::new(), slot(0, 1)))).unwrap();
    let mut engine = ExecutionEngine::new();
    let batch = engine.execute(&r.commands);
    // ascending seq: the seq-1 write goes first, the seq-2 write wins
    assert_eq!(batch, vec![slot(0, 1), slot(0, 2)]);
    assert_eq!(engine.get(&"x".to_string()), Some(10));
}

#[test]
fn execute_orders_a_cycle_by_replica_then_slot() {
    // two instances with equal seq and mutual dependencies: a cycle,
    // applied as one group in (replica, slot) order
    let mut r = Replica::new(ReplicaId(9));
    r.commit_(Commit(payload("x", 2, 2, vec![slot(0, 1)], slot(1, 1)))).unwrap();
    r.commit_(Commit(payload("x", 1, 2, vec![slot(1, 1)], slot(0, 1)))).unwrap();
    let mut engine = ExecutionEngine::new();
    let batch = engine.execute(&r.commands);
    assert_eq!(batch, vec![slot(0, 1), slot(1, 1)]);
    assert_eq!(engine.get(&"x".to_string()), Some(2));
}

#[test]
fn execute_skips_already_applied_instances() {
    let mut r = Replica::new(ReplicaId(9));
    r.commit_(Commit(payload("x", 7, 1, Vec::new(), slot(0, 1)))).unwrap();
    let mut engine = ExecutionEngine::new();
    let first = engine.execute(&r.commands);
    assert_eq!(first, vec![slot(0, 1)]);
    // a second run over the unchanged log applies nothing
    let second = engine.execute(&r.commands);
    assert!(second.is_empty());
    assert_eq!(engine.get(&"x".to_string()), Some(7));
}

#[test]
fn duplicate_commit_does_not_reapply() {
    let mut r = Replica::new(ReplicaId(9));
    let msg = || Commit(payload("x", 7, 1, Vec::new(), slot(0, 1)));
    r.commit_(msg()).unwrap();
    let mut engine = ExecutionEngine::new();
    assert_eq!(engine.execute(&r.commands).len(), 1);
    // the same Commit arrives again: log and store stay as they are
    r.commit_(msg()).unwrap();
    assert!(engine.execute(&r.commands).is_empty());
    assert_eq!(engine.get(&"x".to_string()), Some(7));
}

#[test]
fn execute_defers_on_a_missing_dependency() {
    let mut r = Replica::new(ReplicaId(9));
    // committed, but its dependency is not in the log yet
    r.commit_(Commit(payload("x", 3, 2, vec![slot(1, 4)], slot(0, 1)))).unwrap();
    let mut engine = ExecutionEngine::new();
    assert!(engine.execute(&r.commands).is_empty());
    assert_eq!(engine.get(&"x".to_string()), None);
    // the dependency is learned and committed: both now go through
    r.commit_(Commit(payload("x", 9, 1, Vec::new(), slot(1, 4)))).unwrap();
    let batch = engine.execute(&r.commands);
    assert_eq!(batch, vec![slot(1, 4), slot(0, 1)]);
    assert_eq!(engine.get(&"x".to_string()), Some(3));
}

#[test]
fn execute_defers_on_an_uncommitted_dependency() {
    let mut r = Replica::new(ReplicaId(0));
    // the dependency is only PreAccepted so far
    let pa = r.write1(write("x", 1));
    assert_eq!(pa.0.instance, slot(0, 1));
    r.commit_(Commit(payload("x", 2, 2, vec![slot(0, 1)], slot(1, 1)))).unwrap();
    let mut engine = ExecutionEngine::new();
    assert!(engine.execute(&r.commands).is_empty());
    // once it commits, both apply
    r.commit_(Commit(payload("x", 1, 1, Vec::new(), slot(0, 1)))).unwrap();
    let batch = engine.execute(&r.commands);
    assert_eq!(batch, vec![slot(0, 1), slot(1, 1)]);
    assert_eq!(engine.get(&"x".to_string()), Some(2));
}

#[test]
fn read_reports_an_untouched_key_unknown() {
    let r = Replica::new(ReplicaId(0));
    let mut engine = ExecutionEngine::new();
    let res = r.read_(ReadRequest { key: "x".to_string() }, &mut engine);
    assert!(matches!(res, Err(ProtocolError::UnknownKey)));
}

#[test]
fn read_waits_for_committed_but_unapplied_writes() {
    let mut r = Replica::new(ReplicaId(9));
    r.commit_(Commit(payload("x", 42, 1, Vec::new(), slot(0, 1)))).unwrap();
    let mut engine = ExecutionEngine::new();
    // nothing applied yet: the read itself must apply the committed write
    let res = r.read_(ReadRequest { key: "x".to_string() }, &mut engine);
    assert_eq!(res.unwrap().value, 42);
}

#[test]
fn execute_applies_a_cycle_with_unequal_seqs() {
    // a dependency cycle whose members carry different sequence numbers
    // (a third, earlier conflict raised one of them): still one group,
    // applied in ascending (seq, replica, slot) order
    let mut r = Replica::new(ReplicaId(9));
    r.commit_(Commit(payload("x", 1, 2, vec![slot(1, 1)], slot(0, 1)))).unwrap();
    r.commit_(Commit(payload("x", 2, 3, vec![slot(0, 1)], slot(1, 1)))).unwrap();
    let mut engine = ExecutionEngine::new();
    let batch = engine.execute(&r.commands);
    assert_eq!(batch, vec![slot(0, 1), slot(1, 1)]);
    assert_eq!(engine.get(&"x".to_string()), Some(2));
}

#[test]
fn execute_holds_back_a_chain_into_a_deferred_instance() {
    // (2,1) depends on a cycle member; the cycle's other member is not yet
    // committed, so the cycle and everything depending on it wait
    let mut r = Replica::new(ReplicaId(9));
    r.commit_(Commit(payload("x", 1, 2, vec![slot(1, 1)], slot(0, 1)))).unwrap();
    r.commit_(Commit(payload("x", 3, 4, vec![slot(0, 1)], slot(2, 1)))).unwrap();
    let mut engine = ExecutionEngine::new();
    assert!(engine.execute(&r.commands).is_empty());
    // the missing cycle member commits: all three go through in order
    r.commit_(Commit(payload("x", 2, 3, vec![slot(0, 1)], slot(1, 1)))).unwrap();
    let batch = engine.execute(&r.commands);
    assert_eq!(batch, vec![slot(0, 1), slot(1, 1), slot(2, 1)]);
    assert_eq!(engine.get(&"x".to_string()), Some(3));
}
