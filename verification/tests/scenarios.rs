//! End-to-end protocol runs, with the test driver standing in for the
//! transport: it carries each message from the function that built it to
//! the handler of the addressed replica.

use epaxos::exec::ExecutionEngine;
use epaxos::replica::Replica;
use epaxos::types::{Path, PreAccept, ReadRequest, ReplicaId, WriteRequest};

fn write(key: &str, value: i32) -> WriteRequest {
    WriteRequest { key: key.to_string(), value }
}

/// A write with no prior history commits on the fast path: empty
/// dependencies, sequence number 1, two agreeing replies, one round.
#[test]
fn lone_write_commits_on_the_fast_path() {
    let mut r0 = Replica::new(ReplicaId(0));
    let mut r1 = Replica::new(ReplicaId(1));
    let mut r2 = Replica::new(ReplicaId(2));

    let pa = r0.write1(write("x", 1));
    assert_eq!(pa.0.seq, 1);
    assert!(pa.0.dependencies.is_empty());

    let reply1 = r1.pre_accept_(PreAccept(pa.0.duplicate())).unwrap();
    let reply2 = r2.pre_accept_(PreAccept(pa.0.duplicate())).unwrap();
    assert_eq!(reply1.0.seq, 1);
    assert!(reply1.0.dependencies.is_empty());
    assert_eq!(reply2.0.seq, 1);
    assert!(reply2.0.dependencies.is_empty());

    let commit = match r0.write2(pa, vec![reply1, reply2], 2) {
        Path::Fast(resp, commit) => {
            assert!(resp.committed);
            commit
        }
        Path::Slow(_) => panic!("agreeing replies must take the fast path"),
    };
    r1.commit_(epaxos::types::Commit(commit.0.duplicate())).unwrap();
    r2.commit_(commit).unwrap();

    let mut engine = ExecutionEngine::new();
    let res = r0.read_(ReadRequest { key: "x".to_string() }, &mut engine);
    assert_eq!(res.unwrap().value, 1);
}

/// Two concurrent writes to one key at different replicas: each PreAccept
/// handler finds the other as interference, at least one reply carries a
/// non-empty difference, both take the slow path, both commit with mutual
/// dependencies, and the execution engine resolves the cycle identically
/// on both replicas.
#[test]
fn concurrent_conflicting_writes_converge() {
    let mut r0 = Replica::new(ReplicaId(0));
    let mut r1 = Replica::new(ReplicaId(1));

    // both leaders propose before either has seen the other
    let pa_a = r0.write1(write("x", 1));
    let pa_b = r1.write1(write("x", 2));
    let a = pa_a.0.instance;
    let b = pa_b.0.instance;

    // each handles the other's PreAccept and reports the conflict
    let reply_for_a = r1.pre_accept_(PreAccept(pa_a.0.duplicate())).unwrap();
    let reply_for_b = r0.pre_accept_(PreAccept(pa_b.0.duplicate())).unwrap();
    assert_eq!(reply_for_a.0.dependencies, vec![b]);
    assert_eq!(reply_for_a.0.seq, 2);
    assert_eq!(reply_for_b.0.dependencies, vec![a]);
    assert_eq!(reply_for_b.0.seq, 2);

    // both leaders fold the dissenting reply: slow path for both
    let accept_a = match r0.write2(pa_a, vec![reply_for_a], 1) {
        Path::Slow(accept) => accept,
        Path::Fast(..) => panic!("a conflicting reply must force the slow path"),
    };
    let accept_b = match r1.write2(pa_b, vec![reply_for_b], 1) {
        Path::Slow(accept) => accept,
        Path::Fast(..) => panic!("a conflicting reply must force the slow path"),
    };
    assert_eq!(accept_a.0.seq, 2);
    assert_eq!(accept_a.0.dependencies, vec![b]);
    assert_eq!(accept_b.0.seq, 2);
    assert_eq!(accept_b.0.dependencies, vec![a]);

    // the accept round, then commit everywhere
    let payload_a = accept_a.0.duplicate();
    r1.accept_(accept_a).unwrap();
    let payload_b = accept_b.0.duplicate();
    r0.accept_(accept_b).unwrap();
    let (resp_a, commit_a) = r0.leader_commit(payload_a);
    assert!(resp_a.committed);
    r1.commit_(commit_a).unwrap();
    let (resp_b, commit_b) = r1.leader_commit(payload_b);
    assert!(resp_b.committed);
    r0.commit_(commit_b).unwrap();

    // both logs now hold the cycle: a depends on b, b depends on a
    assert_eq!(r0.commands.get(a).unwrap().dependencies, vec![b]);
    assert_eq!(r0.commands.get(b).unwrap().dependencies, vec![a]);
    assert_eq!(r1.commands.get(a).unwrap().dependencies, vec![b]);
    assert_eq!(r1.commands.get(b).unwrap().dependencies, vec![a]);

    // each replica executes its own log: same order, same final value
    let mut engine0 = ExecutionEngine::new();
    let mut engine1 = ExecutionEngine::new();
    let batch0 = engine0.execute(&r0.commands);
    let batch1 = engine1.execute(&r1.commands);
    assert_eq!(batch0, vec![a, b]);
    assert_eq!(batch0, batch1);
    assert_eq!(engine0.get(&"x".to_string()), Some(2));
    assert_eq!(engine1.get(&"x".to_string()), Some(2));
}
