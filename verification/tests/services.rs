//! The service definitions: dispatching inbound requests to a handler.

use epaxos::dispatch::{
    External, ExternalReply, ExternalRequest, ExternalServer, InternalReply, InternalRequest,
    InternalServer,
};
use epaxos::replica::Replica;
use epaxos::types::{
    Accept, CommandState, Commit, InstanceRef, Payload, PreAccept, ProtocolError, ReadRequest,
    ReadResponse, ReplicaId, WriteRequest, WriteResponse,
};

fn write(key: &str, value: i32) -> WriteRequest {
    WriteRequest { key: key.to_string(), value }
}

fn slot(replica: usize, slot: usize) -> InstanceRef {
    InstanceRef { replica: ReplicaId(replica), slot }
}

fn payload(key: &str, value: i32, seq: usize, deps: Vec<InstanceRef>, inst: InstanceRef) -> Payload {
    Payload { command: write(key, value), seq, dependencies: deps, instance: inst }
}

#[test]
fn internal_server_dispatches_each_phase() {
    let mut server = InternalServer::new_service_def(Replica::new(ReplicaId(1)));

    let reply = server.handle(InternalRequest::PreAccept(PreAccept(payload(
        "x",
        1,
        1,
        Vec::new(),
        slot(0, 1),
    ))));
    match reply {
        InternalReply::PreAcceptOK(ok) => {
            assert_eq!(ok.0.seq, 1);
            assert!(ok.0.dependencies.is_empty());
        }
        _ => panic!("a PreAccept must be answered with a PreAcceptOK"),
    }

    let reply = server.handle(InternalRequest::Accept(Accept(payload(
        "x",
        1,
        2,
        Vec::new(),
        slot(0, 1),
    ))));
    match reply {
        InternalReply::AcceptOK(ok) => assert_eq!(ok.instance, slot(0, 1)),
        _ => panic!("an Accept must be answered with an AcceptOK"),
    }

    let reply = server.handle(InternalRequest::Commit(Commit(payload(
        "x",
        1,
        2,
        Vec::new(),
        slot(0, 1),
    ))));
    assert!(matches!(reply, InternalReply::Empty));
    assert!(matches!(
        server.handler.commands.get(slot(0, 1)).unwrap().state,
        CommandState::Committed
    ));
}

/// A canned client-facing handler: replies without consensus, as a stub a
/// transportless test can use.
struct FixedHandler {
    stored: Option<i32>,
}

impl External for FixedHandler {
    fn write(&mut self, req: WriteRequest) -> WriteResponse {
        self.stored = Some(req.value);
        WriteResponse { committed: true }
    }

    fn read(&mut self, _req: ReadRequest) -> Result<ReadResponse, ProtocolError> {
        match self.stored {
            Some(value) => Ok(ReadResponse { value }),
            None => Err(ProtocolError::UnknownKey),
        }
    }
}

#[test]
fn external_server_dispatches_writes_and_reads() {
    let mut server = ExternalServer::new_service_def(FixedHandler { stored: None });
    let reply = server.handle(ExternalRequest::Read(ReadRequest { key: "x".to_string() }));
    assert!(matches!(reply, ExternalReply::Read(Err(ProtocolError::UnknownKey))));
    let reply = server.handle(ExternalRequest::Write(write("x", 3)));
    match reply {
        ExternalReply::Write(resp) => assert!(resp.committed),
        _ => panic!("a write must be answered with a write reply"),
    }
    let reply = server.handle(ExternalRequest::Read(ReadRequest { key: "x".to_string() }));
    match reply {
        ExternalReply::Read(Ok(resp)) => assert_eq!(resp.value, 3),
        _ => panic!("a read of a written key must return its value"),
    }
}

#[test]
fn internal_server_reports_protocol_faults() {
    let mut server = InternalServer::new_service_def(Replica::new(ReplicaId(1)));
    server.handle(InternalRequest::PreAccept(PreAccept(payload(
        "x",
        1,
        1,
        Vec::new(),
        slot(0, 1),
    ))));
    // the same slot with a different command: the violation is surfaced
    let reply = server.handle(InternalRequest::Commit(Commit(payload(
        "y",
        9,
        1,
        Vec::new(),
        slot(0, 1),
    ))));
    assert!(matches!(
        reply,
        InternalReply::Fault(ProtocolError::ProtocolInvariantViolation)
    ));
}
