//! The two service interfaces of a replica and their dispatchers.
//!
//! `Internal` is the peer-to-peer interface: the three phase handlers every
//! replica serves to the other replicas. `Replica` implements it. `External`
//! is the client-facing interface (write and read); serving a write needs
//! transport to a quorum of peers, so its implementations live with the
//! code that owns the transport, outside this crate.
//!
//! `InternalServer` and `ExternalServer` turn a handler into a service
//! definition: one `handle` entry point that dispatches each request kind
//! to the handler method for it and wraps the reply.

use vstd::prelude::*;

use crate::replica::Replica;
use crate::replica::seqs_bounded;
use crate::types::Accept;
use crate::types::AcceptOK;
use crate::types::Commit;
use crate::types::PreAccept;
use crate::types::PreAcceptOK;
use crate::types::ProtocolError;
use crate::types::ReadRequest;
use crate::types::ReadResponse;
use crate::types::WriteRequest;
use crate::types::WriteResponse;

verus! {

/// The peer-to-peer service of a replica: the inbound phase handlers.
pub trait Internal: Sized {
    /// The handler's well-formedness, preserved by every call.
    spec fn inv(&self) -> bool;

    /// What a PreAccept must satisfy to be handled (for `Replica`: room to
    /// assign one more sequence number).
    spec fn pre_accept_enabled(&self, req: &PreAccept) -> bool;

    /// Handles a PreAccept from the leader of an instance; fails with a
    /// fatal error on a protocol invariant violation.
    fn pre_accept(&mut self, req: PreAccept) -> (res: Result<PreAcceptOK, ProtocolError>)
        requires
            old(self).inv(),
            old(self).pre_accept_enabled(&req),
        ensures
            final(self).inv(),
    ;

    /// Handles an Accept (slow path, second round); fails with a fatal
    /// error on a protocol invariant violation.
    fn accept(&mut self, req: Accept) -> (res: Result<AcceptOK, ProtocolError>)
        requires
            old(self).inv(),
        ensures
            final(self).inv(),
    ;

    /// Handles a Commit; fails with a fatal error on a protocol invariant
    /// violation.
    fn commit(&mut self, req: Commit) -> (res: Result<(), ProtocolError>)
        requires
            old(self).inv(),
        ensures
            final(self).inv(),
    ;
}

impl Internal for Replica {
    open spec fn inv(&self) -> bool {
        self.wf()
    }

    open spec fn pre_accept_enabled(&self, req: &PreAccept) -> bool {
        seqs_bounded(self.commands@) && req.0.seq < usize::MAX
    }

    fn pre_accept(&mut self, req: PreAccept) -> (res: Result<PreAcceptOK, ProtocolError>) {
        self.pre_accept_(req)
    }

    fn accept(&mut self, req: Accept) -> (res: Result<AcceptOK, ProtocolError>) {
        self.accept_(req)
    }

    fn commit(&mut self, req: Commit) -> (res: Result<(), ProtocolError>) {
        self.commit_(req)
    }
}

/// The client-facing service of a replica. Serving a write drives the whole
/// leader path, quorum transport included, so implementations live with the
/// transport, outside this crate; nothing here is promised of them.
pub trait External: Sized {
    /// Serves a client write; the response says whether it committed.
    fn write(&mut self, req: WriteRequest) -> WriteResponse;

    /// Serves a client read; an untouched key is reported unknown.
    fn read(&mut self, req: ReadRequest) -> Result<ReadResponse, ProtocolError>;
}

/// A request of the peer-to-peer service.
pub enum InternalRequest {
    PreAccept(PreAccept),
    Accept(Accept),
    Commit(Commit),
}

/// A reply of the peer-to-peer service. A Commit is acknowledged with no
/// payload; a protocol invariant violation is reported as a fault.
pub enum InternalReply {
    PreAcceptOK(PreAcceptOK),
    AcceptOK(AcceptOK),
    Empty,
    Fault(ProtocolError),
}

/// The peer-to-peer service definition: dispatches each inbound request to
/// the handler method for its phase.
pub struct InternalServer<H: Internal> {
    pub handler: H,
}

impl<H: Internal> InternalServer<H> {
    /// Builds the service definition around a handler.
    pub fn new_service_def(handler: H) -> (s: InternalServer<H>)
        ensures
            s.handler == handler,
    {
        InternalServer { handler }
    }

    /// Serves one request: each request kind is answered by the reply kind
    /// of its phase, produced by the matching handler method, or by a
    /// fault when the handler surfaces a protocol invariant violation.
    pub fn handle(&mut self, req: InternalRequest) -> (reply: InternalReply)
        requires
            old(self).handler.inv(),
            req matches InternalRequest::PreAccept(p) ==> old(self).handler.pre_accept_enabled(&p),
        ensures
            final(self).handler.inv(),
            reply is PreAcceptOK ==> req is PreAccept,
            reply is AcceptOK ==> req is Accept,
            reply is Empty ==> req is Commit,
            req is PreAccept ==> reply is PreAcceptOK || reply is Fault,
            req is Accept ==> reply is AcceptOK || reply is Fault,
            req is Commit ==> reply is Empty || reply is Fault,
    {
        match req {
            InternalRequest::PreAccept(p) => match self.handler.pre_accept(p) {
                Ok(ok) => InternalReply::PreAcceptOK(ok),
                Err(e) => InternalReply::Fault(e),
            },
            InternalRequest::Accept(a) => match self.handler.accept(a) {
                Ok(ok) => InternalReply::AcceptOK(ok),
                Err(e) => InternalReply::Fault(e),
            },
            InternalRequest::Commit(c) => match self.handler.commit(c) {
                Ok(()) => InternalReply::Empty,
                Err(e) => InternalReply::Fault(e),
            },
        }
    }
}

/// A request of the client-facing service.
pub enum ExternalRequest {
    Write(WriteRequest),
    Read(ReadRequest),
}

/// A reply of the client-facing service.
pub enum ExternalReply {
    Write(WriteResponse),
    Read(Result<ReadResponse, ProtocolError>),
}

/// The client-facing service definition: dispatches each inbound request to
/// the handler method for it.
pub struct ExternalServer<H: External> {
    pub handler: H,
}

impl<H: External> ExternalServer<H> {
    /// Builds the service definition around a handler.
    pub fn new_service_def(handler: H) -> (s: ExternalServer<H>)
        ensures
            s.handler == handler,
    {
        ExternalServer { handler }
    }

    /// Serves one request: a write is answered with a write reply, a read
    /// with a read reply.
    pub fn handle(&mut self, req: ExternalRequest) -> (reply: ExternalReply)
        ensures
            reply is Write <==> req is Write,
            reply is Read <==> req is Read,
    {
        match req {
            ExternalRequest::Write(w) => ExternalReply::Write(self.handler.write(w)),
            ExternalRequest::Read(r) => ExternalReply::Read(self.handler.read(r)),
        }
    }
}

} // verus!
