//! Replica-side decision logic of a leaderless, quorum-based consensus
//! protocol in the style of Egalitarian Paxos, ordering conflicting writes
//! to a keyed store without a fixed leader.
//!
//! Each replica keeps a log of command instances (`Commands`), detects
//! interference between commands on the same key, assigns sequence numbers
//! and dependency sets, and drives every instance through the
//! PreAccept -> (fast-path Commit | Accept -> Commit) state machine
//! (`Replica`). Committed instances are applied to the key/value store in a
//! dependency-respecting, deterministic order (`ExecutionEngine`). Message
//! transport between replicas is out of scope: callers hand inbound messages
//! to the handlers here and carry the returned messages to their peers.

pub mod dispatch;
pub mod exec;
pub mod laws;
pub mod log;
pub mod replica;
pub mod types;
