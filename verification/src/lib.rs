//! An Egalitarian Paxos replica core: the command log, the dependency and
//! interference engine, the pre-accept quorum logic with its fast and slow
//! paths, the accept and commit transitions, the dependency-ordered execution
//! of committed commands against a key-value dictionary, and the line codec
//! for the consensus messages.
//!
//! Networking, the scheduler and the clients live outside the library; they
//! feed parsed events in and carry the returned actions out.

pub mod types;
pub mod store;
pub mod replica;
pub mod quorum;
pub mod exec;
pub mod text;
pub mod format;
pub mod dispatch;
pub mod codec;
pub mod laws;
