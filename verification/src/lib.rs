//! A small service-hosting engine: named services keep authoritative state,
//! accept requests from callers, and broadcast the resulting deltas to
//! subscribers. The crate verifies the core of that engine: the participant
//! and subscriber sets, the club service's request handling, the request
//! envelope grammar, the persistence codec, and the router that ties them
//! together. All I/O (message delivery, durable storage, the host loop)
//! stays with the caller, which performs the actions that dispatch returns.

pub mod club;
pub mod envelope;
pub mod laws;
pub mod participants;
pub mod persist;
pub mod router;
