//! Core of a real-time group chat service: the per-channel broadcast
//! registry, the append-only channel log, the presence tracker, and the
//! per-connection session logic with its heartbeat rule. The connection
//! layer performs the I/O and feeds events to these types.

pub mod heartbeat;
pub mod log;
pub mod presence;
pub mod registry;
pub mod requests;
pub mod session;
pub mod store;
