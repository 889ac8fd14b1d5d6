//! Core of a single-threaded WebSocket relay: the connection table, the
//! per-connection protocol state machine, and the broadcast fan-out plan.
//!
//! The actual sockets, the readiness poller and the WebSocket codec are
//! external collaborators driven by an unverified event loop; this crate
//! holds every decision that loop makes, with contracts.

pub mod conn;
pub mod table;
pub mod relay;
pub mod laws;
