//! A discrete-event simulator of an epidemic ("gossip") broadcast protocol
//! over a synthetic network of addressable nodes.
//!
//! A configurable number of nodes spread one payload by a three-phase
//! protocol: eager push of the full payload while shallow, hash-only relay
//! once deep, and pull-based repair for nodes that suspect they missed the
//! payload. The simulator measures dissemination coverage and message
//! overhead across repeated independent trials.

pub mod message;
pub mod message_queue;
pub mod node_status;
pub mod performance_result;
pub mod rng;
pub mod rrs_simulator;
