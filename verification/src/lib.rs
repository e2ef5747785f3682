//! Round-synchronized distribution of a shared pool.
//!
//! A coordinator (the bank) shares a single pool of funds with a fixed set of
//! participants (the investors), one persistent connection each, in globally
//! synchronous rounds.  Each round every participant is sent an equal floor
//! share of the pool; a pair of reusable rendezvous barriers keeps all
//! per-connection handlers in lock-step so that no handler ever observes a
//! half-updated pool; then each handler debits the share it sent, reads the
//! amount its participant returns, and credits it back.
//!
//! The crate verifies the coordinator's round engine: the pool ([`pool`]),
//! the counting rendezvous barrier ([`barrier`]), the handler state machine
//! and its interleaving semantics ([`system`]), the wire-line parsers
//! ([`wire`]), and the protocol-wide laws ([`laws`]).  The surrounding I/O
//! (sockets, threads, logging) is left to the embedding program, which drives
//! one [`system::System`] step method per protocol event.

pub mod barrier;
pub mod laws;
pub mod math;
pub mod pool;
pub mod system;
pub mod task;
pub mod wire;

pub use wire::read_usize;
