//! Session broker for shared realtime boards.
//!
//! Many concurrent viewers move shared cursors on a named board. All mutation
//! of one board's state is serialized through a single session state machine;
//! state changes fan out to every attached connection, and a board is torn
//! down exactly once when it becomes empty. This crate holds the verified
//! logic of that broker: the per-board session state machine, the
//! per-connection protocol, and the registry that maps board names to live
//! sessions. The I/O shell (sockets, timers, HTTP) drives these types and
//! performs the directives they return.

pub mod assoc;
pub mod board;
pub mod connection;
pub mod directory;
pub mod protocol;
pub mod registry;
