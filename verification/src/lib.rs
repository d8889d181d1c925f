//! Verified core of a one-to-many framed-message relay.
//!
//! A single source sends checksummed, magic-marked frames over a byte stream;
//! every complete frame is rebroadcast verbatim to a changing set of
//! destinations.  This crate holds the logic of that relay: the
//! one's-complement checksum, the wire-format model, the resynchronizing
//! incremental frame decoder, the per-session state machine, and the pruning
//! of destinations whose writes failed.  The sockets themselves live outside:
//! callers hand in the bytes they read and carry out the writes they are told
//! to make.

pub mod checksum;

pub mod frame;

pub mod decoder;

pub mod session;

pub mod registry;
