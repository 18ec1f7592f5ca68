//! An end-to-end-encrypted chat relay: a rendezvous server keeps a directory
//! of connected peers and forwards control and data frames between them, while
//! peers pair with one another and exchange text under a hybrid RSA/AES-GCM
//! envelope that the server never learns to open.
//!
//! The crate holds the verified core: the length-framed wire codec, the
//! server-side directory and forwarding state machine, the client-side
//! session and pairing state machine, and the hybrid encryption path.
//! Sockets, the terminal, and task plumbing live outside it.
pub mod codec;
pub mod crypto;
pub mod messages;
pub mod server;
pub mod session;
