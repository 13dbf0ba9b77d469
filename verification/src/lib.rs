//! Decision logic for a small chat courier: reading the secret-key listing of
//! a key-management tool, and planning the requests of a chat transport.
//!
//! Nothing here performs I/O. Every operation takes the outcome of outside
//! work as a plain value and says, with a proved contract, what follows.

pub mod gpg;
pub mod history;
pub mod listing;
pub mod model;
pub mod text;
pub mod transport;
