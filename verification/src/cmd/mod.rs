//! The commands a client can send, and how each is read from a frame and
//! applied.
pub mod get;
pub mod publish;
pub mod set;
pub mod subscribe;
pub mod command;
