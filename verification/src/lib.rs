//! A small Redis-style server library: the RESP wire format, a command layer
//! on top of it, and an in-memory key/value store.
pub mod cursor;
pub mod frame;
pub mod roundtrip;
pub mod text;
pub mod parse;
pub mod db;
pub mod cmd;
pub mod handler;
pub mod laws;
