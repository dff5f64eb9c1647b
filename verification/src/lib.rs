//! A minimal in-memory key-value store speaking a binary request/response
//! protocol over a byte stream, with the decoder, the command interpreter
//! and the shared store verified: the decoder against a specification-level
//! decoder with proved restartability, the interpreter against an exact
//! functional semantics, and the store behind a verified lock.
pub mod ascii;
pub mod commands;
pub mod db;
pub mod laws;
pub mod parser;
