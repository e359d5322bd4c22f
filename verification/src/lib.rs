//! A minimal newline-delimited request/response protocol: a request line is
//! split into shell-style words, interpreted as a single command (`PING`
//! with zero or one argument), and answered with one reply line.
//!
//! The byte-level logic lives here, verified: `tokenize` splits a line,
//! `dispatch` maps tokens to a reply, `handler` models one connection's
//! request/reply loop.  Reading and writing the transport is left to the
//! surrounding program.

pub mod dispatch;
pub mod handler;
pub mod laws;
pub mod tokenize;
