//! Core of a software audio patchbay and mixer that sits on top of a
//! low-latency audio graph server.
//!
//! The crate holds the verified logic: the desired connection graph and the
//! reconciliation state machine that drives the live wiring toward it, the
//! shared routing/mixer configuration (volumes, balances, monitor selection,
//! one-shot notification hooks), the fixed-point mixing engine that composes
//! sample blocks, and the command dispatchers of the control protocol.
//! Process plumbing (the audio server client, sockets, timers, JSON framing)
//! lives outside the library and exchanges plain values with it.

pub mod config;
pub mod gain;
pub mod jacon;
pub mod jamyxer;
pub mod server;
pub mod utils;

use vstd::prelude::*;

verus! {

/// Top-level error kind of the client plumbing around the library.
#[derive(Debug)]
pub enum JamyxErr {
    InitError(String),
    ActivateError(String),
    DeactivateError(String),
    ClientIsActive,
    ClientIsInactive,
    ClientIsNone,
    Other(String),
}

/// Marker for error sources that may be folded into `JamyxErr::Other`.
pub trait JerrDerive {}

/// The two kinds of audio port a channel is backed by.
#[derive(Clone, Copy, PartialEq, Eq, Structural, Debug)]
pub enum AnySpec {
    AudioOut,
    AudioIn,
}

} // verus!
