//! Core of a local multi-transport message relay.
//!
//! A rendezvous process lets peers exchange short text messages over a
//! per-peer stream channel and a server-relayed datagram channel. This crate
//! holds the relay engine itself: message framing and parsing, session
//! registration, and broadcast fan-out for both channels. The engine is pure
//! state-and-event logic; the surrounding process performs the reads, writes
//! and sends that the engine decides on.

pub mod datagram;
pub mod framing;
pub mod stream;
