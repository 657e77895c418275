//! Target-abstraction and execution-control core for a GDB Remote Serial
//! Protocol stub.
//!
//! The crate sits between an RSP protocol engine and a debuggee and fixes
//! the contracts the engine relies on:
//!
//! * [`arch`] — the architecture description traits: register-file codec
//!   and pointer-width word, resolved at compile time.
//! * [`bytes`] — big-endian byte conversion for address-sized words, the
//!   form the wire protocol transports addresses in.
//! * [`simple32`] — a concrete 32-bit architecture (16 registers of 4
//!   bytes) with a verified register codec: fixed-width output, explicit
//!   unknown markers, and a proved serialize/deserialize round trip.
//! * [`control`] — resume actions, stop reasons, the two-tier failure
//!   model, and the cooperative interrupt source.
//! * [`controller`] — a verified execution controller over a modelled
//!   single-threaded target: resume/step with breakpoints and interrupt
//!   polling, atomic register transfer, and memory access that reports
//!   inaccessible ranges non-fatally.

pub mod arch;
pub mod bytes;
pub mod control;
pub mod controller;
pub mod simple32;
