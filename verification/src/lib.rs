//! Resilient alert delivery core.
//!
//! An alert-relay daemon accepts alert messages from local clients and
//! forwards them to a chat backend.  While the backend is unreachable no
//! message may be lost and no pending message may be reordered.  This crate
//! holds the verified heart of that guarantee:
//!
//! * [`message`] — the alert record as a plain value;
//! * [`codec`] — byte-level string and number encoding, with proved round
//!   trips;
//! * [`record`] — the canonical record format for alerts and client
//!   packets, with a proved encode/decode round trip;
//! * [`spooler`] — the durable, ordered queue of pending messages;
//! * [`backoff`] — the exponential retry interval;
//! * [`dispatcher`] — the retry state machine that owns the spool and the
//!   backoff;
//! * [`backend`] — shaping of an alert into the payload a webhook backend
//!   expects;
//! * [`compose`] — building alerts from plain command-line values.
//!
//! All file, socket and network I/O lives outside this crate; callers hand
//! bytes in and take bytes out.

pub mod backend;
pub mod backoff;
pub mod codec;
pub mod compose;
pub mod dispatcher;
pub mod message;
pub mod record;
pub mod spooler;
