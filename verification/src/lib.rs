//! Reliable delivery of whole packets over an unreliable datagram channel.
//!
//! A packet of up to 32 MiB is cut into fixed-size frames. The receiver
//! collects the frames, asks again for those that did not arrive, and
//! acknowledges the packet once it is complete. This crate holds the wire
//! format and the two state machines; moving datagrams is left to the caller.

pub mod exchange;
pub mod frame;
pub mod packet;
pub mod reassembly;
pub mod receiver;
pub mod sender;
