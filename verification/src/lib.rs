//! Chirp: file transfer over UDP for lossy, high-latency networks.
//!
//! The protocol core: packet format, loss tracking, forward error correction, and the
//! state of the two ends of a transfer. Sockets, files and clocks are the caller's.

use vstd::prelude::*;

pub mod buffer;
pub mod congestion;
pub mod protocol;
pub mod transfer;

pub use protocol::fec::FecMode;
pub use transfer::receiver::{ChirpReceiver, ReceiverConfig, RecvStats};
pub use transfer::sender::{ChirpSender, SenderConfig, TransferStats};

verus! {

/// Protocol version.
pub const VERSION: &'static str = "0.1.0";

} // verus!
