//! Wire protocol, path safety and transfer sessions of a local file transfer
//! between a PC and a Steam Deck.

use vstd::prelude::*;

pub mod bytes;
pub mod cli;
pub mod digest;
pub mod order;
pub mod path;
pub mod progress;
pub mod protocol;
pub mod receiver;
pub mod sender;
pub mod text;
pub mod transfer;

pub use path::{SafeRelativePath, UnsafePath};

verus! {

/// Prefix used to reject traffic meant for another protocol: `SDFT`.
pub const PROTOCOL_MAGIC: [u8; 4] = [83, 68, 70, 84];

/// Increment only when peers cannot safely communicate with older releases.
pub const PROTOCOL_VERSION: u16 = 1;

/// Default TCP port used by the receiver.
pub const DEFAULT_PORT: u16 = 49_321;

} // verus!
