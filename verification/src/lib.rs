//! A BitTorrent client library: bencoding, metainfo files, the peer wire
//! protocol, piece bookkeeping and the choking and request decisions of the
//! download controller.
use vstd::prelude::*;

pub mod bittorrent;

verus! {

/// Length of a peer handshake message.
pub const HSLEN: usize = 68;

/// Length of the protocol string in a handshake.
pub const PSTRLEN: u8 = 19;

/// Seconds after which an outstanding request may be handed out again.
pub const READ_TIMEOUT: u64 = 120;

/// Size of the buffer a peer connection reads into.
pub const MSG_SIZE: usize = 65536;

/// Recommended size of a requested block.
pub const REC_SIZE: usize = 16384;

/// Maximum number of outstanding requests per torrent.
pub const REQUESTS_LIMIT: usize = 1;

/// Maximum number of connected peers.
pub const MAX_PEERS: usize = 30;

/// Default port the client listens on.
pub const PORT_NUM: u16 = 6881;

} // verus!
