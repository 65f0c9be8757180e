//! memd: a minimal in-memory key-value store spoken to over a
//! length-prefixed binary wire protocol.
//!
//! The library holds the verified core: the wire codec (framing and
//! message encoding/decoding), the in-memory store, the daemon's
//! per-connection step, and the client's interpretation of responses.
//! Socket handling and the command line live outside the library.

pub mod client;
pub mod codec;
pub mod daemon;
pub mod store;
