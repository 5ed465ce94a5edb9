//! A multi-client chat relay: a registry of live outbound channels, and the
//! per-connection decisions of the relay (nickname commands and broadcasts).

pub mod registry;
pub mod session;
pub mod framing;
