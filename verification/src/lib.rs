//! Server side of the Engine.IO v3 long-polling transport: the packet and
//! payload codec, the per-session state machine, the session registry, the
//! request dispatcher and the heartbeat pass, each with a verified contract.
pub mod base64;
pub mod config;
pub mod decimal;
pub mod packet;
pub mod server;
pub mod socket;
pub mod transport;
