//! A same-user cache service that keeps one validated link image between
//! linker processes: its wire format, socket naming and lifetime rules.

pub mod idle;
pub mod wire;
pub mod response;
pub mod socket;
pub mod client;
