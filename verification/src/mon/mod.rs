//! What is said to and heard from monitors.

pub mod client;
pub mod client_laws;
pub mod message_laws;
pub mod messages;
pub mod ordering;
pub mod resolution;
pub mod seed_laws;
pub mod seeds;
