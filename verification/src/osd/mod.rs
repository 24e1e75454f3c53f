//! What is said to and heard from object storage daemons.

pub mod backoff;
pub mod message_laws;
pub mod messages;
pub mod metadata;
pub mod client;
pub mod command;
pub mod command_plan;
pub mod enumeration;
pub mod mutations;
pub mod pager;
pub mod payload_laws;
pub mod plan_laws;
pub mod routing;
pub mod scrub_laws;
pub mod sessions;
pub mod special;
pub mod state_laws;
pub mod watch;
pub mod lock;
pub mod incoming;
pub mod inconsistent;
