//! Messenger protocol, second version: banner, frames, payloads and sessions.

pub mod banner;
pub mod control;
pub mod driver;
pub mod driver_laws;
pub mod frame;
pub mod frame_laws;
pub mod layout_laws;
pub mod message;
pub mod secure;
pub mod session;
pub mod session_laws;
pub mod session_model;
pub mod session_resume;
pub mod session_runs;
pub mod session_steps;
pub mod session_writes;
pub mod supervisor;
pub mod transport;
