//! Values that several protocols share.

pub mod address;
