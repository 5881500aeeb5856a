//! A reader for the full-text index embedded in ZIM archives.

pub mod bytes;
pub mod error;
pub mod glass;
pub mod search;
pub mod zim;
pub mod zim_laws;
