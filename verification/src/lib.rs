//! Image references for a Docker Registry v2 client.

pub mod errors;
pub mod laws;
pub mod pattern;
pub mod reference;
pub mod text;
