//! A decoder of DAG-CBOR data.

pub mod access;
pub mod de;
pub mod error;
pub mod grammar;
pub mod laws;
mod outside;
pub mod read;
mod text;
pub mod value;
