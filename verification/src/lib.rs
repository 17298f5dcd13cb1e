//! Reading, checking and repackaging Roland FANTOM data files (`.svd`, `.svz`).
//!
//! Every function here works on bytes and plain values, never on files: the layers are the
//! container framing ([`container`]), the domain model ([`model`]), the tone-address table
//! ([`address`]) and the decoders built on them.

pub mod address;
pub mod bytes;
pub mod checksum;
pub mod codec;
pub mod container;
pub mod convert;
pub mod device;
pub mod diff;
pub mod factory;
pub mod error;
pub mod library;
pub mod model;
pub mod placement;
pub mod render;
pub mod repackage;
pub mod report;
pub mod requirements;
pub mod role;
pub mod samplebank;
pub mod scenes;
pub mod text;
pub mod tonebank;
pub mod verify;

pub use error::{Error, Field, Result};
