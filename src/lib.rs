//! smol: a text codec that packs a 32-symbol alphabet into 5 bits per symbol,
//! with escape sequences for digits, case, newlines and any other character,
//! and a small self-describing container around the packed bytes.
pub mod alphabet;
pub mod bits;
pub mod blob;
pub mod codec;
pub mod frame;
pub mod laws;
pub mod legacy;

pub use blob::{SmolBlob, SmolError};
