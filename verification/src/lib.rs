//! Codec for the RGSSAD family of game-engine container archives.
//!
//! An archive bundles many files into one blob, obfuscating names and
//! contents with a reversible XOR keystream seeded per archive region.
//! The library works on in-memory bytes: parsing the entry table of the
//! two generational layouts, building fresh archives, and running the
//! keystream cipher so that a data region can be deciphered from any
//! chunking of its bytes.

pub mod archive;
pub mod cipher;
pub mod keystream;
pub mod laws;
pub mod table;
pub mod utf8;
