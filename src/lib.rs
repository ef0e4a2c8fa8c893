//! Decoding and encoding of a platformer game's level and save data: the GMD
//! value tree, the key-value record format, its gzip and base64 framing, and
//! the typed level-object records built on top of them.

pub mod color;
pub mod text;
pub mod number;
pub mod kv;
pub mod errors;
pub mod fields;
pub mod object;
pub mod zip;
pub mod level;
pub mod escape;
pub mod gmd;
pub mod format;
pub mod variant;
