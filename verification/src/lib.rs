//! A verified inventory repository: a flat list of items (name, required and
//! available quantities, optional image, creation timestamp) with CRUD
//! operations, base64 image-payload decoding, and a path-migration fixup.

pub mod clock;
pub mod codec;
pub mod item;
pub mod laws;
pub mod store;
pub mod strutil;
