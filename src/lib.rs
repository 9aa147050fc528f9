//! A codec between shaped values and the Modular Crypt Format, the
//! `$`-separated text of password hashes such as `$2a$10$...`.
//!
//! A [`Shape`] says what a hash holds; [`from_str`] reads a [`Value`] of that
//! shape and [`to_string`] writes one. The format has no escapes, so the
//! encoder refuses what it could not write unambiguously: text holding `$`,
//! `,` or `=`, an empty sequence or map, a present optional whose text is
//! empty, and map keys whose texts repeat. The decoder refuses a map key equal
//! in value to an earlier one. Byte fields go through data_encoding: unpadded base64, or the
//! bcrypt alphabet for the legacy salt-and-hash field.
pub mod shape;
pub mod text;
pub mod scalar;
pub mod encoding;
pub mod base64;
pub mod base64bcrypt;
pub mod de;
pub mod ser;
pub mod hash;
pub mod legacy;
pub mod laws;

pub use de::{from_str, McfDeserializer};
pub use hash::McfHash;
pub use ser::{to_string, McfSerializer};
pub use shape::{Error, Field, Kind, Shape, Value, Variant};
