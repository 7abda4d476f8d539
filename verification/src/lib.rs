//! Byte-exact binary serialization and the ShadeNBT container format.

pub mod data;
pub mod endian;
pub mod primitive;
pub mod strings;
pub mod version;
pub mod uuid;
pub mod sequence;
pub mod nbt;
pub mod crypto;
pub mod shade;
pub mod hashsum;
pub mod device;
pub mod time;
pub mod resource;
pub mod secret;
pub mod compose;
pub mod tuples;
