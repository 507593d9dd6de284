//! Reading Minecraft's Anvil world storage: region containers, the NBT tag
//! format, and chunks resolved into blocks across the format's revisions.

pub mod block;
pub mod chunk;
pub mod error;
pub mod nbt;
pub mod region;
pub mod round_trip;
