//! Verified core of the item-slot wire codec, the spawn-point command and the
//! data-component table generator of a Minecraft server.

pub mod wire;
pub mod hash;
pub mod version;
pub mod component;
pub mod item;
pub mod slot;
pub mod text;
pub mod command;
pub mod firework;
pub mod codegen;
pub mod names;
