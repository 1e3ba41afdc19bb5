//! Client-side game state and wire formats of a Minecraft 1.12.2 client:
//! packed block storage, the packet codec and its packets, item, biome and
//! world helpers, and the renderer's decisions: arena allocation, chunk mesh
//! residency, draw commands, uploads and frame pacing.
#![allow(non_snake_case)]
#![allow(non_camel_case_types)]

pub mod bit_array;
pub mod codec;
pub mod block_state_container;
pub mod block_pos;
pub mod section_storage;
pub mod chunk;
pub mod arena;
pub mod packets;
pub mod profile;
pub mod nbt;
pub mod util;
pub mod items;
pub mod panorama;
pub mod frame;
pub mod entities;
pub mod network;
pub mod indirect;
pub mod upload;
pub mod biome;
pub mod assets;
pub mod residency;
pub mod pacing;
pub mod record;
pub mod blend;
