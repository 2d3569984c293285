//! Core logic of a voxel sandbox engine: palette-compressed chunks, greedy
//! meshing, column streaming, terrain block rules, the chat console with its
//! command language, frame-rate averaging, and the allocator of the shared
//! GPU buffers.

pub mod arena;
pub mod chat;
mod clock;
pub mod fps;
pub mod hud;
pub mod text;
pub mod world;
