//! Reading and rewriting Terraria world files held in memory.
pub mod bytes;
pub mod header;
pub mod tfilereader;
pub mod world;
