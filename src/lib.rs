//! Spritesheet building blocks: a rectangle packer, an RGBA pixel buffer with
//! blitting, and an alpha-bleeding pass for composited atlases.

pub mod geometry;
pub mod id;
pub mod types;
pub mod packer;
pub mod pack_laws;
pub mod image;
pub mod alpha_bleed;
pub mod glob;
pub mod config;
pub mod asset_name;
pub mod spritesheet;
