//! Kobo's core: reading and writing the pieces of a Super Mario World ROM.

pub mod addr;
pub mod args;
pub mod asar;
pub mod bps;
pub mod compress;
pub mod config;
pub mod cpu;
pub mod entrance;
pub mod expand;
pub mod gfx;
pub mod image;
pub mod text;

pub use addr::{MapError, Mapping, PcAddr, SnesAddr};
