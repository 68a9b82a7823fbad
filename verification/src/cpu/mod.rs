//! A 65816 interpreter for running ROM routines headlessly, on whatever
//! memory a [`Bus`] supplies.
//!
//! This is not a console emulator: there is no cycle timing or full PPU.
//! IRQs and interrupt handlers run where the caller asks for them.
//! [`smw_bus::SmwBus`] is the machine a SMW routine runs against: the ROM,
//! work RAM, the video memory the game uploads to, and the SA-1.

pub mod access;
pub mod core65816;
pub mod sa1;
pub mod smw_bus;

pub use core65816::{Bus, Cpu, CpuError, Flags, Run};
