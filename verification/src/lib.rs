//! Verified core logic of the Tifflin kernel's ARMv7 support code, its IRQ
//! binding table, its FIFO queue and the user-mode loader's argument block.
#![allow(non_camel_case_types)]
#![allow(non_snake_case)]

pub mod divmod;
pub mod console;
pub mod loader;
pub mod virt;
pub mod queue;
pub mod irqs;
pub mod backtrace;
