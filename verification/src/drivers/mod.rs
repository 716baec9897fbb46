//! Drivers of single pieces of hardware.

pub mod ahci;
pub mod ahci_laws;
pub mod ps2;
pub mod rtc;
pub mod rtc_laws;
pub mod serial;
pub mod serial_laws;
