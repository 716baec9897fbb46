//! The AHCI SATA driver.
//!
//! Commands go to the disk through slots: a command table holds the frame with
//! the command and the list of memory regions for the data. With native command
//! queuing several slots are in flight at once.

pub mod bring_up_laws;
pub mod command;
pub mod controller;
pub mod laws;
pub mod port;
pub mod slots;
pub mod submit;
