//! The PS/2 (i8042) keyboard driver.
//!
//! The interrupt handler puts the bytes of the controller's output buffer into a
//! ring; polling takes them out, decodes them and submits key events. The
//! controller translates the keyboard's native scancode set 2 to set 1, which is
//! what the decoder understands.

pub mod controller;
pub mod controller_laws;
pub mod decoder;
pub mod keyboard;
pub mod laws;
pub mod ring;
