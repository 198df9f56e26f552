//! Pin-state tracking and register access for the GPIO controller of a
//! BCM2837-based single-board computer: a fixed-capacity pin set, the
//! register arithmetic of the GPIO block, and a session that classifies
//! every pin and authorises each read, write and mode change against that
//! classification.

pub mod pin_set;
pub mod regs;
pub mod session;
pub mod command;
