//! Switch Logitech Easy-Switch devices to another host when the cursor is
//! pushed against an outer edge of the desktop.
//!
//! This library holds everything that does not touch the operating system:
//! the configuration's rules, the desktop geometry, the dwell and cooldown
//! state machine, the HID++ protocol, switching and discovery. The platform
//! glue (the real cursor and displays, and hidapi) implements the `Desktop`,
//! `Hid` and `Handle` traits declared here.

pub mod cli;
pub mod clock;
pub mod config;
pub mod desktop;
pub mod discover;
pub mod hid;
pub mod hidpp;
pub mod switch;
pub mod text;
pub mod trigger;
pub mod watch;
