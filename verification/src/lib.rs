//! Verified core of a terminal and remote-session manager: session records
//! and their validation, the known-hosts store, and the pure parts of the
//! SSH, RDP and VNC session handling.
use vstd::prelude::*;

pub mod commands;
pub mod framebuffer;
pub mod ip;
pub mod known_hosts;
pub mod rdp;
pub mod registry;
pub mod session;
pub mod ssh;
pub mod text;
pub mod vnc;

verus! {

} // verus!
