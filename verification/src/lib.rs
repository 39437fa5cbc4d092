//! The decisions of a thread that owns a windowing system on behalf of all others.
//!
//! A windowing system that may only be touched from one thread is kept on an owner
//! thread; every other thread sends it commands. This crate holds what that thread
//! decides, proved against the contracts stated here:
//!
//! - [`backlog`]: the bounded queue of events that no handler has claimed yet, and the
//!   delivery cycle that replays it and takes in fresh events;
//! - [`registry`]: the windows that the owner thread holds, by id;
//! - [`protocol`]: the commands, the life of the owner loop, and what a caller is told
//!   when the owner is gone;
//! - [`laws`]: what holds of these across cycles and commands.
//!
//! Nothing here touches a window, a thread or a channel.

pub mod backlog;
pub mod laws;
pub mod protocol;
pub mod registry;

pub use backlog::{EventBacklog, CAPACITY};
pub use protocol::{Command, OwnerState, UiThreadExited};
pub use registry::WindowRegistry;
