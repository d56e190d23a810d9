//! Positioned reads through a kernel completion ring, as a protocol.
//!
//! The library holds every decision of the protocol and none of the I/O. A
//! driver owns the kernel's ring; it offers each [`Submission`] to the
//! submission queue, flushes the ring, hands back the [`Completion`]s that it
//! drained, and does what the returned [`Action`] says.
//!
//! A request is known to the kernel by a token, the index of a slot in the
//! ring's table. The slot is taken for as long as anything can arrive for it,
//! so a completion never reaches an operation other than the one that asked,
//! even where that one was dropped in the meantime.
//!
//! - [`buffer`]: what a destination must offer;
//! - [`wire`]: the values exchanged with the kernel;
//! - [`ring`]: the table of completion slots;
//! - [`read`]: one read, from the call that asks for it to its result;
//! - [`guarantees`]: what holds of every operation;
//! - [`consistency`]: what holds of a ring as a whole.

pub mod buffer;
pub mod consistency;
pub mod guarantees;
pub mod read;
pub mod ring;
pub mod wire;

pub use buffer::{AsIoVec, AsIoVecMut};
pub use read::{Action, Event, ReadComplection, Stage};
pub use ring::{Ring, Slot};
pub use wire::{read_outcome, Completion, IoError, Request, Submission};
