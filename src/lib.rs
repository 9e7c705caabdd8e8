//! A broadcasting channel: every receiver observes every value sent after
//! its creation, independently of the other receivers' progress.
//!
//! The channel engine is [`BroadcastChannel`], an arena of nodes with one
//! reader count per node; [`Sender`] and [`Receiver`] are handles that share
//! one engine between threads.

mod channel;
mod counting;
pub mod delivery;
mod sync;

pub use channel::BroadcastChannel;
pub use sync::{broadcaster, Receiver, Sender};
