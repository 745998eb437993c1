//! An in-process publish/subscribe registry.
//!
//! Subscriptions are addressed by an event name, a target id and a callback
//! name. The registry decides which callbacks a publication reaches and what
//! remains subscribed afterwards; running the callbacks is left to the caller.

pub mod laws;
pub mod registry;
pub mod subscription;

pub use registry::{Delivery, PubSub};
pub use subscription::{PubSubError, SubOption};
