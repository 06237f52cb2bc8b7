//! A small in-process message bus: services register with a kernel, declare
//! interest in named topics, and every published event is routed to the
//! current subscribers of its topic.
//!
//! The crate holds the routing logic alone: the subscription registry, the
//! kernel's dispatch state machine, and the message-level behaviour of the
//! one built-in service. Threads and channels live outside it; the kernel is
//! driven one message at a time and says in its contracts exactly how each
//! message changes the registry, the service table, the undeliverable
//! counter, and the per-subscriber delivery log.

pub mod camera;
pub mod kernel;
pub mod messages;
pub mod registry;
