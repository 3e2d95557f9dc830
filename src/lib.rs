//! Notification-protocol layer of a peer-to-peer node: protocol negotiation,
//! per-pair substream lifecycle, bounded notification queues, admission
//! control, and the ordered event log that upper layers observe. Also holds
//! the runtime-interface value wrappers and the call-dispatch vocabulary of the
//! same node, with the byte layout of module calls.
pub mod call;
pub mod config;
pub mod dispatch;
pub mod events;
pub mod ffi;
pub mod peerset;
pub mod protocol;
pub mod queue;
pub mod service;
