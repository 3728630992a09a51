//! Trusted declarations for the per-receiver outbound queue, which an
//! outside crate provides: tokio's unbounded multi-producer channel.

use vstd::prelude::*;
use crate::protocol::Command;
use tokio::sync::mpsc::UnboundedReceiver;
use tokio::sync::mpsc::UnboundedSender;
use tokio::sync::mpsc::unbounded_channel;

verus! {

#[verifier::external_type_specification]
#[verifier::external_body]
#[verifier::reject_recursive_types(T)]
pub struct ExUnboundedSender<T>(UnboundedSender<T>);

#[verifier::external_type_specification]
#[verifier::external_body]
#[verifier::reject_recursive_types(T)]
pub struct ExUnboundedReceiver<T>(UnboundedReceiver<T>);

/// Relies on tokio's `unbounded_channel`: makes a fresh unbounded queue and
/// hands back its two halves. Nothing is promised of the opaque halves.
#[verifier::external_body]
pub(crate) fn new_queue() -> (UnboundedSender<Command>, UnboundedReceiver<Command>) {
    unbounded_channel()
}

/// Relies on tokio's `UnboundedSender::send`: enqueues without ever blocking,
/// and fails exactly when the receiving half is closed or dropped. Whether
/// that half is still alive depends on another task, so nothing is promised
/// of the result: callers state what holds either way.
#[verifier::external_body]
pub(crate) fn queue_send(q: &UnboundedSender<Command>, c: Command) -> bool {
    q.send(c).is_ok()
}

} // verus!
