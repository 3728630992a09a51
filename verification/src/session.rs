//! The two per-connection session state machines.
//!
//! A receiver session learns its channel key from a one-message handshake,
//! registers into the registry, pumps queued commands out, and deregisters
//! with its own handle identity when its connection ends. A sender session
//! keeps a locally bound key and translates inbound messages into registry
//! lookups and best-effort enqueues. The transport that carries the frames
//! is an external collaborator: it hands these functions plain text frames
//! and performs the decisions they return.

use vstd::prelude::*;
use crate::channel;
use crate::protocol;
use crate::protocol::Command;
use crate::protocol::CommandModel;
use crate::registry::Handle;
use crate::registry::Registry;
use crate::registry::unregister_effect;
use tokio::sync::mpsc::UnboundedReceiver;

verus! {

/// The receiver handshake decision: the first inbound text frame must decode
/// as a bind, which fixes the session's channel key; any other frame, or no
/// frame at all, aborts the session before anything is registered.
pub fn receiver_handshake(first: Option<&str>) -> (r: Option<String>)
    ensures
        match (first, r) {
            (Some(s), Some(k)) => protocol::decode_model(s@) == Some(CommandModel::Bind(k@)),
            (Some(s), None) => !(protocol::decode_model(s@) matches Some(CommandModel::Bind(_))),
            (None, None) => true,
            (None, Some(_)) => false,
        },
{
    match first {
        Some(s) => match protocol::decode(s) {
            Ok(Command::Bind(k)) => Some(k),
            _ => None,
        },
        None => None,
    }
}

/// A receiver session past its handshake: the channel key fixed then, and
/// the identity its registration was made under.
pub struct ReceiverSession {
    key: String,
    id: u64,
}

impl View for ReceiverSession {
    type V = (Seq<char>, u64);

    closed spec fn view(&self) -> (Seq<char>, u64) {
        (self.key@, self.id)
    }
}

impl ReceiverSession {
    /// Completes a successful handshake: creates the session's unbounded
    /// outbound queue, registers its sending half under `key` with the given
    /// identity, and hands back the receiving half for the pump to drain.
    /// The caller gives each session a distinct identity.
    pub fn open(reg: &mut Registry, key: String, id: u64) -> (r: (
        ReceiverSession,
        UnboundedReceiver<Command>,
    ))
        ensures
            final(reg)@ == old(reg)@.insert(key@, id),
            r.0@ == (key@, id),
    {
        let (tx, rx) = channel::new_queue();
        let h = Handle::new(id, tx);
        let own_key = key.clone();
        reg.register(key, h);
        (ReceiverSession { key: own_key, id }, rx)
    }

    /// Ends the session: deregisters `key` with the identity this session
    /// registered, so a newer registration that displaced this one is left
    /// intact (compare-and-remove).
    pub fn close(self, reg: &mut Registry)
        ensures
            final(reg)@ == unregister_effect(old(reg)@, self@.0, self@.1),
    {
        reg.unregister(&self.key, self.id);
    }
}

/// What a sender session reports for one inbound message; every outcome is
/// recoverable and the session continues either way.
#[derive(Debug, PartialEq)]
pub enum SenderEvent {
    /// The message was a bind: the locally bound key was overwritten.
    Bound,
    /// A fire was enqueued for the receiver with this handle identity.
    Delivered(u64),
    /// The registered receiver with this identity was gone when the fire
    /// reached its queue; the fire was dropped.
    DeliveryFailed(u64),
    /// A fire with no bound key, or no receiver registered under the bound
    /// key: the fire was a no-op.
    NoReceiver,
    /// The message did not decode: it was discarded.
    BadMessage,
}

/// One step of the sender state machine: what the locally bound key is
/// after a message decoding to `d` arrives. Only a bind changes it.
pub open spec fn step_bound(b: Option<Seq<char>>, d: Option<CommandModel>) -> Option<Seq<char>> {
    match d {
        Some(CommandModel::Bind(k)) => Some(k),
        _ => b,
    }
}

/// The locally bound key after a whole sequence of messages.
pub open spec fn bound_after(init: Option<Seq<char>>, ds: Seq<Option<CommandModel>>) -> Option<
    Seq<char>,
>
    decreases ds.len(),
{
    if ds.len() == 0 {
        init
    } else {
        step_bound(bound_after(init, ds.drop_last()), ds.last())
    }
}

/// A sender may rebind arbitrarily often: whatever came before, the bound
/// key after a history ending in a bind is that bind's key, so only the
/// most recent bind before a fire determines its target.
pub proof fn lemma_latest_bind_wins(init: Option<Seq<char>>, ds: Seq<Option<CommandModel>>, k: Seq<char>)
    ensures
        bound_after(init, ds.push(Some(CommandModel::Bind(k)))) == Some(k),
{
    assert(ds.push(Some(CommandModel::Bind(k))).last() == Some(CommandModel::Bind(k)));
}

/// A sender session: its locally bound channel key, absent until the first
/// bind arrives.
pub struct SenderSession {
    bound: Option<String>,
}

impl View for SenderSession {
    type V = Option<Seq<char>>;

    closed spec fn view(&self) -> Option<Seq<char>> {
        match self.bound {
            Some(ref k) => Some(k@),
            None => None,
        }
    }
}

impl SenderSession {
    /// A fresh sender session with no bound key.
    pub fn new() -> (s: SenderSession)
        ensures
            s@ is None,
    {
        SenderSession { bound: None }
    }

    /// Handles one inbound frame. A bind overwrites the bound key, purely
    /// locally. A fire looks the bound key up and best-effort enqueues for
    /// the receiver currently registered there — and for no other receiver;
    /// with no bound key or no registration it is a no-op. A frame that does
    /// not decode is discarded. No outcome ends the session.
    pub fn handle_message(&mut self, reg: &Registry, raw: &str) -> (ev: SenderEvent)
        ensures
            final(self)@ == step_bound(old(self)@, protocol::decode_model(raw@)),
            match protocol::decode_model(raw@) {
                Some(CommandModel::Bind(_)) => ev == SenderEvent::Bound,
                Some(CommandModel::Fire) => match old(self)@ {
                    None => ev == SenderEvent::NoReceiver,
                    Some(k) => if reg@.contains_key(k) {
                        ev == SenderEvent::Delivered(reg@[k]) || ev == SenderEvent::DeliveryFailed(
                            reg@[k],
                        )
                    } else {
                        ev == SenderEvent::NoReceiver
                    },
                },
                None => ev == SenderEvent::BadMessage,
            },
    {
        match protocol::decode(raw) {
            Ok(Command::Bind(k)) => {
                self.bound = Some(k);
                SenderEvent::Bound
            },
            Ok(Command::Fire) => {
                match &self.bound {
                    None => SenderEvent::NoReceiver,
                    Some(k) => match reg.lookup(k) {
                        Some(h) => {
                            let target = h.id();
                            if h.deliver(Command::Fire) {
                                SenderEvent::Delivered(target)
                            } else {
                                SenderEvent::DeliveryFailed(target)
                            }
                        },
                        None => SenderEvent::NoReceiver,
                    },
                }
            },
            Err(_) => SenderEvent::BadMessage,
        }
    }
}

} // verus!
