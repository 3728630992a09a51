//! A real-time command relay: a receiver registers under a channel key it
//! shares with a sender; the sender later fires a trigger command that the
//! registry routes to whichever receiver currently holds that key.

pub mod channel;
pub mod protocol;
pub mod registry;
pub mod session;
