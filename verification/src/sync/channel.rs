//! A one-shot channel: one message slot, a `ready` flag, and an `in_use` flag
//! that keeps a second `send` out.
use vstd::prelude::*;

verus! {

/// The flags of a one-shot channel.
pub struct Channel {
    pub ready: bool,
    pub in_use: bool,
}

/// The outcome of a `send` or `receive` once its flag was swapped.
#[derive(PartialEq, Eq, Structural, Clone, Copy, Debug)]
pub enum Handoff {
    /// Go on: write the message and set `ready`, or read the message.
    Proceed,
    /// A second message: "can't send more than one message!"
    AlreadySent,
    /// Nothing to receive: "no message"
    NoMessage,
}

impl Channel {
    /// Empty, and free to send.
    pub fn new() -> (c: Channel)
        ensures
            !c.ready,
            !c.in_use,
    {
        Channel { ready: false, in_use: false }
    }

    /// Whether a message waits to be received.
    pub fn is_ready(&self) -> (b: bool)
        ensures
            b == self.ready,
    {
        self.ready
    }

    /// `send` swaps `true` into `in_use`; `was_in_use` is what it gave back.
    pub fn send(was_in_use: bool) -> (h: Handoff)
        ensures
            h == if was_in_use { Handoff::AlreadySent } else { Handoff::Proceed },
    {
        if was_in_use {
            Handoff::AlreadySent
        } else {
            Handoff::Proceed
        }
    }

    /// `receive` swaps `false` into `ready`; `was_ready` is what it gave back.
    pub fn receive(was_ready: bool) -> (h: Handoff)
        ensures
            h == if was_ready { Handoff::Proceed } else { Handoff::NoMessage },
    {
        if was_ready {
            Handoff::Proceed
        } else {
            Handoff::NoMessage
        }
    }
}

/// The receiving end of a channel that was split into a sender and a receiver.
pub struct Receiver<'a> {
    pub channel: &'a Channel,
}

impl<'a> Receiver<'a> {
    /// Whether the sender's message has arrived.
    pub fn is_ready(&self) -> (b: bool)
        ensures
            b == self.channel.ready,
    {
        self.channel.is_ready()
    }
}

/// A one-shot channel as its users share it: its flags, whether a message was
/// written, and how many times one was taken out.
pub struct ChannelState {
    pub ready: bool,
    pub in_use: bool,
    pub written: bool,
    pub taken: nat,
}

/// One atomic step: a `send` swaps `true` into `in_use` and, when it proceeds,
/// writes the message and sets `ready`; a `receive` swaps `false` into `ready` and,
/// when it proceeds, takes the message. The handoff is what the library decides.
pub open spec fn channel_step(c: ChannelState, send: bool) -> (ChannelState, Handoff) {
    if send {
        if c.in_use {
            (c, Handoff::AlreadySent)
        } else {
            (ChannelState { ready: true, in_use: true, written: true, taken: c.taken }, Handoff::Proceed)
        }
    } else {
        if c.ready {
            (ChannelState { ready: false, in_use: c.in_use, written: c.written, taken: c.taken + 1 }, Handoff::Proceed)
        } else {
            (c, Handoff::NoMessage)
        }
    }
}

/// `ready` only while a written message waits, and a message is taken at most once.
pub open spec fn channel_inv(c: ChannelState) -> bool {
    &&& c.ready ==> c.written && c.in_use && c.taken == 0
    &&& c.written <==> c.in_use
    &&& c.taken <= 1
    &&& c.taken == 1 ==> c.written && !c.ready
}

/// One message only: from a new channel, every interleaving of sends and receives
/// keeps the message taken at most once; a second send changes nothing, a receive
/// proceeds exactly when a message waits, and after it a further receive finds none.
pub proof fn lemma_channel_one_shot(c: ChannelState, send: bool)
    requires
        channel_inv(c),
    ensures
        channel_inv(channel_step(c, send).0),
        channel_inv(ChannelState { ready: false, in_use: false, written: false, taken: 0 }),
        send && c.in_use ==> channel_step(c, send) == (c, Handoff::AlreadySent),
        !send ==> (channel_step(c, send).1 == Handoff::Proceed <==> c.ready),
        !send && c.ready ==> channel_step(channel_step(c, send).0, false).1 == Handoff::NoMessage,
{
}

} // verus!
