//! One connection's life: it registers and announces itself, relays the cell
//! updates that its client sends, and deregisters and says goodbye.

use vstd::prelude::*;
use crate::events::{UserJoined, UserLeft};
use crate::registry::{
    SessionId, SessionRegistry, registered, deregistered, recipients,
};

verus! {

/// The lower-case hexadecimal digit for `n`, where `n < 16`.
pub open spec fn hex_digit(n: u128) -> char {
    seq!['0', '1', '2', '3', '4', '5', '6', '7', '8', '9', 'a', 'b', 'c', 'd', 'e', 'f'][n as int]
}

/// The text by which other sessions know session `id`: its 32 hexadecimal
/// digits, most significant first, in groups of 8, 4, 4, 4 and 12 joined by
/// hyphens.
pub open spec fn session_label(id: u128) -> Seq<char> {
    Seq::new(
        36,
        |p: int|
            if p == 8 || p == 13 || p == 18 || p == 23 {
                '-'
            } else {
                let q = p - (if p > 23 {
                    4int
                } else if p > 18 {
                    3int
                } else if p > 13 {
                    2int
                } else if p > 8 {
                    1int
                } else {
                    0int
                });
                hex_digit((id >> ((31 - q) * 4) as u128) & 0xf)
            },
    )
}

/// Relies on uuid's `Uuid::new_v4`: a random version-4 identifier, here
/// taken as its 128-bit value. Every such value has version nibble 4 and
/// variant bits `10`; the rest is random.
#[verifier::external_body]
fn fresh_session_id() -> (id: u128)
    ensures
        (id >> 76u128) & 0xfu128 == 4,
        (id >> 62u128) & 0x3u128 == 2,
{
    uuid::Uuid::new_v4().as_u128()
}

/// Relies on uuid's `Uuid::from_u128` (the value's bytes, most significant
/// first) and its `Display`, which writes the hyphenated lower-case form.
#[verifier::external_body]
fn label_of(id: u128) -> (r: String)
    ensures
        r@ == session_label(id),
{
    uuid::Uuid::from_u128(id).to_string()
}

/// Where a connection stands.
#[derive(PartialEq, Eq, Structural, Clone, Copy, Debug)]
pub enum Phase {
    Connecting,
    Active,
    Closed,
}

/// A frame that the client sent. `Text` says whether the text parses as a
/// cell update.
#[derive(PartialEq, Eq, Structural, Clone, Copy, Debug)]
pub enum Frame {
    Ping,
    Text(bool),
    Binary,
    Other,
}

/// What a broadcast carries.
#[derive(Debug, PartialEq, Eq)]
pub enum Notice {
    Joined(UserJoined),
    Left(UserLeft),
    /// The text that the client sent, verbatim.
    Relay,
}

/// What the connection does in answer to an event.
#[derive(Debug, PartialEq, Eq)]
pub enum Reaction {
    Nothing,
    Pong,
    /// Send the notice to these sessions.
    Broadcast(Notice, Vec<SessionId>),
}

/// A connection and its session identifier.
#[derive(Debug, PartialEq, Eq, Structural, Clone, Copy)]
pub struct Gateway {
    pub id: SessionId,
    pub phase: Phase,
}

impl Gateway {
    /// A connection about to open, under a fresh random version-4
    /// identifier.
    pub fn connect() -> (g: Gateway)
        ensures
            g.phase == Phase::Connecting,
            (g.id >> 76u128) & 0xfu128 == 4,
            (g.id >> 62u128) & 0x3u128 == 2,
    {
        Gateway { id: fresh_session_id(), phase: Phase::Connecting }
    }

    /// A connection about to open, under the given identifier.
    pub fn new(id: SessionId) -> (g: Gateway)
        ensures
            g.id == id,
            g.phase == Phase::Connecting,
    {
        Gateway { id, phase: Phase::Connecting }
    }

    /// The connection was accepted: register it and tell the others.
    /// Only a connecting gateway does anything.
    pub fn open<C>(&mut self, reg: &mut SessionRegistry<C>, channel: C) -> (r: Reaction)
        requires
            old(reg).wf(),
        ensures
            final(reg).wf(),
            final(self).id == old(self).id,
            old(self).phase == Phase::Connecting ==> {
                &&& final(self).phase == Phase::Active
                &&& final(reg).entries() == registered(old(reg).entries(), old(self).id, channel)
                &&& r matches Reaction::Broadcast(Notice::Joined(j), to)
                &&& j.user_id@ == session_label(old(self).id)
                &&& to@ == recipients(final(reg).entries(), Some(old(self).id))
            },
            old(self).phase != Phase::Connecting ==> {
                &&& final(self).phase == old(self).phase
                &&& final(reg).entries() == old(reg).entries()
                &&& r is Nothing
            },
    {
        if self.phase != Phase::Connecting {
            return Reaction::Nothing;
        }
        reg.register(self.id, channel);
        self.phase = Phase::Active;
        let to = reg.recipients(Some(self.id));
        Reaction::Broadcast(Notice::Joined(UserJoined { user_id: label_of(self.id) }), to)
    }

    /// A frame arrived. An open connection answers a ping and relays a cell
    /// update to every other session; all else is ignored.
    pub fn receive<C>(&self, reg: &SessionRegistry<C>, frame: Frame) -> (r: Reaction)
        ensures
            self.phase == Phase::Active && frame == Frame::Ping ==> r is Pong,
            self.phase == Phase::Active && frame == Frame::Text(true) ==> {
                &&& r matches Reaction::Broadcast(Notice::Relay, to)
                &&& to@ == recipients(reg.entries(), Some(self.id))
            },
            !(self.phase == Phase::Active && (frame == Frame::Ping || frame == Frame::Text(true)))
                ==> r is Nothing,
    {
        if self.phase != Phase::Active {
            return Reaction::Nothing;
        }
        match frame {
            Frame::Ping => Reaction::Pong,
            Frame::Text(true) => Reaction::Broadcast(Notice::Relay, reg.recipients(Some(self.id))),
            _ => Reaction::Nothing,
        }
    }

    /// The connection closed. An open one deregisters and tells the others;
    /// the gateway is closed for good.
    pub fn close<C>(&mut self, reg: &mut SessionRegistry<C>) -> (r: Reaction)
        requires
            old(reg).wf(),
        ensures
            final(reg).wf(),
            final(self).id == old(self).id,
            final(self).phase == Phase::Closed,
            old(self).phase == Phase::Active ==> {
                &&& final(reg).entries() == deregistered(old(reg).entries(), old(self).id)
                &&& r matches Reaction::Broadcast(Notice::Left(l), to)
                &&& l.user_id@ == session_label(old(self).id)
                &&& to@ == recipients(final(reg).entries(), Some(old(self).id))
            },
            old(self).phase != Phase::Active ==> {
                &&& final(reg).entries() == old(reg).entries()
                &&& r is Nothing
            },
    {
        let was = self.phase;
        self.phase = Phase::Closed;
        if was != Phase::Active {
            return Reaction::Nothing;
        }
        reg.deregister(self.id);
        let to = reg.recipients(Some(self.id));
        Reaction::Broadcast(Notice::Left(UserLeft { user_id: label_of(self.id) }), to)
    }
}

} // verus!
