//! The alert record.
//!
//! A `Message` is an opaque alert: the core never interprets its content,
//! it only stores, orders and forwards it.  Text is carried as raw bytes;
//! the caller decides how to render them.  The timestamp is seconds since
//! the epoch, which is also how it is written to the spool.

use vstd::prelude::*;

verus! {

/// Severity of an alert.
#[derive(Clone, Copy, Debug, PartialEq, Eq, Structural)]
pub enum Level {
    Okay,
    Warn,
    Error,
    Unknown,
}

/// A short authentication string typed in by a local client to verify a
/// chat-backend device.
pub struct Sas {
    pub input: Vec<u8>,
}

/// One alert, as accepted from a local client and queued for delivery.
pub struct Message {
    pub title: Vec<u8>,
    pub text: Vec<u8>,
    pub level: Level,
    pub link: Option<Vec<u8>>,
    pub fields: Vec<(Vec<u8>, Vec<u8>)>,
    pub channel: Option<Vec<u8>>,
    pub timestamp: i64,
    pub version: Vec<u8>,
}

/// What a local client may send: an alert to deliver, or input for a
/// device-verification handshake.
pub enum Packet {
    Message(Message),
    Sas(Sas),
}

/// The mathematical value of a [`Message`].
pub struct MessageView {
    pub title: Seq<u8>,
    pub text: Seq<u8>,
    pub level: Level,
    pub link: Option<Seq<u8>>,
    pub fields: Seq<(Seq<u8>, Seq<u8>)>,
    pub channel: Option<Seq<u8>>,
    pub timestamp: i64,
    pub version: Seq<u8>,
}

/// The mathematical value of a list of key/value fields.
pub open spec fn pairs_view(fields: Seq<(Vec<u8>, Vec<u8>)>) -> Seq<(Seq<u8>, Seq<u8>)> {
    Seq::new(fields.len(), |i: int| (fields[i].0@, fields[i].1@))
}

/// The mathematical value of an optional byte string.
pub open spec fn opt_view(v: Option<Vec<u8>>) -> Option<Seq<u8>> {
    match v {
        Some(b) => Some(b@),
        None => None,
    }
}

impl View for Message {
    type V = MessageView;

    open spec fn view(&self) -> MessageView {
        MessageView {
            title: self.title@,
            text: self.text@,
            level: self.level,
            link: opt_view(self.link),
            fields: pairs_view(self.fields@),
            channel: opt_view(self.channel),
            timestamp: self.timestamp,
            version: self.version@,
        }
    }
}

/// The mathematical value of a [`Packet`].
pub enum PacketView {
    Message(MessageView),
    Sas(Seq<u8>),
}

impl View for Packet {
    type V = PacketView;

    open spec fn view(&self) -> PacketView {
        match self {
            Packet::Message(m) => PacketView::Message(m@),
            Packet::Sas(s) => PacketView::Sas(s.input@),
        }
    }
}

/// A byte-for-byte copy of a byte string.
pub fn clone_bytes(v: &Vec<u8>) -> (r: Vec<u8>)
    ensures
        r@ == v@,
{
    let r = v.clone();
    proof {
        assert(r@ =~= v@);
    }
    r
}

/// A copy of an optional byte string.
pub fn clone_opt_bytes(v: &Option<Vec<u8>>) -> (r: Option<Vec<u8>>)
    ensures
        opt_view(r) == opt_view(*v),
{
    match v {
        Some(b) => Some(clone_bytes(b)),
        None => None,
    }
}

impl Message {
    /// A copy of the whole record, equal to the original in value.
    pub fn duplicate(&self) -> (r: Message)
        ensures
            r@ == self@,
    {
        let mut fields: Vec<(Vec<u8>, Vec<u8>)> = Vec::new();
        let mut i: usize = 0;
        while i < self.fields.len()
            invariant
                i <= self.fields.len(),
                fields.len() == i,
                forall|j: int|
                    0 <= j < i ==> #[trigger] fields@[j].0@ == self.fields@[j].0@ && fields@[j].1@
                        == self.fields@[j].1@,
            decreases self.fields.len() - i,
        {
            let k = clone_bytes(&self.fields[i].0);
            let v = clone_bytes(&self.fields[i].1);
            fields.push((k, v));
            i += 1;
        }
        proof {
            assert(pairs_view(fields@) =~= pairs_view(self.fields@));
        }
        let r = Message {
            title: clone_bytes(&self.title),
            text: clone_bytes(&self.text),
            level: self.level,
            link: clone_opt_bytes(&self.link),
            fields,
            channel: clone_opt_bytes(&self.channel),
            timestamp: self.timestamp,
            version: clone_bytes(&self.version),
        };
        r
    }
}

} // verus!
