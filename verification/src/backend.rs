//! Shaping an alert into the payload a webhook-style chat backend expects:
//! one named message carrying one attachment, with the alert's key/value
//! fields spread into attachment fields and the severity turned into a
//! colour.

use crate::message::Level;
use crate::message::Message;
use vstd::prelude::*;

verus! {

/// One key/value entry of an attachment.
pub struct Field {
    pub title: Vec<u8>,
    pub value: Vec<u8>,
    pub short: bool,
}

/// The body of a backend message: the alert, rendered.
pub struct Attachment {
    pub color: Vec<u8>,
    pub title: Vec<u8>,
    pub title_link: Option<Vec<u8>>,
    pub text: Vec<u8>,
    pub fields: Vec<Field>,
    pub footer: Vec<u8>,
    pub ts: i64,
}

/// The payload posted to the backend for one alert.
pub struct BackendMessage {
    pub channel: Option<Vec<u8>>,
    pub username: Vec<u8>,
    pub attachments: Vec<Attachment>,
}

/// The colour a severity level is shown in, as `#rrggbb` bytes.
pub open spec fn spec_level_color(l: Level) -> Seq<u8> {
    match l {
        Level::Okay => seq![35u8, 52, 52, 98, 98, 55, 55],
        Level::Warn => seq![35u8, 102, 102, 97, 97, 52, 52],
        Level::Error => seq![35u8, 102, 102, 53, 53, 54, 54],
        Level::Unknown => seq![35u8, 97, 97, 52, 52, 102, 102],
    }
}

/// The colour a severity level is shown in.
pub fn level_color(l: Level) -> (r: Vec<u8>)
    ensures
        r@ == spec_level_color(l),
{
    let r: Vec<u8> = match l {
        Level::Okay => vec![35u8, 52, 52, 98, 98, 55, 55],
        Level::Warn => vec![35u8, 102, 102, 97, 97, 52, 52],
        Level::Error => vec![35u8, 102, 102, 53, 53, 54, 54],
        Level::Unknown => vec![35u8, 97, 97, 52, 52, 102, 102],
    };
    proof {
        assert(r@ =~= spec_level_color(l));
    }
    r
}

/// Turns the alert's key/value fields into attachment fields, in order,
/// each marked short.
pub fn transform_fields(fields: &Vec<(Vec<u8>, Vec<u8>)>) -> (r: Vec<Field>)
    ensures
        r@.len() == fields@.len(),
        forall|i: int|
            0 <= i < fields@.len() ==> #[trigger] r@[i].title@ == fields@[i].0@ && r@[i].value@
                == fields@[i].1@ && r@[i].short == true,
{
    let mut r: Vec<Field> = Vec::new();
    let mut i: usize = 0;
    while i < fields.len()
        invariant
            i <= fields@.len(),
            r@.len() == i,
            forall|j: int|
                0 <= j < i ==> #[trigger] r@[j].title@ == fields@[j].0@ && r@[j].value@
                    == fields@[j].1@ && r@[j].short == true,
        decreases fields@.len() - i,
    {
        let p = &fields[i];
        r.push(
            Field {
                title: crate::message::clone_bytes(&p.0),
                value: crate::message::clone_bytes(&p.1),
                short: true,
            },
        );
        i += 1;
    }
    r
}

impl BackendMessage {
    /// Renders one alert as a backend payload.  The caller supplies the
    /// sender name shown to the backend (the daemon uses its host name,
    /// which only the driver knows).
    pub fn compose(m: &Message, username: Vec<u8>) -> (r: BackendMessage)
        ensures
            crate::message::opt_view(r.channel) == m@.channel,
            r.username@ == username@,
            r.attachments@.len() == 1,
            r.attachments@[0].color@ == spec_level_color(m@.level),
            r.attachments@[0].title@ == m@.title,
            crate::message::opt_view(r.attachments@[0].title_link) == m@.link,
            r.attachments@[0].text@ == m@.text,
            r.attachments@[0].footer@ == m@.version,
            r.attachments@[0].ts == m@.timestamp,
            r.attachments@[0].fields@.len() == m@.fields.len(),
            forall|i: int|
                0 <= i < m@.fields.len() ==> #[trigger] r.attachments@[0].fields@[i].title@
                    == m@.fields[i].0 && r.attachments@[0].fields@[i].value@ == m@.fields[i].1
                    && r.attachments@[0].fields@[i].short == true,
    {
        let attachment = Attachment {
            color: level_color(m.level),
            title: crate::message::clone_bytes(&m.title),
            title_link: crate::message::clone_opt_bytes(&m.link),
            text: crate::message::clone_bytes(&m.text),
            fields: transform_fields(&m.fields),
            footer: crate::message::clone_bytes(&m.version),
            ts: m.timestamp,
        };
        let mut attachments: Vec<Attachment> = Vec::new();
        attachments.push(attachment);
        let r = BackendMessage {
            channel: crate::message::clone_opt_bytes(&m.channel),
            username,
            attachments,
        };
        proof {
            assert(forall|i: int|
                0 <= i < m@.fields.len() ==> m@.fields[i] == (
                #[trigger] m.fields@[i].0@,
                m.fields@[i].1@,
                ));
        }
        r
    }
}

/// Whether a delivery response status reports success: the backend
/// acknowledges with status 200 and nothing else.
pub fn delivery_succeeded(status: u16) -> (r: bool)
    ensures
        r == (status == 200),
{
    status == 200
}

} // verus!
