//! The record format for alerts and client packets.
//!
//! One alert is one record: a canonical JSON object with the fields of
//! [`Message`](crate::message::Message) in a fixed order.  A client packet
//! wraps either an alert or a verification input in a one-key object.  The
//! encoders are canonical — one value, one byte string — and decoding an
//! encoded record is proved to give the value back.

use crate::codec::enc_i64;
use crate::codec::enc_str;
use crate::codec::is_digit;
use crate::codec::lemma_i64_roundtrip;
use crate::codec::lemma_sp_lit_prefix;
use crate::codec::lemma_sp_string_shrinks;
use crate::codec::lemma_string_roundtrip;
use crate::codec::sp_i64;
use crate::codec::sp_lit;
use crate::codec::sp_string;
use crate::codec::ESC_N;
use crate::codec::QUOTE;
use crate::message::Level;
use crate::message::MessageView;
use crate::message::PacketView;
use vstd::prelude::*;

verus! {

pub const LBRACE: u8 = 123;

pub const RBRACE: u8 = 125;

pub const COMMA: u8 = 44;

pub const COLON: u8 = 58;

/// The literal `{"title":`.
pub open spec fn lit_title() -> Seq<u8> {
    seq![123u8, 34, 116, 105, 116, 108, 101, 34, 58]
}

/// The literal `{"title":`, as a buffer for the executable parser.
pub fn lit_title_vec() -> (v: Vec<u8>)
    ensures
        v@ == lit_title(),
{
    let v: Vec<u8> = vec![123u8, 34, 116, 105, 116, 108, 101, 34, 58];
    proof {
        assert(v@ =~= lit_title());
    }
    v
}

/// The literal `,"text":`.
pub open spec fn lit_text() -> Seq<u8> {
    seq![44u8, 34, 116, 101, 120, 116, 34, 58]
}

/// The literal `,"text":`, as a buffer for the executable parser.
pub fn lit_text_vec() -> (v: Vec<u8>)
    ensures
        v@ == lit_text(),
{
    let v: Vec<u8> = vec![44u8, 34, 116, 101, 120, 116, 34, 58];
    proof {
        assert(v@ =~= lit_text());
    }
    v
}

/// The literal `,"level":`.
pub open spec fn lit_level() -> Seq<u8> {
    seq![44u8, 34, 108, 101, 118, 101, 108, 34, 58]
}

/// The literal `,"level":`, as a buffer for the executable parser.
pub fn lit_level_vec() -> (v: Vec<u8>)
    ensures
        v@ == lit_level(),
{
    let v: Vec<u8> = vec![44u8, 34, 108, 101, 118, 101, 108, 34, 58];
    proof {
        assert(v@ =~= lit_level());
    }
    v
}

/// The literal `,"link":`.
pub open spec fn lit_link() -> Seq<u8> {
    seq![44u8, 34, 108, 105, 110, 107, 34, 58]
}

/// The literal `,"link":`, as a buffer for the executable parser.
pub fn lit_link_vec() -> (v: Vec<u8>)
    ensures
        v@ == lit_link(),
{
    let v: Vec<u8> = vec![44u8, 34, 108, 105, 110, 107, 34, 58];
    proof {
        assert(v@ =~= lit_link());
    }
    v
}

/// The literal `,"fields":`.
pub open spec fn lit_fields() -> Seq<u8> {
    seq![44u8, 34, 102, 105, 101, 108, 100, 115, 34, 58]
}

/// The literal `,"fields":`, as a buffer for the executable parser.
pub fn lit_fields_vec() -> (v: Vec<u8>)
    ensures
        v@ == lit_fields(),
{
    let v: Vec<u8> = vec![44u8, 34, 102, 105, 101, 108, 100, 115, 34, 58];
    proof {
        assert(v@ =~= lit_fields());
    }
    v
}

/// The literal `,"channel":`.
pub open spec fn lit_channel() -> Seq<u8> {
    seq![44u8, 34, 99, 104, 97, 110, 110, 101, 108, 34, 58]
}

/// The literal `,"channel":`, as a buffer for the executable parser.
pub fn lit_channel_vec() -> (v: Vec<u8>)
    ensures
        v@ == lit_channel(),
{
    let v: Vec<u8> = vec![44u8, 34, 99, 104, 97, 110, 110, 101, 108, 34, 58];
    proof {
        assert(v@ =~= lit_channel());
    }
    v
}

/// The literal `,"timestamp":`.
pub open spec fn lit_timestamp() -> Seq<u8> {
    seq![44u8, 34, 116, 105, 109, 101, 115, 116, 97, 109, 112, 34, 58]
}

/// The literal `,"timestamp":`, as a buffer for the executable parser.
pub fn lit_timestamp_vec() -> (v: Vec<u8>)
    ensures
        v@ == lit_timestamp(),
{
    let v: Vec<u8> = vec![44u8, 34, 116, 105, 109, 101, 115, 116, 97, 109, 112, 34, 58];
    proof {
        assert(v@ =~= lit_timestamp());
    }
    v
}

/// The literal `,"version":`.
pub open spec fn lit_version() -> Seq<u8> {
    seq![44u8, 34, 118, 101, 114, 115, 105, 111, 110, 34, 58]
}

/// The literal `,"version":`, as a buffer for the executable parser.
pub fn lit_version_vec() -> (v: Vec<u8>)
    ensures
        v@ == lit_version(),
{
    let v: Vec<u8> = vec![44u8, 34, 118, 101, 114, 115, 105, 111, 110, 34, 58];
    proof {
        assert(v@ =~= lit_version());
    }
    v
}

/// The literal `null`.
pub open spec fn lit_null() -> Seq<u8> {
    seq![110u8, 117, 108, 108]
}

/// The literal `null`, as a buffer for the executable parser.
pub fn lit_null_vec() -> (v: Vec<u8>)
    ensures
        v@ == lit_null(),
{
    let v: Vec<u8> = vec![110u8, 117, 108, 108];
    proof {
        assert(v@ =~= lit_null());
    }
    v
}

/// The literal `"OK"`.
pub open spec fn lv_okay() -> Seq<u8> {
    seq![34u8, 79, 75, 34]
}

/// The literal `"OK"`, as a buffer for the executable parser.
pub fn lv_okay_vec() -> (v: Vec<u8>)
    ensures
        v@ == lv_okay(),
{
    let v: Vec<u8> = vec![34u8, 79, 75, 34];
    proof {
        assert(v@ =~= lv_okay());
    }
    v
}

/// The literal `"WARN"`.
pub open spec fn lv_warn() -> Seq<u8> {
    seq![34u8, 87, 65, 82, 78, 34]
}

/// The literal `"WARN"`, as a buffer for the executable parser.
pub fn lv_warn_vec() -> (v: Vec<u8>)
    ensures
        v@ == lv_warn(),
{
    let v: Vec<u8> = vec![34u8, 87, 65, 82, 78, 34];
    proof {
        assert(v@ =~= lv_warn());
    }
    v
}

/// The literal `"ERROR"`.
pub open spec fn lv_error() -> Seq<u8> {
    seq![34u8, 69, 82, 82, 79, 82, 34]
}

/// The literal `"ERROR"`, as a buffer for the executable parser.
pub fn lv_error_vec() -> (v: Vec<u8>)
    ensures
        v@ == lv_error(),
{
    let v: Vec<u8> = vec![34u8, 69, 82, 82, 79, 82, 34];
    proof {
        assert(v@ =~= lv_error());
    }
    v
}

/// The literal `"UNKNOWN"`.
pub open spec fn lv_unknown() -> Seq<u8> {
    seq![34u8, 85, 78, 75, 78, 79, 87, 78, 34]
}

/// The literal `"UNKNOWN"`, as a buffer for the executable parser.
pub fn lv_unknown_vec() -> (v: Vec<u8>)
    ensures
        v@ == lv_unknown(),
{
    let v: Vec<u8> = vec![34u8, 85, 78, 75, 78, 79, 87, 78, 34];
    proof {
        assert(v@ =~= lv_unknown());
    }
    v
}

/// The literal `{"Message":`.
pub open spec fn lit_pkt_message() -> Seq<u8> {
    seq![123u8, 34, 77, 101, 115, 115, 97, 103, 101, 34, 58]
}

/// The literal `{"Message":`, as a buffer for the executable parser.
pub fn lit_pkt_message_vec() -> (v: Vec<u8>)
    ensures
        v@ == lit_pkt_message(),
{
    let v: Vec<u8> = vec![123u8, 34, 77, 101, 115, 115, 97, 103, 101, 34, 58];
    proof {
        assert(v@ =~= lit_pkt_message());
    }
    v
}

/// The literal `{"Sas":{"input":`.
pub open spec fn lit_pkt_sas() -> Seq<u8> {
    seq![123u8, 34, 83, 97, 115, 34, 58, 123, 34, 105, 110, 112, 117, 116, 34, 58]
}

/// The literal `{"Sas":{"input":`, as a buffer for the executable parser.
pub fn lit_pkt_sas_vec() -> (v: Vec<u8>)
    ensures
        v@ == lit_pkt_sas(),
{
    let v: Vec<u8> = vec![123u8, 34, 83, 97, 115, 34, 58, 123, 34, 105, 110, 112, 117, 116, 34, 58];
    proof {
        assert(v@ =~= lit_pkt_sas());
    }
    v
}

/// The literal `}}`.
pub open spec fn lit_pkt_end_sas() -> Seq<u8> {
    seq![125u8, 125]
}

/// The literal `}}`, as a buffer for the executable parser.
pub fn lit_pkt_end_sas_vec() -> (v: Vec<u8>)
    ensures
        v@ == lit_pkt_end_sas(),
{
    let v: Vec<u8> = vec![125u8, 125];
    proof {
        assert(v@ =~= lit_pkt_end_sas());
    }
    v
}
// ---------------------------------------------------------------------------
// Specification encoders.
// ---------------------------------------------------------------------------
/// The encoding of a severity level.
pub open spec fn enc_level(l: Level) -> Seq<u8> {
    match l {
        Level::Okay => lv_okay(),
        Level::Warn => lv_warn(),
        Level::Error => lv_error(),
        Level::Unknown => lv_unknown(),
    }
}

/// The encoding of the optional link member: absent when there is no link.
pub open spec fn enc_opt_link(l: Option<Seq<u8>>) -> Seq<u8> {
    match l {
        None => Seq::empty(),
        Some(v) => lit_link() + enc_str(v),
    }
}

/// The encoding of the channel value: `null` when there is none.
pub open spec fn enc_channel(c: Option<Seq<u8>>) -> Seq<u8> {
    match c {
        None => lit_null(),
        Some(v) => enc_str(v),
    }
}

/// The encoding of one key/value field.
pub open spec fn enc_pair(p: (Seq<u8>, Seq<u8>)) -> Seq<u8> {
    enc_str(p.0) + seq![COLON] + enc_str(p.1)
}

/// The encoding of every field after the first, each preceded by a comma.
pub open spec fn enc_fields_rest(fs: Seq<(Seq<u8>, Seq<u8>)>) -> Seq<u8>
    decreases fs.len(),
{
    if fs.len() == 0 {
        Seq::empty()
    } else {
        seq![COMMA] + enc_pair(fs[0]) + enc_fields_rest(fs.skip(1))
    }
}

/// The encoding of the members of the field object.
pub open spec fn enc_fields_items(fs: Seq<(Seq<u8>, Seq<u8>)>) -> Seq<u8> {
    if fs.len() == 0 {
        Seq::empty()
    } else {
        enc_pair(fs[0]) + enc_fields_rest(fs.skip(1))
    }
}

/// The encoding of the field object.
pub open spec fn enc_fields(fs: Seq<(Seq<u8>, Seq<u8>)>) -> Seq<u8> {
    seq![LBRACE] + enc_fields_items(fs) + seq![RBRACE]
}

/// The encoding of the second half of an alert record: the fields member
/// onward, closing brace included.
pub open spec fn enc_msg_tail(
    fields: Seq<(Seq<u8>, Seq<u8>)>,
    channel: Option<Seq<u8>>,
    timestamp: i64,
    version: Seq<u8>,
) -> Seq<u8> {
    lit_fields() + enc_fields(fields) + lit_channel() + enc_channel(channel) + lit_timestamp()
        + enc_i64(timestamp) + lit_version() + enc_str(version) + seq![RBRACE]
}

/// The encoding of a whole alert record.
pub open spec fn enc_message(m: MessageView) -> Seq<u8> {
    lit_title() + enc_str(m.title) + lit_text() + enc_str(m.text) + lit_level() + enc_level(m.level)
        + enc_opt_link(m.link) + enc_msg_tail(m.fields, m.channel, m.timestamp, m.version)
}

/// The encoding of a client packet.
pub open spec fn enc_packet(p: PacketView) -> Seq<u8> {
    match p {
        PacketView::Message(m) => lit_pkt_message() + enc_message(m) + seq![RBRACE],
        PacketView::Sas(input) => lit_pkt_sas() + enc_str(input) + lit_pkt_end_sas(),
    }
}

// ---------------------------------------------------------------------------
// Specification parsers.
// ---------------------------------------------------------------------------
/// Parses a severity level.
pub open spec fn sp_level(s: Seq<u8>) -> Option<(Level, Seq<u8>)> {
    match sp_lit(s, lv_okay()) {
        Some(r) => Some((Level::Okay, r)),
        None => match sp_lit(s, lv_warn()) {
            Some(r) => Some((Level::Warn, r)),
            None => match sp_lit(s, lv_error()) {
                Some(r) => Some((Level::Error, r)),
                None => match sp_lit(s, lv_unknown()) {
                    Some(r) => Some((Level::Unknown, r)),
                    None => None,
                },
            },
        },
    }
}

/// Parses the optional link member: nothing is consumed when it is absent.
pub open spec fn sp_link(s: Seq<u8>) -> Option<(Option<Seq<u8>>, Seq<u8>)> {
    match sp_lit(s, lit_link()) {
        Some(r) => match sp_string(r) {
            None => None,
            Some((v, r2)) => Some((Some(v), r2)),
        },
        None => Some((None, s)),
    }
}

/// Parses the channel value: `null` or a string.
pub open spec fn sp_channel(s: Seq<u8>) -> Option<(Option<Seq<u8>>, Seq<u8>)> {
    if s.len() > 0 && s[0] == ESC_N {
        match sp_lit(s, lit_null()) {
            None => None,
            Some(r) => Some((None, r)),
        }
    } else {
        match sp_string(s) {
            None => None,
            Some((v, r)) => Some((Some(v), r)),
        }
    }
}

/// Parses one key/value field.
pub open spec fn sp_pair(s: Seq<u8>) -> Option<((Seq<u8>, Seq<u8>), Seq<u8>)> {
    match sp_string(s) {
        None => None,
        Some((k, r1)) => match sp_lit(r1, seq![COLON]) {
            None => None,
            Some(r2) => match sp_string(r2) {
                None => None,
                Some((v, r3)) => Some(((k, v), r3)),
            },
        },
    }
}

/// Parses the fields after the first, up to and including the closing brace.
pub open spec fn sp_fields_rest(s: Seq<u8>, acc: Seq<(Seq<u8>, Seq<u8>)>) -> Option<
    (Seq<(Seq<u8>, Seq<u8>)>, Seq<u8>),
>
    decreases s.len(),
{
    if s.len() == 0 {
        None
    } else if s[0] == RBRACE {
        Some((acc, s.skip(1)))
    } else if s[0] == COMMA {
        match sp_pair(s.skip(1)) {
            None => None,
            Some((p, r)) => if r.len() < s.len() {
                sp_fields_rest(r, acc.push(p))
            } else {
                None
            },
        }
    } else {
        None
    }
}

/// Parses the field object.
pub open spec fn sp_fields(s: Seq<u8>) -> Option<(Seq<(Seq<u8>, Seq<u8>)>, Seq<u8>)> {
    if s.len() > 0 && s[0] == LBRACE {
        let r = s.skip(1);
        if r.len() > 0 && r[0] == RBRACE {
            Some((Seq::empty(), r.skip(1)))
        } else {
            match sp_pair(r) {
                None => None,
                Some((p, r2)) => if r2.len() < s.len() {
                    sp_fields_rest(r2, seq![p])
                } else {
                    None
                },
            }
        }
    } else {
        None
    }
}

/// Parses the second half of an alert record: the fields member onward.
pub open spec fn sp_msg_tail(s: Seq<u8>) -> Option<
    ((Seq<(Seq<u8>, Seq<u8>)>, Option<Seq<u8>>, i64, Seq<u8>), Seq<u8>),
> {
    match sp_lit(s, lit_fields()) {
        None => None,
        Some(r) => match sp_fields(r) {
            None => None,
            Some((fields, r)) => match sp_lit(r, lit_channel()) {
                None => None,
                Some(r) => match sp_channel(r) {
                    None => None,
                    Some((channel, r)) => match sp_lit(r, lit_timestamp()) {
                        None => None,
                        Some(r) => match sp_i64(r) {
                            None => None,
                            Some((timestamp, r)) => match sp_lit(r, lit_version()) {
                                None => None,
                                Some(r) => match sp_string(r) {
                                    None => None,
                                    Some((version, r)) => match sp_lit(r, seq![RBRACE]) {
                                        None => None,
                                        Some(r) => Some(((fields, channel, timestamp, version), r)),
                                    },
                                },
                            },
                        },
                    },
                },
            },
        },
    }
}

/// Parses a whole alert record.
pub open spec fn sp_message(s: Seq<u8>) -> Option<(MessageView, Seq<u8>)> {
    match sp_lit(s, lit_title()) {
        None => None,
        Some(r) => match sp_string(r) {
            None => None,
            Some((title, r)) => match sp_lit(r, lit_text()) {
                None => None,
                Some(r) => match sp_string(r) {
                    None => None,
                    Some((text, r)) => match sp_lit(r, lit_level()) {
                        None => None,
                        Some(r) => match sp_level(r) {
                            None => None,
                            Some((level, r)) => match sp_link(r) {
                                None => None,
                                Some((link, r)) => match sp_msg_tail(r) {
                                    None => None,
                                    Some(((fields, channel, timestamp, version), r)) => Some(
                                        (
                                            MessageView {
                                                title,
                                                text,
                                                level,
                                                link,
                                                fields,
                                                channel,
                                                timestamp,
                                                version,
                                            },
                                            r,
                                        ),
                                    ),
                                },
                            },
                        },
                    },
                },
            },
        },
    }
}

/// Parses a client packet.
pub open spec fn sp_packet(s: Seq<u8>) -> Option<(PacketView, Seq<u8>)> {
    match sp_lit(s, lit_pkt_message()) {
        Some(r) => match sp_message(r) {
            None => None,
            Some((m, r2)) => match sp_lit(r2, seq![RBRACE]) {
                None => None,
                Some(r3) => Some((PacketView::Message(m), r3)),
            },
        },
        None => match sp_lit(s, lit_pkt_sas()) {
            None => None,
            Some(r) => match sp_string(r) {
                None => None,
                Some((input, r2)) => match sp_lit(r2, lit_pkt_end_sas()) {
                    None => None,
                    Some(r3) => Some((PacketView::Sas(input), r3)),
                },
            },
        },
    }
}

/// The alert record held in a full byte string, if it holds exactly one.
pub open spec fn dec_message(s: Seq<u8>) -> Option<MessageView> {
    match sp_message(s) {
        Some((m, r)) => if r.len() == 0 {
            Some(m)
        } else {
            None
        },
        None => None,
    }
}

/// The packet held in a full byte string, if it holds exactly one.
pub open spec fn dec_packet(s: Seq<u8>) -> Option<PacketView> {
    match sp_packet(s) {
        Some((p, r)) => if r.len() == 0 {
            Some(p)
        } else {
            None
        },
        None => None,
    }
}

} // verus!

verus! {

// ---------------------------------------------------------------------------
// Round trips: parsing an encoding followed by any remainder yields the
// encoded value and the remainder.
// ---------------------------------------------------------------------------
/// A literal that differs from the input at one position does not parse.
pub proof fn lemma_sp_lit_mismatch(s: Seq<u8>, lit: Seq<u8>, i: int)
    requires
        0 <= i < lit.len(),
        i < s.len(),
        s[i] != lit[i],
    ensures
        sp_lit(s, lit) is None,
{
    if lit.len() <= s.len() && s.take(lit.len() as int) == lit {
        assert(s.take(lit.len() as int)[i] == s[i]);
    }
}

/// Round trip for severity levels.
pub proof fn lemma_level_roundtrip(l: Level, rest: Seq<u8>)
    ensures
        sp_level(enc_level(l) + rest) == Some((l, rest)),
{
    let full = enc_level(l) + rest;
    match l {
        Level::Okay => {
            lemma_sp_lit_prefix(lv_okay(), rest);
        },
        Level::Warn => {
            assert(full[1] == 87);
            lemma_sp_lit_mismatch(full, lv_okay(), 1);
            lemma_sp_lit_prefix(lv_warn(), rest);
        },
        Level::Error => {
            assert(full[1] == 69);
            lemma_sp_lit_mismatch(full, lv_okay(), 1);
            lemma_sp_lit_mismatch(full, lv_warn(), 1);
            lemma_sp_lit_prefix(lv_error(), rest);
        },
        Level::Unknown => {
            assert(full[1] == 85);
            lemma_sp_lit_mismatch(full, lv_okay(), 1);
            lemma_sp_lit_mismatch(full, lv_warn(), 1);
            lemma_sp_lit_mismatch(full, lv_error(), 1);
            lemma_sp_lit_prefix(lv_unknown(), rest);
        },
    }
}

/// Round trip for one key/value field.
pub proof fn lemma_pair_roundtrip(p: (Seq<u8>, Seq<u8>), rest: Seq<u8>)
    ensures
        sp_pair(enc_pair(p) + rest) == Some((p, rest)),
{
    let t2 = enc_str(p.1) + rest;
    let t1 = seq![COLON] + t2;
    let full = enc_str(p.0) + t1;
    assert(enc_pair(p) + rest =~= full);
    lemma_string_roundtrip(p.0, t1);
    lemma_sp_lit_prefix(seq![COLON], t2);
    lemma_string_roundtrip(p.1, rest);
}

/// Round trip for the tail of the field object.
pub proof fn lemma_fields_rest_roundtrip(
    done: Seq<(Seq<u8>, Seq<u8>)>,
    fs: Seq<(Seq<u8>, Seq<u8>)>,
    rest: Seq<u8>,
)
    ensures
        sp_fields_rest(enc_fields_rest(fs) + seq![RBRACE] + rest, done) == Some((done + fs, rest)),
    decreases fs.len(),
{
    let full = enc_fields_rest(fs) + seq![RBRACE] + rest;
    if fs.len() == 0 {
        assert(full[0] == RBRACE);
        assert(full.skip(1) =~= rest);
        assert(done + fs =~= done);
    } else {
        let p = fs[0];
        let tail = fs.skip(1);
        let t1 = enc_fields_rest(tail) + seq![RBRACE] + rest;
        let t0 = enc_pair(p) + t1;
        assert(full =~= seq![COMMA] + t0);
        assert(full[0] == COMMA);
        assert(full[0] != RBRACE);
        assert(full.skip(1) =~= t0);
        lemma_pair_roundtrip(p, t1);
        assert(t1.len() < full.len()) by {
            assert(enc_pair(p).len() >= 0);
        }
        lemma_fields_rest_roundtrip(done.push(p), tail, rest);
        assert(done.push(p) + tail =~= done + fs);
    }
}

/// Round trip for the field object.
pub proof fn lemma_fields_roundtrip(fs: Seq<(Seq<u8>, Seq<u8>)>, rest: Seq<u8>)
    ensures
        sp_fields(enc_fields(fs) + rest) == Some((fs, rest)),
{
    let full = enc_fields(fs) + rest;
    assert(full[0] == LBRACE);
    if fs.len() == 0 {
        assert(full.skip(1) =~= seq![RBRACE] + rest);
        assert(full.skip(1)[0] == RBRACE);
        assert(full.skip(1).skip(1) =~= rest);
        assert(Seq::<(Seq<u8>, Seq<u8>)>::empty() =~= fs);
    } else {
        let p = fs[0];
        let tail = fs.skip(1);
        let t1 = enc_fields_rest(tail) + seq![RBRACE] + rest;
        let r = full.skip(1);
        assert(r =~= enc_pair(p) + t1);
        assert(r[0] == QUOTE);
        assert(r[0] != RBRACE);
        lemma_pair_roundtrip(p, t1);
        assert(t1.len() < full.len());
        lemma_fields_rest_roundtrip(seq![p], tail, rest);
        assert(seq![p] + tail =~= fs);
    }
}

/// Round trip for the optional link member.
pub proof fn lemma_link_roundtrip(link: Option<Seq<u8>>, tail: Seq<u8>)
    requires
        tail.len() > 2,
        tail[0] == COMMA,
        tail[1] == QUOTE,
        tail[2] == 102,
    ensures
        sp_link(enc_opt_link(link) + tail) == Some((link, tail)),
{
    match link {
        None => {
            let full = enc_opt_link(link) + tail;
            assert(full =~= tail);
            assert(full[2] == 102);
            assert(lit_link()[2] == 108);
            lemma_sp_lit_mismatch(full, lit_link(), 2);
        },
        Some(v) => {
            let t1 = enc_str(v) + tail;
            let full = enc_opt_link(link) + tail;
            assert(full =~= lit_link() + t1);
            lemma_sp_lit_prefix(lit_link(), t1);
            lemma_string_roundtrip(v, tail);
        },
    }
}

/// Round trip for the channel value.
pub proof fn lemma_channel_roundtrip(channel: Option<Seq<u8>>, tail: Seq<u8>)
    ensures
        sp_channel(enc_channel(channel) + tail) == Some((channel, tail)),
{
    match channel {
        None => {
            let full = enc_channel(channel) + tail;
            assert(full =~= lit_null() + tail);
            assert(full[0] == ESC_N);
            lemma_sp_lit_prefix(lit_null(), tail);
        },
        Some(v) => {
            let full = enc_channel(channel) + tail;
            assert(full =~= enc_str(v) + tail);
            assert(full[0] == QUOTE);
            assert(full[0] != ESC_N);
            lemma_string_roundtrip(v, tail);
        },
    }
}

/// Round trip for the second half of an alert record.
pub proof fn lemma_msg_tail_roundtrip(
    fields: Seq<(Seq<u8>, Seq<u8>)>,
    channel: Option<Seq<u8>>,
    timestamp: i64,
    version: Seq<u8>,
    rest: Seq<u8>,
)
    ensures
        sp_msg_tail(enc_msg_tail(fields, channel, timestamp, version) + rest) == Some(
            ((fields, channel, timestamp, version), rest),
        ),
{
    let t9 = seq![RBRACE] + rest;
    let t8 = enc_str(version) + t9;
    let t7 = lit_version() + t8;
    let t6 = enc_i64(timestamp) + t7;
    let t5 = lit_timestamp() + t6;
    let t4 = enc_channel(channel) + t5;
    let t3 = lit_channel() + t4;
    let t2 = enc_fields(fields) + t3;
    let full = lit_fields() + t2;
    assert(enc_msg_tail(fields, channel, timestamp, version) + rest =~= full);
    lemma_sp_lit_prefix(lit_fields(), t2);
    lemma_fields_roundtrip(fields, t3);
    lemma_sp_lit_prefix(lit_channel(), t4);
    lemma_channel_roundtrip(channel, t5);
    lemma_sp_lit_prefix(lit_timestamp(), t6);
    assert(t7[0] == COMMA);
    assert(!is_digit(t7[0]));
    lemma_i64_roundtrip(timestamp, t7);
    lemma_sp_lit_prefix(lit_version(), t8);
    lemma_string_roundtrip(version, t9);
    lemma_sp_lit_prefix(seq![RBRACE], rest);
}

/// Round trip for a whole alert record.
#[verifier::rlimit(100)]
#[verifier::spinoff_prover]
pub proof fn lemma_message_roundtrip(m: MessageView, rest: Seq<u8>)
    ensures
        sp_message(enc_message(m) + rest) == Some((m, rest)),
{
    let t1 = enc_msg_tail(m.fields, m.channel, m.timestamp, m.version) + rest;
    let t0 = enc_opt_link(m.link) + t1;
    let u2 = enc_level(m.level) + t0;
    let u1 = lit_level() + u2;
    let u0 = enc_str(m.text) + u1;
    let s1 = lit_text() + u0;
    let s0 = enc_str(m.title) + s1;
    let full = lit_title() + s0;
    assert(enc_message(m) + rest =~= full);
    lemma_sp_lit_prefix(lit_title(), s0);
    lemma_string_roundtrip(m.title, s1);
    lemma_sp_lit_prefix(lit_text(), u0);
    lemma_string_roundtrip(m.text, u1);
    lemma_sp_lit_prefix(lit_level(), u2);
    lemma_level_roundtrip(m.level, t0);
    assert(t1[0] == COMMA && t1[1] == QUOTE && t1[2] == 102);
    lemma_link_roundtrip(m.link, t1);
    lemma_msg_tail_roundtrip(m.fields, m.channel, m.timestamp, m.version, rest);
    let got = sp_message(full);
    assert(got is Some);
    let (gm, gr) = got->Some_0;
    assert(gr == rest);
    assert(gm == m);
}

/// Round trip for a client packet.
pub proof fn lemma_packet_roundtrip(p: PacketView, rest: Seq<u8>)
    ensures
        sp_packet(enc_packet(p) + rest) == Some((p, rest)),
{
    match p {
        PacketView::Message(m) => {
            let t1 = seq![RBRACE] + rest;
            let t0 = enc_message(m) + t1;
            let full = enc_packet(p) + rest;
            assert(full =~= lit_pkt_message() + t0);
            lemma_sp_lit_prefix(lit_pkt_message(), t0);
            lemma_message_roundtrip(m, t1);
            lemma_sp_lit_prefix(seq![RBRACE], rest);
        },
        PacketView::Sas(input) => {
            let t1 = lit_pkt_end_sas() + rest;
            let full = enc_packet(p) + rest;
            assert(full =~= lit_pkt_sas() + (enc_str(input) + t1));
            assert(full[2] == 83);
            assert(lit_pkt_message()[2] == 77);
            lemma_sp_lit_mismatch(full, lit_pkt_message(), 2);
            lemma_sp_lit_prefix(lit_pkt_sas(), enc_str(input) + t1);
            lemma_string_roundtrip(input, t1);
            lemma_sp_lit_prefix(lit_pkt_end_sas(), rest);
        },
    }
}

/// Decoding an encoded alert record gives the record back.
pub proof fn lemma_dec_message_roundtrip(m: MessageView)
    ensures
        dec_message(enc_message(m)) == Some(m),
{
    lemma_message_roundtrip(m, Seq::empty());
    assert(enc_message(m) + Seq::<u8>::empty() =~= enc_message(m));
}

/// Decoding an encoded packet gives the packet back.
pub proof fn lemma_dec_packet_roundtrip(p: PacketView)
    ensures
        dec_packet(enc_packet(p)) == Some(p),
{
    lemma_packet_roundtrip(p, Seq::empty());
    assert(enc_packet(p) + Seq::<u8>::empty() =~= enc_packet(p));
}

/// The encoding is canonical: two alerts with the same encoding are the
/// same alert.
pub proof fn lemma_enc_message_injective(a: MessageView, b: MessageView)
    requires
        enc_message(a) == enc_message(b),
    ensures
        a == b,
{
    lemma_dec_message_roundtrip(a);
    lemma_dec_message_roundtrip(b);
}

} // verus!

verus! {

// ---------------------------------------------------------------------------
// Executable parsers.
// ---------------------------------------------------------------------------
/// Parses a severity level at position `i`.
pub fn parse_level(s: &Vec<u8>, i: usize) -> (r: Option<(Level, usize)>)
    requires
        i <= s@.len(),
    ensures
        match r {
            Some(p) => i <= p.1 <= s@.len() && sp_level(s@.skip(i as int)) == Some(
                (p.0, s@.skip(p.1 as int)),
            ),
            None => sp_level(s@.skip(i as int)) is None,
        },
{
    let lv = lv_okay_vec();
    if let Some(j) = crate::codec::eat(s, i, &lv) {
        return Some((Level::Okay, j));
    }
    let lv = lv_warn_vec();
    if let Some(j) = crate::codec::eat(s, i, &lv) {
        return Some((Level::Warn, j));
    }
    let lv = lv_error_vec();
    if let Some(j) = crate::codec::eat(s, i, &lv) {
        return Some((Level::Error, j));
    }
    let lv = lv_unknown_vec();
    if let Some(j) = crate::codec::eat(s, i, &lv) {
        return Some((Level::Unknown, j));
    }
    None
}

/// Parses one key/value field at position `i`.
pub fn parse_pair(s: &Vec<u8>, i: usize) -> (r: Option<((Vec<u8>, Vec<u8>), usize)>)
    requires
        i <= s@.len(),
    ensures
        match r {
            Some(p) => i < p.1 <= s@.len() && sp_pair(s@.skip(i as int)) == Some(
                ((p.0.0@, p.0.1@), s@.skip(p.1 as int)),
            ),
            None => sp_pair(s@.skip(i as int)) is None,
        },
{
    match crate::codec::parse_string(s, i) {
        None => None,
        Some((k, j1)) => {
            proof {
                lemma_sp_string_shrinks(s@.skip(i as int));
            }
            let colon: Vec<u8> = vec![COLON];
            proof {
                assert(colon@ =~= seq![COLON]);
            }
            match crate::codec::eat(s, j1, &colon) {
                None => None,
                Some(j2) => {
                    match crate::codec::parse_string(s, j2) {
                        None => None,
                        Some((v, j3)) => Some(((k, v), j3)),
                    }
                },
            }
        },
    }
}

/// Parses the field object at position `i`.
pub fn parse_fields(s: &Vec<u8>, i: usize) -> (r: Option<(Vec<(Vec<u8>, Vec<u8>)>, usize)>)
    requires
        i <= s@.len(),
    ensures
        match r {
            Some(p) => i <= p.1 <= s@.len() && sp_fields(s@.skip(i as int)) == Some(
                (crate::message::pairs_view(p.0@), s@.skip(p.1 as int)),
            ),
            None => sp_fields(s@.skip(i as int)) is None,
        },
{
    if i == s.len() || s[i] != LBRACE {
        proof {
            if i < s@.len() {
                assert(s@.skip(i as int)[0] == s@[i as int]);
            }
        }
        return None;
    }
    proof {
        assert(s@.skip(i as int)[0] == LBRACE);
        assert(s@.skip(i as int).skip(1) =~= s@.skip(i + 1));
    }
    let start = i + 1;
    if start < s.len() && s[start] == RBRACE {
        let empty: Vec<(Vec<u8>, Vec<u8>)> = Vec::new();
        proof {
            assert(s@.skip(start as int)[0] == RBRACE);
            assert(s@.skip(start as int).skip(1) =~= s@.skip(start + 1));
            assert(crate::message::pairs_view(empty@) =~= Seq::<(Seq<u8>, Seq<u8>)>::empty());
        }
        return Some((empty, start + 1));
    }
    proof {
        if start < s@.len() {
            assert(s@.skip(start as int)[0] == s@[start as int]);
        }
    }
    let mut acc: Vec<(Vec<u8>, Vec<u8>)> = Vec::new();
    let mut cur: usize;
    match parse_pair(s, start) {
        None => {
            return None;
        },
        Some((p, j)) => {
            acc.push(p);
            cur = j;
            proof {
                assert(s@.skip(j as int).len() < s@.skip(i as int).len());
                assert(crate::message::pairs_view(acc@) =~= seq![(p.0@, p.1@)]);
            }
        },
    }
    loop
        invariant
            i < cur <= s@.len(),
            sp_fields(s@.skip(i as int)) == sp_fields_rest(
                s@.skip(cur as int),
                crate::message::pairs_view(acc@),
            ),
        decreases s@.len() - cur,
    {
        if cur == s.len() {
            return None;
        }
        let b = s[cur];
        proof {
            assert(s@.skip(cur as int)[0] == b);
            assert(s@.skip(cur as int).skip(1) =~= s@.skip(cur + 1));
        }
        if b == RBRACE {
            return Some((acc, cur + 1));
        }
        if b != COMMA {
            return None;
        }
        match parse_pair(s, cur + 1) {
            None => {
                return None;
            },
            Some((p, j)) => {
                let ghost pre = crate::message::pairs_view(acc@);
                acc.push(p);
                proof {
                    assert(s@.skip(j as int).len() < s@.skip(cur as int).len());
                    assert(crate::message::pairs_view(acc@) =~= pre.push((p.0@, p.1@)));
                }
                cur = j;
            },
        }
    }
}

/// Parses the optional link member at position `i`.
pub fn parse_link(s: &Vec<u8>, i: usize) -> (r: Option<(Option<Vec<u8>>, usize)>)
    requires
        i <= s@.len(),
    ensures
        match r {
            Some(p) => i <= p.1 <= s@.len() && sp_link(s@.skip(i as int)) == Some(
                (crate::message::opt_view(p.0), s@.skip(p.1 as int)),
            ),
            None => sp_link(s@.skip(i as int)) is None,
        },
{
    let lk = lit_link_vec();
    match crate::codec::eat(s, i, &lk) {
        None => Some((None, i)),
        Some(j) => {
            match crate::codec::parse_string(s, j) {
                None => None,
                Some((v, j2)) => Some((Some(v), j2)),
            }
        },
    }
}

/// Parses the channel value at position `i`.
pub fn parse_channel(s: &Vec<u8>, i: usize) -> (r: Option<(Option<Vec<u8>>, usize)>)
    requires
        i <= s@.len(),
    ensures
        match r {
            Some(p) => i <= p.1 <= s@.len() && sp_channel(s@.skip(i as int)) == Some(
                (crate::message::opt_view(p.0), s@.skip(p.1 as int)),
            ),
            None => sp_channel(s@.skip(i as int)) is None,
        },
{
    if i < s.len() && s[i] == ESC_N {
        proof {
            assert(s@.skip(i as int)[0] == ESC_N);
        }
        let nl = lit_null_vec();
        match crate::codec::eat(s, i, &nl) {
            None => None,
            Some(j) => Some((None, j)),
        }
    } else {
        proof {
            if i < s@.len() {
                assert(s@.skip(i as int)[0] == s@[i as int]);
            }
        }
        match crate::codec::parse_string(s, i) {
            None => None,
            Some((v, j)) => Some((Some(v), j)),
        }
    }
}

/// Parses a whole alert record at position `i`.
pub fn parse_message(s: &Vec<u8>, i: usize) -> (r: Option<(crate::message::Message, usize)>)
    requires
        i <= s@.len(),
    ensures
        match r {
            Some(p) => i <= p.1 <= s@.len() && sp_message(s@.skip(i as int)) == Some(
                (p.0@, s@.skip(p.1 as int)),
            ),
            None => sp_message(s@.skip(i as int)) is None,
        },
{
    let lt = lit_title_vec();
    let j0 = match crate::codec::eat(s, i, &lt) {
        None => {
            return None;
        },
        Some(j) => j,
    };
    let (title, j1) = match crate::codec::parse_string(s, j0) {
        None => {
            return None;
        },
        Some(p) => p,
    };
    let lt = lit_text_vec();
    let j2 = match crate::codec::eat(s, j1, &lt) {
        None => {
            return None;
        },
        Some(j) => j,
    };
    let (text, j3) = match crate::codec::parse_string(s, j2) {
        None => {
            return None;
        },
        Some(p) => p,
    };
    let lt = lit_level_vec();
    let j4 = match crate::codec::eat(s, j3, &lt) {
        None => {
            return None;
        },
        Some(j) => j,
    };
    let (level, j5) = match parse_level(s, j4) {
        None => {
            return None;
        },
        Some(p) => p,
    };
    let (link, j6) = match parse_link(s, j5) {
        None => {
            return None;
        },
        Some(p) => p,
    };
    let lt = lit_fields_vec();
    let j7 = match crate::codec::eat(s, j6, &lt) {
        None => {
            return None;
        },
        Some(j) => j,
    };
    let (fields, j8) = match parse_fields(s, j7) {
        None => {
            return None;
        },
        Some(p) => p,
    };
    let lt = lit_channel_vec();
    let j9 = match crate::codec::eat(s, j8, &lt) {
        None => {
            return None;
        },
        Some(j) => j,
    };
    let (channel, j10) = match parse_channel(s, j9) {
        None => {
            return None;
        },
        Some(p) => p,
    };
    let lt = lit_timestamp_vec();
    let j11 = match crate::codec::eat(s, j10, &lt) {
        None => {
            return None;
        },
        Some(j) => j,
    };
    let (timestamp, j12) = match crate::codec::parse_i64(s, j11) {
        None => {
            return None;
        },
        Some(p) => p,
    };
    let lt = lit_version_vec();
    let j13 = match crate::codec::eat(s, j12, &lt) {
        None => {
            return None;
        },
        Some(j) => j,
    };
    let (version, j14) = match crate::codec::parse_string(s, j13) {
        None => {
            return None;
        },
        Some(p) => p,
    };
    let rb: Vec<u8> = vec![RBRACE];
    proof {
        assert(rb@ =~= seq![RBRACE]);
    }
    let j15 = match crate::codec::eat(s, j14, &rb) {
        None => {
            return None;
        },
        Some(j) => j,
    };
    let m = crate::message::Message { title, text, level, link, fields, channel, timestamp, version };
    proof {
        let got = sp_message(s@.skip(i as int));
        assert(got is Some);
        assert(got->Some_0.0 == m@);
    }
    Some((m, j15))
}

/// Parses a client packet at position `i`.
pub fn parse_packet(s: &Vec<u8>, i: usize) -> (r: Option<(crate::message::Packet, usize)>)
    requires
        i <= s@.len(),
    ensures
        match r {
            Some(p) => i <= p.1 <= s@.len() && sp_packet(s@.skip(i as int)) == Some(
                (p.0@, s@.skip(p.1 as int)),
            ),
            None => sp_packet(s@.skip(i as int)) is None,
        },
{
    let lt = lit_pkt_message_vec();
    match crate::codec::eat(s, i, &lt) {
        Some(j) => {
            let (m, j2) = match parse_message(s, j) {
                None => {
                    return None;
                },
                Some(p) => p,
            };
            let rb: Vec<u8> = vec![RBRACE];
            proof {
                assert(rb@ =~= seq![RBRACE]);
            }
            match crate::codec::eat(s, j2, &rb) {
                None => None,
                Some(j3) => Some((crate::message::Packet::Message(m), j3)),
            }
        },
        None => {
            let lt = lit_pkt_sas_vec();
            let j = match crate::codec::eat(s, i, &lt) {
                None => {
                    return None;
                },
                Some(j) => j,
            };
            let (input, j2) = match crate::codec::parse_string(s, j) {
                None => {
                    return None;
                },
                Some(p) => p,
            };
            let lt = lit_pkt_end_sas_vec();
            match crate::codec::eat(s, j2, &lt) {
                None => None,
                Some(j3) => Some(
                    (crate::message::Packet::Sas(crate::message::Sas { input }), j3),
                ),
            }
        },
    }
}

/// Decodes a byte string that should hold exactly one alert record.
pub fn decode_message(s: &Vec<u8>) -> (r: Option<crate::message::Message>)
    ensures
        match r {
            Some(m) => dec_message(s@) == Some(m@),
            None => dec_message(s@) is None,
        },
{
    proof {
        assert(s@.skip(0) =~= s@);
    }
    match parse_message(s, 0) {
        None => None,
        Some((m, j)) => {
            if j == s.len() {
                proof {
                    assert(s@.skip(j as int).len() == 0);
                }
                Some(m)
            } else {
                proof {
                    assert(s@.skip(j as int).len() > 0);
                }
                None
            }
        },
    }
}

/// Decodes a byte string that should hold exactly one client packet.
pub fn decode_packet(s: &Vec<u8>) -> (r: Option<crate::message::Packet>)
    ensures
        match r {
            Some(p) => dec_packet(s@) == Some(p@),
            None => dec_packet(s@) is None,
        },
{
    proof {
        assert(s@.skip(0) =~= s@);
    }
    match parse_packet(s, 0) {
        None => None,
        Some((p, j)) => {
            if j == s.len() {
                proof {
                    assert(s@.skip(j as int).len() == 0);
                }
                Some(p)
            } else {
                proof {
                    assert(s@.skip(j as int).len() > 0);
                }
                None
            }
        },
    }
}

} // verus!

verus! {

// ---------------------------------------------------------------------------
// Executable encoders.
// ---------------------------------------------------------------------------
/// Appending one more field extends the encoded tail by a comma and that
/// field.
proof fn lemma_enc_fields_rest_push(fs: Seq<(Seq<u8>, Seq<u8>)>, p: (Seq<u8>, Seq<u8>))
    ensures
        enc_fields_rest(fs.push(p)) == enc_fields_rest(fs) + seq![COMMA] + enc_pair(p),
    decreases fs.len(),
{
    if fs.len() == 0 {
        assert(fs.push(p) =~= seq![p]);
        assert(seq![p].skip(1) =~= Seq::<(Seq<u8>, Seq<u8>)>::empty());
        assert(enc_fields_rest(Seq::<(Seq<u8>, Seq<u8>)>::empty()) == Seq::<u8>::empty());
        assert(enc_fields_rest(seq![p]) == seq![COMMA] + enc_pair(p) + Seq::<u8>::empty());
        assert(enc_fields_rest(fs.push(p)) =~= enc_fields_rest(fs) + seq![COMMA] + enc_pair(p));
    } else {
        assert(fs.push(p).skip(1) =~= fs.skip(1).push(p));
        lemma_enc_fields_rest_push(fs.skip(1), p);
        assert(fs.push(p)[0] == fs[0]);
        assert(enc_fields_rest(fs.push(p)) =~= enc_fields_rest(fs) + seq![COMMA] + enc_pair(p));
    }
}

/// Appends the encoding of a severity level.
pub fn encode_level(out: &mut Vec<u8>, l: Level)
    ensures
        final(out)@ == old(out)@ + enc_level(l),
{
    let lv = match l {
        Level::Okay => lv_okay_vec(),
        Level::Warn => lv_warn_vec(),
        Level::Error => lv_error_vec(),
        Level::Unknown => lv_unknown_vec(),
    };
    crate::codec::push_bytes(out, &lv);
}

/// Appends the encoding of one key/value field.
fn encode_pair(out: &mut Vec<u8>, k: &Vec<u8>, v: &Vec<u8>)
    ensures
        final(out)@ == old(out)@ + enc_pair((k@, v@)),
{
    crate::codec::push_string(out, k);
    out.push(COLON);
    crate::codec::push_string(out, v);
    proof {
        assert(final(out)@ =~= old(out)@ + enc_pair((k@, v@)));
    }
}

/// Appends the encoding of the field object.
pub fn encode_fields(out: &mut Vec<u8>, fields: &Vec<(Vec<u8>, Vec<u8>)>)
    ensures
        final(out)@ == old(out)@ + enc_fields(crate::message::pairs_view(fields@)),
{
    let ghost gf = crate::message::pairs_view(fields@);
    out.push(LBRACE);
    if fields.len() == 0 {
        out.push(RBRACE);
        proof {
            assert(enc_fields_items(gf) == Seq::<u8>::empty());
            assert(final(out)@ =~= old(out)@ + enc_fields(gf));
        }
        return ;
    }
    let p = &fields[0];
    encode_pair(out, &p.0, &p.1);
    proof {
        assert(gf[0] == (fields@[0].0@, fields@[0].1@));
    }
    let ghost base = old(out)@ + seq![LBRACE] + enc_pair(gf[0]);
    proof {
        assert(out@ =~= base);
    }
    let mut i: usize = 1;
    while i < fields.len()
        invariant
            1 <= i <= fields@.len(),
            gf == crate::message::pairs_view(fields@),
            gf.len() == fields@.len(),
            out@ == base + enc_fields_rest(gf.take(i as int).skip(1)),
        decreases fields@.len() - i,
    {
        out.push(COMMA);
        let p = &fields[i];
        encode_pair(out, &p.0, &p.1);
        proof {
            assert(gf[i as int] == (fields@[i as int].0@, fields@[i as int].1@));
            assert(gf.take(i + 1).skip(1) =~= gf.take(i as int).skip(1).push(gf[i as int]));
            lemma_enc_fields_rest_push(gf.take(i as int).skip(1), gf[i as int]);
            assert(out@ =~= base + enc_fields_rest(gf.take(i + 1).skip(1)));
        }
        i += 1;
    }
    out.push(RBRACE);
    proof {
        assert(gf.take(gf.len() as int) =~= gf);
        assert(final(out)@ =~= old(out)@ + enc_fields(gf));
    }
}

/// Appends the encoding of the optional link member.
fn encode_link(out: &mut Vec<u8>, link: &Option<Vec<u8>>)
    ensures
        final(out)@ == old(out)@ + enc_opt_link(crate::message::opt_view(*link)),
{
    match link {
        None => {
            proof {
                assert(old(out)@ + Seq::<u8>::empty() =~= old(out)@);
            }
        },
        Some(v) => {
            let lt = lit_link_vec();
            crate::codec::push_bytes(out, &lt);
            crate::codec::push_string(out, v);
            proof {
                assert(final(out)@ =~= old(out)@ + enc_opt_link(
                    crate::message::opt_view(*link),
                ));
            }
        },
    }
}

/// Appends the encoding of the channel value.
fn encode_channel(out: &mut Vec<u8>, channel: &Option<Vec<u8>>)
    ensures
        final(out)@ == old(out)@ + enc_channel(crate::message::opt_view(*channel)),
{
    match channel {
        None => {
            let lt = lit_null_vec();
            crate::codec::push_bytes(out, &lt);
        },
        Some(v) => {
            crate::codec::push_string(out, v);
        },
    }
}

/// The canonical encoding of a whole alert record.
pub fn encode_message(m: &crate::message::Message) -> (r: Vec<u8>)
    ensures
        r@ == enc_message(m@),
{
    let mut out: Vec<u8> = Vec::new();
    let lt = lit_title_vec();
    crate::codec::push_bytes(&mut out, &lt);
    crate::codec::push_string(&mut out, &m.title);
    let lt = lit_text_vec();
    crate::codec::push_bytes(&mut out, &lt);
    crate::codec::push_string(&mut out, &m.text);
    let lt = lit_level_vec();
    crate::codec::push_bytes(&mut out, &lt);
    encode_level(&mut out, m.level);
    encode_link(&mut out, &m.link);
    let lt = lit_fields_vec();
    crate::codec::push_bytes(&mut out, &lt);
    encode_fields(&mut out, &m.fields);
    let lt = lit_channel_vec();
    crate::codec::push_bytes(&mut out, &lt);
    encode_channel(&mut out, &m.channel);
    let lt = lit_timestamp_vec();
    crate::codec::push_bytes(&mut out, &lt);
    crate::codec::push_i64(&mut out, m.timestamp);
    let lt = lit_version_vec();
    crate::codec::push_bytes(&mut out, &lt);
    crate::codec::push_string(&mut out, &m.version);
    out.push(RBRACE);
    proof {
        assert(out@ =~= enc_message(m@));
    }
    out
}

/// The canonical encoding of a client packet.
pub fn encode_packet(p: &crate::message::Packet) -> (r: Vec<u8>)
    ensures
        r@ == enc_packet(p@),
{
    let mut out: Vec<u8> = Vec::new();
    match p {
        crate::message::Packet::Message(m) => {
            let lt = lit_pkt_message_vec();
            crate::codec::push_bytes(&mut out, &lt);
            let body = encode_message(m);
            crate::codec::push_bytes(&mut out, &body);
            out.push(RBRACE);
            proof {
                assert(out@ =~= enc_packet(p@));
            }
        },
        crate::message::Packet::Sas(sas) => {
            let lt = lit_pkt_sas_vec();
            crate::codec::push_bytes(&mut out, &lt);
            crate::codec::push_string(&mut out, &sas.input);
            let lt = lit_pkt_end_sas_vec();
            crate::codec::push_bytes(&mut out, &lt);
            proof {
                assert(out@ =~= enc_packet(p@));
            }
        },
    }
    out
}

} // verus!

verus! {

// ---------------------------------------------------------------------------
// No encoded record contains a raw newline, so newline can frame records.
// ---------------------------------------------------------------------------
/// Whether a byte string is free of newline bytes and may stand on one
/// spool line.
pub open spec fn line_safe(s: Seq<u8>) -> bool {
    forall|i: int| 0 <= i < s.len() ==> s[i] != crate::codec::NEWLINE
}

/// Concatenation preserves line safety.
pub proof fn lemma_line_safe_concat(a: Seq<u8>, b: Seq<u8>)
    requires
        line_safe(a),
        line_safe(b),
    ensures
        line_safe(a + b),
{
    assert forall|i: int| 0 <= i < (a + b).len() implies (a + b)[i] != crate::codec::NEWLINE by {
        if i < a.len() {
            assert((a + b)[i] == a[i]);
        } else {
            assert((a + b)[i] == b[i - a.len()]);
        }
    }
}

/// An encoded string is line safe.
pub proof fn lemma_enc_str_line_safe(s: Seq<u8>)
    ensures
        line_safe(enc_str(s)),
{
    crate::codec::lemma_enc_str_no_newline(s);
    assert forall|i: int| 0 <= i < enc_str(s).len() implies enc_str(s)[i]
        != crate::codec::NEWLINE by {
        if enc_str(s)[i] == crate::codec::NEWLINE {
            assert(enc_str(s).contains(crate::codec::NEWLINE));
        }
    }
}

/// Every fixed literal of the format is line safe.
pub proof fn lemma_lits_line_safe()
    ensures
        line_safe(lit_title()),
        line_safe(lit_text()),
        line_safe(lit_level()),
        line_safe(lit_link()),
        line_safe(lit_fields()),
        line_safe(lit_channel()),
        line_safe(lit_timestamp()),
        line_safe(lit_version()),
        line_safe(lit_null()),
        line_safe(lv_okay()),
        line_safe(lv_warn()),
        line_safe(lv_error()),
        line_safe(lv_unknown()),
        line_safe(lit_pkt_message()),
        line_safe(lit_pkt_sas()),
        line_safe(lit_pkt_end_sas()),
        line_safe(seq![RBRACE]),
        line_safe(seq![COLON]),
{
}

/// An encoded number is line safe: a digit or a minus sign is never a
/// newline.
pub proof fn lemma_enc_i64_line_safe(v: i64)
    ensures
        line_safe(enc_i64(v)),
{
    if v >= 0 {
        crate::codec::lemma_digits_props(v as nat);
        assert forall|i: int| 0 <= i < enc_i64(v).len() implies enc_i64(v)[i]
            != crate::codec::NEWLINE by {
            assert(crate::codec::is_digit(crate::codec::digits(v as nat)[i]));
        }
    } else {
        let m = (-(v as int)) as nat;
        crate::codec::lemma_digits_props(m);
        assert forall|i: int| 0 <= i < enc_i64(v).len() implies enc_i64(v)[i]
            != crate::codec::NEWLINE by {
            if i > 0 {
                assert(enc_i64(v)[i] == crate::codec::digits(m)[i - 1]);
                assert(crate::codec::is_digit(crate::codec::digits(m)[i - 1]));
            }
        }
    }
}

/// An encoded severity level is line safe.
pub proof fn lemma_enc_level_line_safe(l: Level)
    ensures
        line_safe(enc_level(l)),
{
    lemma_lits_line_safe();
}

/// An encoded field object is line safe.
pub proof fn lemma_enc_fields_rest_line_safe(fs: Seq<(Seq<u8>, Seq<u8>)>)
    ensures
        line_safe(enc_fields_rest(fs)),
    decreases fs.len(),
{
    if fs.len() == 0 {
    } else {
        lemma_enc_fields_rest_line_safe(fs.skip(1));
        lemma_enc_str_line_safe(fs[0].0);
        lemma_enc_str_line_safe(fs[0].1);
        lemma_lits_line_safe();
        assert(line_safe(seq![COMMA]));
        lemma_line_safe_concat(enc_str(fs[0].0), seq![COLON]);
        lemma_line_safe_concat(enc_str(fs[0].0) + seq![COLON], enc_str(fs[0].1));
        lemma_line_safe_concat(seq![COMMA], enc_pair(fs[0]));
        lemma_line_safe_concat(seq![COMMA] + enc_pair(fs[0]), enc_fields_rest(fs.skip(1)));
        assert(enc_fields_rest(fs) =~= seq![COMMA] + enc_pair(fs[0]) + enc_fields_rest(
            fs.skip(1),
        ));
    }
}

/// An encoded field object is line safe.
pub proof fn lemma_enc_fields_line_safe(fs: Seq<(Seq<u8>, Seq<u8>)>)
    ensures
        line_safe(enc_fields(fs)),
{
    assert(line_safe(seq![LBRACE]));
    assert(line_safe(seq![RBRACE]));
    if fs.len() == 0 {
        assert(enc_fields(fs) =~= seq![LBRACE] + Seq::<u8>::empty() + seq![RBRACE]);
        lemma_line_safe_concat(seq![LBRACE], Seq::empty());
        lemma_line_safe_concat(seq![LBRACE] + Seq::<u8>::empty(), seq![RBRACE]);
    } else {
        lemma_enc_str_line_safe(fs[0].0);
        lemma_enc_str_line_safe(fs[0].1);
        lemma_lits_line_safe();
        lemma_line_safe_concat(enc_str(fs[0].0), seq![COLON]);
        lemma_line_safe_concat(enc_str(fs[0].0) + seq![COLON], enc_str(fs[0].1));
        lemma_enc_fields_rest_line_safe(fs.skip(1));
        lemma_line_safe_concat(enc_pair(fs[0]), enc_fields_rest(fs.skip(1)));
        lemma_line_safe_concat(seq![LBRACE], enc_fields_items(fs));
        lemma_line_safe_concat(seq![LBRACE] + enc_fields_items(fs), seq![RBRACE]);
    }
}

/// A whole encoded alert record is line safe, so records can be stored one
/// per line.
pub proof fn lemma_enc_message_line_safe(m: MessageView)
    ensures
        line_safe(enc_message(m)),
{
    lemma_lits_line_safe();
    lemma_enc_str_line_safe(m.title);
    lemma_enc_str_line_safe(m.text);
    lemma_enc_level_line_safe(m.level);
    lemma_enc_fields_line_safe(m.fields);
    lemma_enc_i64_line_safe(m.timestamp);
    lemma_enc_str_line_safe(m.version);
    let link_part = enc_opt_link(m.link);
    match m.link {
        None => {
            assert(line_safe(link_part));
        },
        Some(v) => {
            lemma_enc_str_line_safe(v);
            lemma_line_safe_concat(lit_link(), enc_str(v));
        },
    }
    let channel_part = enc_channel(m.channel);
    match m.channel {
        None => {
            assert(line_safe(channel_part));
        },
        Some(v) => {
            lemma_enc_str_line_safe(v);
        },
    }
    let tail = enc_msg_tail(m.fields, m.channel, m.timestamp, m.version);
    lemma_line_safe_concat(lit_fields(), enc_fields(m.fields));
    lemma_line_safe_concat(lit_fields() + enc_fields(m.fields), lit_channel());
    lemma_line_safe_concat(lit_fields() + enc_fields(m.fields) + lit_channel(), channel_part);
    lemma_line_safe_concat(
        lit_fields() + enc_fields(m.fields) + lit_channel() + channel_part,
        lit_timestamp(),
    );
    lemma_line_safe_concat(
        lit_fields() + enc_fields(m.fields) + lit_channel() + channel_part + lit_timestamp(),
        enc_i64(m.timestamp),
    );
    lemma_line_safe_concat(
        lit_fields() + enc_fields(m.fields) + lit_channel() + channel_part + lit_timestamp()
            + enc_i64(m.timestamp),
        lit_version(),
    );
    lemma_line_safe_concat(
        lit_fields() + enc_fields(m.fields) + lit_channel() + channel_part + lit_timestamp()
            + enc_i64(m.timestamp) + lit_version(),
        enc_str(m.version),
    );
    lemma_line_safe_concat(
        lit_fields() + enc_fields(m.fields) + lit_channel() + channel_part + lit_timestamp()
            + enc_i64(m.timestamp) + lit_version() + enc_str(m.version),
        seq![RBRACE],
    );
    assert(line_safe(tail));
    lemma_line_safe_concat(lit_title(), enc_str(m.title));
    lemma_line_safe_concat(lit_title() + enc_str(m.title), lit_text());
    lemma_line_safe_concat(lit_title() + enc_str(m.title) + lit_text(), enc_str(m.text));
    lemma_line_safe_concat(
        lit_title() + enc_str(m.title) + lit_text() + enc_str(m.text),
        lit_level(),
    );
    lemma_line_safe_concat(
        lit_title() + enc_str(m.title) + lit_text() + enc_str(m.text) + lit_level(),
        enc_level(m.level),
    );
    lemma_line_safe_concat(
        lit_title() + enc_str(m.title) + lit_text() + enc_str(m.text) + lit_level() + enc_level(
            m.level,
        ),
        link_part,
    );
    lemma_line_safe_concat(
        lit_title() + enc_str(m.title) + lit_text() + enc_str(m.text) + lit_level() + enc_level(
            m.level,
        ) + link_part,
        tail,
    );
}

} // verus!
