//! Building alerts from plain values, as the command-line client does, and
//! the small computations the chat-backend drivers decide by.
//!
//! Everything here maps plain bytes and numbers to plain values; reading
//! the command line, the clock or the socket is the caller's business.

use crate::codec::digits;
use crate::codec::push_u64;
use crate::message::Level;
use crate::message::Message;
use vstd::prelude::*;

verus! {

/// The colon that separates a key from a value, and a user from a server.
pub const COLON_BYTE: u8 = 58;

/// The comma between the three numbers of a short authentication string.
pub const COMMA_BYTE: u8 = 44;

/// The distance to the first occurrence of `b`, or the length if there is
/// none.
pub open spec fn find_byte(s: Seq<u8>, b: u8) -> nat
    decreases s.len(),
{
    if s.len() == 0 {
        0
    } else if s[0] == b {
        0
    } else {
        1 + find_byte(s.skip(1), b)
    }
}

/// Whether two byte strings hold the same bytes.
pub fn bytes_eq(a: &Vec<u8>, b: &Vec<u8>) -> (r: bool)
    ensures
        r == (a@ == b@),
{
    if a.len() != b.len() {
        proof {
            assert(a@.len() != b@.len());
        }
        return false;
    }
    let mut i: usize = 0;
    while i < a.len()
        invariant
            i <= a@.len(),
            a@.len() == b@.len(),
            forall|j: int| 0 <= j < i ==> a@[j] == b@[j],
        decreases a@.len() - i,
    {
        if a[i] != b[i] {
            return false;
        }
        i += 1;
    }
    proof {
        assert(a@ =~= b@);
    }
    true
}

/// Finds the first occurrence of `b` at or after `from`, or the end.
pub fn find_byte_from(s: &Vec<u8>, b: u8, from: usize) -> (r: usize)
    requires
        from <= s@.len(),
    ensures
        from <= r <= s@.len(),
        r - from == find_byte(s@.skip(from as int), b),
{
    let mut cur: usize = from;
    while cur < s.len()
        invariant
            from <= cur <= s@.len(),
            find_byte(s@.skip(from as int), b) == (cur - from) + find_byte(s@.skip(cur as int), b),
        decreases s@.len() - cur,
    {
        proof {
            assert(s@.skip(cur as int)[0] == s@[cur as int]);
            assert(s@.skip(cur as int).skip(1) =~= s@.skip(cur + 1));
        }
        if s[cur] == b {
            return cur;
        }
        cur += 1;
    }
    proof {
        assert(s@.skip(cur as int).len() == 0);
    }
    cur
}

/// What splitting a byte string at its first colon yields: the part
/// before, and everything after — later colons included.  Nothing, if
/// there is no colon.
pub open spec fn spec_split_colon(s: Seq<u8>) -> Option<(Seq<u8>, Seq<u8>)> {
    let i = find_byte(s, COLON_BYTE);
    if i < s.len() {
        Some((s.take(i as int), s.skip(i as int + 1)))
    } else {
        None
    }
}

/// Splits a byte string at its first colon.
pub fn split_colon(s: &Vec<u8>) -> (r: Option<(Vec<u8>, Vec<u8>)>)
    ensures
        match r {
            Some(p) => spec_split_colon(s@) == Some((p.0@, p.1@)),
            None => spec_split_colon(s@) is None,
        },
{
    proof {
        assert(s@.skip(0) =~= s@);
    }
    let i = find_byte_from(s, COLON_BYTE, 0);
    if i == s.len() {
        None
    } else {
        let before = crate::spooler::subvec(s, 0, i);
        let after = crate::spooler::subvec(s, i + 1, s.len());
        proof {
            assert(s@.subrange(0, i as int) =~= s@.take(i as int));
            assert(s@.subrange(i as int + 1, s@.len() as int) =~= s@.skip(i as int + 1));
        }
        Some((before, after))
    }
}

/// Splits a federated-protocol user name `local:server` into its local
/// part and its server.  A name without a colon is rejected.
pub fn split_user(user: &Vec<u8>) -> (r: Option<(Vec<u8>, Vec<u8>)>)
    ensures
        match r {
            Some(p) => spec_split_colon(user@) == Some((p.0@, p.1@)),
            None => spec_split_colon(user@) is None,
        },
{
    split_colon(user)
}

/// The level named by a byte string: one of the four level names, and
/// unknown for anything else.
pub open spec fn spec_parse_level(s: Seq<u8>) -> Level {
    if s == seq![79u8, 75] {
        Level::Okay
    } else if s == seq![87u8, 65, 82, 78] {
        Level::Warn
    } else if s == seq![69u8, 82, 82, 79, 82] {
        Level::Error
    } else {
        Level::Unknown
    }
}

/// Reads a level name: `OK`, `WARN`, `ERROR`, or unknown for anything
/// else.
pub fn parse_level(s: &Vec<u8>) -> (r: Level)
    ensures
        r == spec_parse_level(s@),
{
    let okay: Vec<u8> = vec![79u8, 75];
    let warn: Vec<u8> = vec![87u8, 65, 82, 78];
    let error: Vec<u8> = vec![69u8, 82, 82, 79, 82];
    proof {
        assert(okay@ =~= seq![79u8, 75]);
        assert(warn@ =~= seq![87u8, 65, 82, 78]);
        assert(error@ =~= seq![69u8, 82, 82, 79, 82]);
    }
    if bytes_eq(s, &okay) {
        Level::Okay
    } else if bytes_eq(s, &warn) {
        Level::Warn
    } else if bytes_eq(s, &error) {
        Level::Error
    } else {
        Level::Unknown
    }
}

// ---------------------------------------------------------------------------
// Key/value fields: a map keyed by the field name, in insertion order.
// ---------------------------------------------------------------------------
/// Whether some field already carries this key.
pub open spec fn has_key(fs: Seq<(Seq<u8>, Seq<u8>)>, k: Seq<u8>) -> bool {
    exists|j: int| 0 <= j < fs.len() && fs[j].0 == k
}

/// A map insert on ordered fields: a field with this key takes the new
/// value in place, a new key goes to the end.
pub open spec fn spec_fields_insert(fs: Seq<(Seq<u8>, Seq<u8>)>, k: Seq<u8>, v: Seq<u8>) -> Seq<
    (Seq<u8>, Seq<u8>),
>
    decreases fs.len(),
{
    if fs.len() == 0 {
        seq![(k, v)]
    } else if fs[0].0 == k {
        seq![(k, v)] + fs.skip(1)
    } else {
        seq![fs[0]] + spec_fields_insert(fs.skip(1), k, v)
    }
}

/// When the first match is at `j`, the insert is an update at `j`.
proof fn lemma_fields_insert_at(fs: Seq<(Seq<u8>, Seq<u8>)>, k: Seq<u8>, v: Seq<u8>, j: int)
    requires
        0 <= j < fs.len(),
        fs[j].0 == k,
        forall|i: int| 0 <= i < j ==> fs[i].0 != k,
    ensures
        spec_fields_insert(fs, k, v) == fs.update(j, (k, v)),
    decreases j,
{
    if j == 0 {
        assert(seq![(k, v)] + fs.skip(1) =~= fs.update(0, (k, v)));
    } else {
        assert(fs[0].0 != k);
        assert(fs.skip(1)[j - 1].0 == k);
        assert(forall|i: int| 0 <= i < j - 1 ==> #[trigger] fs.skip(1)[i].0 == fs[i + 1].0);
        lemma_fields_insert_at(fs.skip(1), k, v, j - 1);
        assert(seq![fs[0]] + fs.skip(1).update(j - 1, (k, v)) =~= fs.update(j, (k, v)));
    }
}

/// When no field carries the key, the insert is a push.
proof fn lemma_fields_insert_absent(fs: Seq<(Seq<u8>, Seq<u8>)>, k: Seq<u8>, v: Seq<u8>)
    requires
        !has_key(fs, k),
    ensures
        spec_fields_insert(fs, k, v) == fs.push((k, v)),
    decreases fs.len(),
{
    if fs.len() == 0 {
        assert(seq![(k, v)] =~= fs.push((k, v)));
    } else {
        assert(fs[0].0 != k);
        assert(!has_key(fs.skip(1), k)) by {
            if has_key(fs.skip(1), k) {
                let j = choose|j: int| 0 <= j < fs.skip(1).len() && fs.skip(1)[j].0 == k;
                assert(fs[j + 1].0 == k);
            }
        }
        lemma_fields_insert_absent(fs.skip(1), k, v);
        assert(seq![fs[0]] + fs.skip(1).push((k, v)) =~= fs.push((k, v)));
    }
}

/// Inserts one key/value pair into the ordered fields, as a map insert.
pub fn fields_insert(fields: &mut Vec<(Vec<u8>, Vec<u8>)>, k: Vec<u8>, v: Vec<u8>)
    ensures
        crate::message::pairs_view(final(fields)@) == spec_fields_insert(
            crate::message::pairs_view(old(fields)@),
            k@,
            v@,
        ),
{
    let ghost gp = crate::message::pairs_view(fields@);
    let mut i: usize = 0;
    while i < fields.len()
        invariant
            i <= fields@.len(),
            gp == crate::message::pairs_view(fields@),
            gp == crate::message::pairs_view(old(fields)@),
            gp.len() == fields@.len(),
            forall|j: int| 0 <= j < i ==> #[trigger] gp[j].0 != k@,
        decreases fields@.len() - i,
    {
        if bytes_eq(&fields[i].0, &k) {
            let ghost kv = k@;
            let ghost vv = v@;
            let ghost s0 = fields@;
            proof {
                assert(gp[i as int].0 == k@);
            }
            let _old = fields.remove(i);
            let ghost s1 = fields@;
            fields.insert(i, (k, v));
            proof {
                s0.remove_ensures(i as int);
                s1.insert_ensures(i as int, (s0[i as int].0, s0[i as int].1));
                assert(s1 =~= s0.remove(i as int));
                assert forall|j: int| 0 <= j < fields@.len() implies crate::message::pairs_view(
                    fields@,
                )[j] == gp.update(i as int, (kv, vv))[j] by {
                    if j < i {
                        assert(fields@[j] == s1[j]);
                        assert(s1[j] == s0[j]);
                    } else if j == i {
                        assert(fields@[j].0@ == kv && fields@[j].1@ == vv);
                    } else {
                        assert(fields@[j] == s1[j - 1]);
                        assert(s1[j - 1] == s0[j]);
                    }
                }
                assert(crate::message::pairs_view(fields@) =~= gp.update(i as int, (kv, vv)));
                lemma_fields_insert_at(gp, kv, vv, i as int);
            }
            return ;
        }
        i += 1;
    }
    proof {
        assert(!has_key(gp, k@)) by {
            if has_key(gp, k@) {
                let j = choose|j: int| 0 <= j < gp.len() && gp[j].0 == k@;
            }
        }
        lemma_fields_insert_absent(gp, k@, v@);
    }
    fields.push((k, v));
    proof {
        assert(crate::message::pairs_view(fields@) =~= gp.push((k@, v@)));
    }
}

/// The mathematical value of a list of raw `key:value` items.
pub open spec fn items_view(items: Seq<Vec<u8>>) -> Seq<Seq<u8>> {
    Seq::new(items.len(), |i: int| items[i]@)
}

/// The fields a list of raw `key:value` items yields: each item split at
/// its first colon and inserted in order; items without a colon are
/// dropped.
pub open spec fn spec_parse_fields(items: Seq<Seq<u8>>) -> Seq<(Seq<u8>, Seq<u8>)>
    decreases items.len(),
{
    if items.len() == 0 {
        Seq::empty()
    } else {
        let prev = spec_parse_fields(items.drop_last());
        match spec_split_colon(items.last()) {
            Some((k, v)) => spec_fields_insert(prev, k, v),
            None => prev,
        }
    }
}

/// Reads the `key:value` items given on the command line into fields,
/// returning how many items had no colon and were dropped.
pub fn parse_additional_fields(items: &Vec<Vec<u8>>) -> (r: (Vec<(Vec<u8>, Vec<u8>)>, usize))
    ensures
        crate::message::pairs_view(r.0@) == spec_parse_fields(items_view(items@)),
        r.1 <= items@.len(),
{
    let mut fields: Vec<(Vec<u8>, Vec<u8>)> = Vec::new();
    let mut dropped: usize = 0;
    let mut i: usize = 0;
    proof {
        assert(items_view(items@).take(0) =~= Seq::<Seq<u8>>::empty());
        assert(crate::message::pairs_view(fields@) =~= Seq::<(Seq<u8>, Seq<u8>)>::empty());
    }
    while i < items.len()
        invariant
            i <= items@.len(),
            dropped <= i,
            crate::message::pairs_view(fields@) == spec_parse_fields(
                items_view(items@).take(i as int),
            ),
        decreases items@.len() - i,
    {
        proof {
            assert(items_view(items@).take(i + 1).drop_last() =~= items_view(items@).take(i as int));
            assert(items_view(items@).take(i + 1).last() == items@[i as int]@);
        }
        match split_colon(&items[i]) {
            Some((k, v)) => {
                fields_insert(&mut fields, k, v);
            },
            None => {
                dropped += 1;
            },
        }
        i += 1;
    }
    proof {
        assert(items_view(items@).take(items@.len() as int) =~= items_view(items@));
    }
    (fields, dropped)
}

/// Builds one alert from plain command-line values.  The caller reads the
/// clock and names its own version tag; absent title or text become empty,
/// an absent or unreadable level becomes unknown.
pub fn compose_message(
    title: Option<Vec<u8>>,
    text: Option<Vec<u8>>,
    channel: Option<Vec<u8>>,
    level: Option<Vec<u8>>,
    link: Option<Vec<u8>>,
    field_items: &Vec<Vec<u8>>,
    timestamp: i64,
    version: Vec<u8>,
) -> (r: Message)
    ensures
        r@.title == (match title {
            Some(t) => t@,
            None => Seq::<u8>::empty(),
        }),
        r@.text == (match text {
            Some(t) => t@,
            None => Seq::<u8>::empty(),
        }),
        r@.channel == crate::message::opt_view(channel),
        r@.level == (match level {
            Some(l) => spec_parse_level(l@),
            None => Level::Unknown,
        }),
        r@.link == crate::message::opt_view(link),
        r@.fields == spec_parse_fields(items_view(field_items@)),
        r@.timestamp == timestamp,
        r@.version == version@,
{
    let title = match title {
        Some(t) => t,
        None => Vec::new(),
    };
    let text = match text {
        Some(t) => t,
        None => Vec::new(),
    };
    let level = match level {
        Some(l) => parse_level(&l),
        None => Level::Unknown,
    };
    let (fields, _dropped) = parse_additional_fields(field_items);
    Message { title, text, level, link, fields, channel, timestamp, version }
}

// ---------------------------------------------------------------------------
// Short authentication strings.
// ---------------------------------------------------------------------------
/// The canonical rendering of a short authentication string: three
/// decimal numbers joined by commas.
pub open spec fn sas_code(a: u16, b: u16, c: u16) -> Seq<u8> {
    digits(a as nat) + seq![COMMA_BYTE] + digits(b as nat) + seq![COMMA_BYTE] + digits(c as nat)
}

/// Whether the locally typed verification input matches the remote short
/// authentication string `a,b,c`.
pub fn sas_matches(input: &Vec<u8>, a: u16, b: u16, c: u16) -> (r: bool)
    ensures
        r == (input@ == sas_code(a, b, c)),
{
    let mut rendered: Vec<u8> = Vec::new();
    push_u64(&mut rendered, a as u64);
    rendered.push(COMMA_BYTE);
    push_u64(&mut rendered, b as u64);
    rendered.push(COMMA_BYTE);
    push_u64(&mut rendered, c as u64);
    proof {
        assert(rendered@ =~= sas_code(a, b, c));
    }
    bytes_eq(input, &rendered)
}

} // verus!
