//! The spool: a durable, ordered queue of pending alerts.
//!
//! The queue is first-in, first-out; a failed retry is put back at the
//! front so it runs again before anything queued later.  `store` lays the
//! whole queue out as newline-terminated records — the complete snapshot
//! that is written to disk on every mutation — and `load` reads such a
//! snapshot back, skipping lines that do not parse so that one torn write
//! cannot poison the rest of the queue.

use crate::codec::NEWLINE;
use vstd::multiset::Multiset;
use crate::message::Message;
use crate::message::MessageView;
use crate::record::dec_message;
use crate::record::enc_message;
use vstd::prelude::*;

verus! {

/// The mathematical value of a queue of alerts.
pub open spec fn queue_view(q: Seq<Message>) -> Seq<MessageView> {
    Seq::new(q.len(), |i: int| q[i]@)
}

/// One spooled record: the alert followed by a newline.
pub open spec fn enc_line(m: MessageView) -> Seq<u8> {
    enc_message(m) + seq![NEWLINE]
}

/// The snapshot of a whole queue: every record on its own line.
pub open spec fn enc_spool(q: Seq<MessageView>) -> Seq<u8>
    decreases q.len(),
{
    if q.len() == 0 {
        Seq::empty()
    } else {
        enc_line(q[0]) + enc_spool(q.skip(1))
    }
}

/// The distance to the first newline, or the length if there is none.
pub open spec fn find_nl(s: Seq<u8>) -> nat
    decreases s.len(),
{
    if s.len() == 0 {
        0
    } else if s[0] == NEWLINE {
        0
    } else {
        1 + find_nl(s.skip(1))
    }
}

/// The lines of a byte string: maximal newline-free runs.  A trailing
/// newline closes the last line; bytes after the last newline form one
/// final, unterminated line.
pub open spec fn split_lines(s: Seq<u8>) -> Seq<Seq<u8>>
    decreases s.len(),
{
    if s.len() == 0 {
        Seq::empty()
    } else {
        let i = find_nl(s);
        if i >= s.len() {
            seq![s]
        } else {
            seq![s.take(i as int)] + split_lines(s.skip(i as int + 1))
        }
    }
}

/// The alerts held in a list of lines, in order, unparseable lines left
/// out.
pub open spec fn dec_lines(ls: Seq<Seq<u8>>) -> Seq<MessageView>
    decreases ls.len(),
{
    if ls.len() == 0 {
        Seq::empty()
    } else {
        match dec_message(ls[0]) {
            Some(m) => seq![m] + dec_lines(ls.skip(1)),
            None => dec_lines(ls.skip(1)),
        }
    }
}

/// How many lines of a list do not parse as alerts.
pub open spec fn skipped_lines(ls: Seq<Seq<u8>>) -> nat
    decreases ls.len(),
{
    if ls.len() == 0 {
        0
    } else {
        (if dec_message(ls[0]) is None {
            1nat
        } else {
            0nat
        }) + skipped_lines(ls.skip(1))
    }
}

/// The alerts a snapshot holds, in order.
pub open spec fn dec_spool(s: Seq<u8>) -> Seq<MessageView> {
    dec_lines(split_lines(s))
}

/// The in-memory queue of alerts awaiting delivery.
pub struct Spooler {
    queue: Vec<Message>,
}

impl View for Spooler {
    type V = Seq<MessageView>;

    closed spec fn view(&self) -> Seq<MessageView> {
        queue_view(self.queue@)
    }
}

impl Spooler {
    /// A fresh, empty spool.
    pub fn new() -> (r: Spooler)
        ensures
            r@ == Seq::<MessageView>::empty(),
    {
        let r = Spooler { queue: Vec::new() };
        proof {
            assert(r@ =~= Seq::<MessageView>::empty());
        }
        r
    }

    /// Whether nothing is queued.
    pub fn is_empty(&self) -> (r: bool)
        ensures
            r == (self@.len() == 0),
    {
        self.queue.len() == 0
    }

    /// Appends an alert at the tail: it will be sent after everything
    /// already queued.
    pub fn queue(&mut self, m: Message)
        ensures
            final(self)@ == old(self)@.push(m@),
    {
        let ghost mv = m@;
        self.queue.push(m);
        proof {
            assert(self@ =~= old(self)@.push(mv));
        }
    }

    /// Inserts an alert at the head: it will be retried before everything
    /// already queued.
    pub fn queue_front(&mut self, m: Message)
        ensures
            final(self)@ == seq![m@] + old(self)@,
    {
        let ghost mv = m@;
        self.queue.insert(0, m);
        proof {
            assert(final(self)@ =~= seq![mv] + old(self)@);
        }
    }

    /// Removes and returns the oldest queued alert, if any.
    pub fn pop_message(&mut self) -> (r: Option<Message>)
        ensures
            match r {
                Some(m) => old(self)@.len() > 0 && m@ == old(self)@[0] && final(self)@ == old(
                    self,
                )@.skip(1),
                None => old(self)@.len() == 0 && final(self)@ == old(self)@,
            },
    {
        if self.queue.len() == 0 {
            None
        } else {
            let m = self.queue.remove(0);
            proof {
                assert(final(self)@ =~= old(self)@.skip(1));
            }
            Some(m)
        }
    }

    /// The full snapshot of the queue, ready to replace the spool file.
    pub fn store(&self) -> (r: Vec<u8>)
        ensures
            r@ == enc_spool(self@),
    {
        let ghost gq = self@;
        let mut out: Vec<u8> = Vec::new();
        proof {
            assert(gq.take(0) =~= Seq::<MessageView>::empty());
        }
        let mut i: usize = 0;
        while i < self.queue.len()
            invariant
                i <= self.queue@.len(),
                gq == self@,
                gq.len() == self.queue@.len(),
                out@ == enc_spool(gq.take(i as int)),
            decreases self.queue@.len() - i,
        {
            let line = crate::record::encode_message(&self.queue[i]);
            crate::codec::push_bytes(&mut out, &line);
            out.push(NEWLINE);
            proof {
                assert(gq[i as int] == self.queue@[i as int]@);
                assert(gq.take(i + 1) =~= gq.take(i as int).push(gq[i as int]));
                lemma_enc_spool_push(gq.take(i as int), gq[i as int]);
                assert(out@ =~= enc_spool(gq.take(i as int)) + enc_line(gq[i as int]));
            }
            i += 1;
        }
        proof {
            assert(gq.take(gq.len() as int) =~= gq);
        }
        out
    }

    /// Loads a snapshot, appending each line that parses as an alert and
    /// counting the lines that do not.
    #[verifier::rlimit(60)]
    pub fn load(&mut self, data: &Vec<u8>) -> (skipped: usize)
        ensures
            final(self)@ == old(self)@ + dec_lines(split_lines(data@)),
            skipped == skipped_lines(split_lines(data@)),
    {
        let ghost lines = split_lines(data@);
        let ghost mut done: Seq<Seq<u8>> = Seq::empty();
        let mut skipped: usize = 0;
        let mut pos: usize = 0;
        proof {
            assert(data@.skip(0) =~= data@);
            assert(done + split_lines(data@.skip(0)) =~= lines);
            assert(dec_lines(done) =~= Seq::<MessageView>::empty());
            assert(old(self)@ + dec_lines(done) =~= old(self)@);
        }
        while pos < data.len()
            invariant
                pos <= data@.len(),
                lines == split_lines(data@),
                lines == done + split_lines(data@.skip(pos as int)),
                self@ == old(self)@ + dec_lines(done),
                skipped == skipped_lines(done),
                skipped <= pos,
            decreases data@.len() - pos,
        {
            let j = find_newline(data, pos);
            let line = subvec(data, pos, j);
            proof {
                lemma_split_lines_unfold(data@, pos as int, j as int);
                lemma_dec_lines_snoc(done, line@);
            }
            match crate::record::decode_message(&line) {
                Some(m) => {
                    let ghost mv = m@;
                    let ghost pre = self@;
                    self.queue.push(m);
                    proof {
                        assert(self@ =~= pre.push(mv));
                        assert(dec_lines(done.push(line@)) =~= dec_lines(done) + seq![mv]);
                        assert(self@ =~= old(self)@ + dec_lines(done.push(line@)));
                    }
                },
                None => {
                    skipped += 1;
                },
            }
            proof {
                done = done.push(line@);
            }
            if j == data.len() {
                pos = j;
                proof {
                    assert(data@.skip(pos as int).len() == 0);
                    assert(split_lines(data@.skip(pos as int)) =~= Seq::<Seq<u8>>::empty());
                    assert(lines =~= done + split_lines(data@.skip(pos as int)));
                }
            } else {
                pos = j + 1;
                proof {
                    assert(lines =~= done + split_lines(data@.skip(pos as int)));
                }
            }
        }
        proof {
            assert(data@.skip(pos as int).len() == 0);
            assert(split_lines(data@.skip(pos as int)) =~= Seq::<Seq<u8>>::empty());
            assert(done =~= lines);
        }
        skipped
    }
}

/// Unfolding one line off the front of a suffix of a split buffer.
pub proof fn lemma_split_lines_unfold(full: Seq<u8>, pos: int, j: int)
    requires
        0 <= pos < full.len(),
        pos <= j <= full.len(),
        find_nl(full.skip(pos)) == j - pos,
    ensures
        j < full.len() ==> split_lines(full.skip(pos)) == seq![full.subrange(pos, j)]
            + split_lines(full.skip(j + 1)),
        j == full.len() ==> split_lines(full.skip(pos)) == seq![full.subrange(pos, j)],
{
    let suffix = full.skip(pos);
    assert(suffix.len() > 0);
    if j < full.len() {
        assert(suffix.take(j - pos) =~= full.subrange(pos, j));
        assert(suffix.skip(j - pos + 1) =~= full.skip(j + 1));
    } else {
        assert(suffix =~= full.subrange(pos, j));
    }
}

/// Extending a queue by one alert extends its snapshot by one line.
pub proof fn lemma_enc_spool_push(q: Seq<MessageView>, m: MessageView)
    ensures
        enc_spool(q.push(m)) == enc_spool(q) + enc_line(m),
    decreases q.len(),
{
    if q.len() == 0 {
        assert(q.push(m).skip(1) =~= Seq::<MessageView>::empty());
        assert(q.push(m)[0] == m);
        assert(enc_spool(Seq::<MessageView>::empty()) == Seq::<u8>::empty());
        assert(enc_spool(q.push(m)) == enc_line(m) + Seq::<u8>::empty());
        assert(enc_line(m) + Seq::<u8>::empty() =~= enc_line(m));
        assert(enc_spool(q) + enc_line(m) =~= enc_line(m));
    } else {
        assert(q.push(m).skip(1) =~= q.skip(1).push(m));
        lemma_enc_spool_push(q.skip(1), m);
        assert(q.push(m)[0] == q[0]);
        assert(enc_spool(q.push(m)) =~= enc_spool(q) + enc_line(m));
    }
}

/// Decoding one more line appends its alert, if it has one.
pub proof fn lemma_dec_lines_snoc(ls: Seq<Seq<u8>>, line: Seq<u8>)
    ensures
        dec_lines(ls.push(line)) == dec_lines(ls) + (match dec_message(line) {
            Some(m) => seq![m],
            None => Seq::<MessageView>::empty(),
        }),
        skipped_lines(ls.push(line)) == skipped_lines(ls) + (if dec_message(line) is None {
            1nat
        } else {
            0nat
        }),
    decreases ls.len(),
{
    if ls.len() == 0 {
        assert(ls.push(line).skip(1) =~= Seq::<Seq<u8>>::empty());
        assert(ls.push(line)[0] == line);
        assert(dec_lines(Seq::<Seq<u8>>::empty()) =~= Seq::<MessageView>::empty());
        assert(skipped_lines(Seq::<Seq<u8>>::empty()) == 0);
        assert(skipped_lines(ls) == 0);
        match dec_message(line) {
            Some(m) => {
                assert(dec_lines(ls.push(line)) =~= seq![m]);
                assert(dec_lines(ls) + seq![m] =~= seq![m]);
            },
            None => {
                assert(dec_lines(ls.push(line)) =~= Seq::<MessageView>::empty());
                assert(dec_lines(ls) + Seq::<MessageView>::empty() =~= Seq::<
                    MessageView,
                >::empty());
            },
        }
    } else {
        assert(ls.push(line).skip(1) =~= ls.skip(1).push(line));
        lemma_dec_lines_snoc(ls.skip(1), line);
        assert(ls.push(line)[0] == ls[0]);
        match dec_message(ls[0]) {
            Some(m0) => {
                match dec_message(line) {
                    Some(m) => {
                        assert(dec_lines(ls.push(line)) =~= dec_lines(ls) + seq![m]);
                    },
                    None => {
                        assert(dec_lines(ls.push(line)) =~= dec_lines(ls) + Seq::<
                            MessageView,
                        >::empty());
                    },
                }
            },
            None => {
                match dec_message(line) {
                    Some(m) => {
                        assert(dec_lines(ls.push(line)) =~= dec_lines(ls) + seq![m]);
                    },
                    None => {
                        assert(dec_lines(ls.push(line)) =~= dec_lines(ls) + Seq::<
                            MessageView,
                        >::empty());
                    },
                }
            },
        }
    }
}

/// Finds the next newline at or after `from`, or the end of the buffer.
pub fn find_newline(s: &Vec<u8>, from: usize) -> (r: usize)
    requires
        from <= s@.len(),
    ensures
        from <= r <= s@.len(),
        r - from == find_nl(s@.skip(from as int)),
        r < s@.len() ==> s@[r as int] == NEWLINE,
{
    let mut cur: usize = from;
    while cur < s.len()
        invariant
            from <= cur <= s@.len(),
            find_nl(s@.skip(from as int)) == (cur - from) + find_nl(s@.skip(cur as int)),
        decreases s@.len() - cur,
    {
        proof {
            assert(s@.skip(cur as int)[0] == s@[cur as int]);
            assert(s@.skip(cur as int).skip(1) =~= s@.skip(cur + 1));
        }
        if s[cur] == NEWLINE {
            return cur;
        }
        cur += 1;
    }
    proof {
        assert(s@.skip(cur as int).len() == 0);
    }
    cur
}

/// Copies the bytes in `[from, to)` into a fresh buffer.
pub fn subvec(s: &Vec<u8>, from: usize, to: usize) -> (r: Vec<u8>)
    requires
        from <= to <= s@.len(),
    ensures
        r@ == s@.subrange(from as int, to as int),
{
    let mut r: Vec<u8> = Vec::new();
    let mut i: usize = from;
    while i < to
        invariant
            from <= i <= to <= s@.len(),
            r@ == s@.subrange(from as int, i as int),
        decreases to - i,
    {
        r.push(s[i]);
        proof {
            assert(s@.subrange(from as int, i + 1) =~= s@.subrange(from as int, i as int).push(
                s@[i as int],
            ));
        }
        i += 1;
    }
    r
}

} // verus!

verus! {

// ---------------------------------------------------------------------------
// Round trip: a stored snapshot loads back to the same queue.
// ---------------------------------------------------------------------------
/// In a line-safe prefix followed by a newline, the first newline is right
/// after the prefix.
pub proof fn lemma_find_nl_prefix(line: Seq<u8>, rest: Seq<u8>)
    requires
        crate::record::line_safe(line),
    ensures
        find_nl(line + seq![NEWLINE] + rest) == line.len(),
    decreases line.len(),
{
    let full = line + seq![NEWLINE] + rest;
    if line.len() == 0 {
        assert(full[0] == NEWLINE);
    } else {
        assert(full[0] == line[0]);
        assert(line[0] != NEWLINE);
        assert(full.skip(1) =~= line.skip(1) + seq![NEWLINE] + rest);
        assert(crate::record::line_safe(line.skip(1))) by {
            assert(forall|i: int|
                0 <= i < line.skip(1).len() ==> line.skip(1)[i] == #[trigger] line[i + 1]);
        }
        lemma_find_nl_prefix(line.skip(1), rest);
    }
}

/// A line-safe, non-empty first line splits off cleanly.
pub proof fn lemma_split_first_line(line: Seq<u8>, rest: Seq<u8>)
    requires
        crate::record::line_safe(line),
    ensures
        split_lines(line + seq![NEWLINE] + rest) == seq![line] + split_lines(rest),
{
    let full = line + seq![NEWLINE] + rest;
    lemma_find_nl_prefix(line, rest);
    assert(full.len() > 0);
    let i = find_nl(full);
    assert(i == line.len());
    assert(i < full.len());
    assert(full.take(i as int) =~= line);
    assert(full.skip(i as int + 1) =~= rest);
}

/// Round trip for the spool snapshot: every record of a stored queue loads
/// back, in order, and no line is skipped.
pub proof fn lemma_spool_roundtrip(q: Seq<MessageView>)
    ensures
        dec_spool(enc_spool(q)) == q,
        skipped_lines(split_lines(enc_spool(q))) == 0,
    decreases q.len(),
{
    if q.len() == 0 {
        assert(split_lines(enc_spool(q)) =~= Seq::<Seq<u8>>::empty());
        assert(dec_spool(enc_spool(q)) =~= q);
    } else {
        let line = enc_message(q[0]);
        let rest = enc_spool(q.skip(1));
        assert(enc_spool(q) =~= line + seq![NEWLINE] + rest);
        crate::record::lemma_enc_message_line_safe(q[0]);
        lemma_split_first_line(line, rest);
        lemma_spool_roundtrip(q.skip(1));
        crate::record::lemma_dec_message_roundtrip(q[0]);
        let ls = seq![line] + split_lines(rest);
        assert(ls[0] == line);
        assert(ls.skip(1) =~= split_lines(rest));
        assert(dec_lines(ls) == seq![q[0]] + dec_lines(split_lines(rest)));
        assert(seq![q[0]] + q.skip(1) =~= q);
    }
}

/// The snapshot is canonical: two queues with the same snapshot hold the
/// same alerts in the same order.
pub proof fn lemma_enc_spool_injective(a: Seq<MessageView>, b: Seq<MessageView>)
    requires
        enc_spool(a) == enc_spool(b),
    ensures
        a == b,
{
    lemma_spool_roundtrip(a);
    lemma_spool_roundtrip(b);
}

// ---------------------------------------------------------------------------
// Conservation: no sequence of queue operations loses a message.
// ---------------------------------------------------------------------------
/// One operation on the queue.
pub enum SpoolOp {
    /// Append an alert at the tail.
    Enqueue(MessageView),
    /// Insert an alert at the head, as a failed retry is put back.
    EnqueueFront(MessageView),
    /// Remove the oldest alert, handing it to delivery.
    Pop,
}

/// The queue after one operation, and what the operation handed out.
pub open spec fn apply_op(q: Seq<MessageView>, op: SpoolOp) -> (Seq<MessageView>, Seq<
    MessageView,
>) {
    match op {
        SpoolOp::Enqueue(m) => (q.push(m), Seq::empty()),
        SpoolOp::EnqueueFront(m) => (seq![m] + q, Seq::empty()),
        SpoolOp::Pop => if q.len() == 0 {
            (q, Seq::empty())
        } else {
            (q.skip(1), seq![q[0]])
        },
    }
}

/// The queue after a whole run of operations, and everything the run
/// handed out, in order.
pub open spec fn run_ops(q: Seq<MessageView>, ops: Seq<SpoolOp>) -> (Seq<MessageView>, Seq<
    MessageView,
>)
    decreases ops.len(),
{
    if ops.len() == 0 {
        (q, Seq::empty())
    } else {
        let (q1, out1) = apply_op(q, ops[0]);
        let (q2, out2) = run_ops(q1, ops.skip(1));
        (q2, out1 + out2)
    }
}

/// The alerts a run of operations inserts, in order.
pub open spec fn inserted(ops: Seq<SpoolOp>) -> Seq<MessageView>
    decreases ops.len(),
{
    if ops.len() == 0 {
        Seq::empty()
    } else {
        (match ops[0] {
            SpoolOp::Enqueue(m) => seq![m],
            SpoolOp::EnqueueFront(m) => seq![m],
            SpoolOp::Pop => Seq::empty(),
        }) + inserted(ops.skip(1))
    }
}

/// One operation conserves messages: what is in the queue afterwards plus
/// what was handed out is what was in the queue before plus what was
/// inserted.
pub proof fn lemma_apply_op_conserves(q: Seq<MessageView>, op: SpoolOp)
    ensures
        apply_op(q, op).0.to_multiset().add(apply_op(q, op).1.to_multiset())
            == q.to_multiset().add(
            (match op {
                SpoolOp::Enqueue(m) => seq![m],
                SpoolOp::EnqueueFront(m) => seq![m],
                SpoolOp::Pop => Seq::<MessageView>::empty(),
            }).to_multiset(),
        ),
{
    broadcast use vstd::seq_lib::lemma_multiset_commutative;
    broadcast use vstd::seq_lib::group_to_multiset_ensures;
    broadcast use vstd::multiset::group_multiset_axioms;

    match op {
        SpoolOp::Enqueue(m) => {
            assert(q.push(m) =~= q + seq![m]);
            assert((q + seq![m]).to_multiset() =~= q.to_multiset().add(seq![m].to_multiset()));
            assert(apply_op(q, op).1.to_multiset() =~= Multiset::<MessageView>::empty());
            assert(q.push(m).to_multiset().add(Multiset::<MessageView>::empty())
                =~= q.push(m).to_multiset());
        },
        SpoolOp::EnqueueFront(m) => {
            assert((seq![m] + q).to_multiset() =~= seq![m].to_multiset().add(q.to_multiset()));
            assert(apply_op(q, op).1.to_multiset() =~= Multiset::<MessageView>::empty());
            assert(seq![m].to_multiset().add(q.to_multiset()) =~= q.to_multiset().add(
                seq![m].to_multiset(),
            ));
            assert((seq![m] + q).to_multiset().add(Multiset::<MessageView>::empty()) =~= (seq![m]
                + q).to_multiset());
        },
        SpoolOp::Pop => {
            if q.len() == 0 {
                assert(Seq::<MessageView>::empty().to_multiset() =~= Multiset::<
                    MessageView,
                >::empty());
                assert(q.to_multiset().add(Multiset::<MessageView>::empty()) =~= q.to_multiset());
            } else {
                assert(q =~= seq![q[0]] + q.skip(1));
                assert((seq![q[0]] + q.skip(1)).to_multiset() =~= seq![q[0]].to_multiset().add(
                    q.skip(1).to_multiset(),
                ));
                assert(q.skip(1).to_multiset().add(seq![q[0]].to_multiset())
                    =~= seq![q[0]].to_multiset().add(q.skip(1).to_multiset()));
                assert(Seq::<MessageView>::empty().to_multiset() =~= Multiset::<
                    MessageView,
                >::empty());
                assert(q.to_multiset().add(Seq::<MessageView>::empty().to_multiset())
                    =~= q.to_multiset());
            }
        },
    }
}

/// No run of operations loses a message: the queue afterwards plus
/// everything handed out by pops holds exactly the initial queue plus
/// everything inserted.  A message leaves the spool only through a pop.
pub proof fn lemma_no_message_lost(q: Seq<MessageView>, ops: Seq<SpoolOp>)
    ensures
        run_ops(q, ops).0.to_multiset().add(run_ops(q, ops).1.to_multiset())
            == q.to_multiset().add(inserted(ops).to_multiset()),
    decreases ops.len(),
{
    broadcast use vstd::seq_lib::lemma_multiset_commutative;
    broadcast use vstd::seq_lib::group_to_multiset_ensures;
    broadcast use vstd::multiset::group_multiset_axioms;

    if ops.len() == 0 {
        assert(run_ops(q, ops).1.to_multiset() =~= Multiset::<MessageView>::empty()) by {
            assert(run_ops(q, ops).1.to_multiset().len() == 0);
        }
        assert(inserted(ops).to_multiset() =~= Multiset::<MessageView>::empty()) by {
            assert(inserted(ops).to_multiset().len() == 0);
        }
        assert(q.to_multiset().add(Multiset::<MessageView>::empty()) =~= q.to_multiset());
    } else {
        let (q1, out1) = apply_op(q, ops[0]);
        let (q2, out2) = run_ops(q1, ops.skip(1));
        lemma_apply_op_conserves(q, ops[0]);
        lemma_no_message_lost(q1, ops.skip(1));
        let ins0 = match ops[0] {
            SpoolOp::Enqueue(m) => seq![m],
            SpoolOp::EnqueueFront(m) => seq![m],
            SpoolOp::Pop => Seq::<MessageView>::empty(),
        };
        assert((out1 + out2).to_multiset() =~= out1.to_multiset().add(out2.to_multiset()));
        assert(inserted(ops) =~= ins0 + inserted(ops.skip(1)));
        assert((ins0 + inserted(ops.skip(1))).to_multiset() =~= ins0.to_multiset().add(
            inserted(ops.skip(1)).to_multiset(),
        ));
        let lhs = q2.to_multiset().add((out1 + out2).to_multiset());
        let rhs = q.to_multiset().add(inserted(ops).to_multiset());
        assert forall|e: MessageView| lhs.count(e) == rhs.count(e) by {
            assert(q2.to_multiset().add(out2.to_multiset()).count(e) == q1.to_multiset().add(
                inserted(ops.skip(1)).to_multiset(),
            ).count(e));
            assert(q1.to_multiset().add(out1.to_multiset()).count(e) == q.to_multiset().add(
                ins0.to_multiset(),
            ).count(e));
        }
        assert(lhs =~= rhs);
        assert(run_ops(q, ops).0 == q2);
        assert(run_ops(q, ops).1 == out1 + out2);
    }
}

// ---------------------------------------------------------------------------
// Retry ordering: a failed retry runs again before anything younger.
// ---------------------------------------------------------------------------
/// Popping the oldest alert and putting it back at the front leaves the
/// queue as it was: the same alert is next, and everything queued behind
/// it — younger alerts included — still waits behind it.
pub proof fn lemma_retry_keeps_front(q: Seq<MessageView>)
    requires
        q.len() > 0,
    ensures
        apply_op(apply_op(q, SpoolOp::Pop).0, SpoolOp::EnqueueFront(q[0])).0 == q,
        apply_op(apply_op(apply_op(q, SpoolOp::Pop).0, SpoolOp::EnqueueFront(q[0])).0, SpoolOp::Pop).1
            == seq![q[0]],
{
    assert(seq![q[0]] + q.skip(1) =~= q);
}

} // verus!
