//! The retry state machine.
//!
//! The dispatcher is the single owner of the spool and the backoff.  A
//! driver loop races three events — the retry ticker, a delivery outcome
//! and shutdown — and calls one step function here for each; every piece
//! of state it touches is touched through these functions, so the spool
//! order and the backoff value follow their contracts whatever the event
//! interleaving.  After each mutating step the driver writes [`store`]
//! back to disk, so the persisted snapshot follows the queue.
//!
//! On shutdown the driver simply stops calling; the queue needs no
//! farewell, its last snapshot is the durable record.

use crate::backoff::grown;
use crate::backoff::Backoff;
use crate::backoff::MIN_INTERVAL;
use crate::message::Message;
use crate::message::MessageView;
use crate::spooler::enc_spool;
use crate::spooler::split_lines;
use crate::spooler::Spooler;
use vstd::prelude::*;

verus! {

/// The ticker interval used while the queue is empty: one long idle day,
/// so an idle dispatcher does not spin.
pub const IDLE_INTERVAL: u64 = 86400;

/// The dispatcher: the spool of pending alerts and the retry backoff,
/// owned together.
pub struct SpoolDispatcher {
    spooler: Spooler,
    backoff: Backoff,
}

impl SpoolDispatcher {
    /// The queued alerts, oldest first.
    pub closed spec fn queue(&self) -> Seq<MessageView> {
        self.spooler@
    }

    /// The current retry interval.
    pub closed spec fn interval(&self) -> u64 {
        self.backoff.spec_interval()
    }

    /// Takes ownership of a loaded spool; the backoff starts at the
    /// minimum unit.
    pub fn new(spooler: Spooler) -> (r: SpoolDispatcher)
        ensures
            r.queue() == spooler@,
            r.interval() == MIN_INTERVAL,
    {
        SpoolDispatcher { spooler, backoff: Backoff::new() }
    }

    /// How long the driver should wait before the next tick: the backoff
    /// interval while work is pending, a long idle interval otherwise.
    pub fn setup_ticker(&self) -> (r: u64)
        ensures
            r == if self.queue().len() == 0 {
                IDLE_INTERVAL
            } else {
                self.interval()
            },
    {
        if self.spooler.is_empty() {
            IDLE_INTERVAL
        } else {
            self.backoff.get_backoff()
        }
    }

    /// The ticker fired: hands out the oldest queued alert for a delivery
    /// attempt, if there is one.  The backoff is left alone; only an
    /// outcome moves it.
    pub fn on_tick(&mut self) -> (r: Option<Message>)
        ensures
            final(self).interval() == old(self).interval(),
            match r {
                Some(m) => old(self).queue().len() > 0 && m@ == old(self).queue()[0]
                    && final(self).queue() == old(self).queue().skip(1),
                None => old(self).queue().len() == 0 && final(self).queue() == old(self).queue(),
            },
    {
        self.spooler.pop_message()
    }

    /// A delivery attempt failed and handed the alert back: it goes to the
    /// front of the queue — it will be retried before anything younger —
    /// and the backoff doubles.
    pub fn on_delivery_failure(&mut self, m: Message)
        ensures
            final(self).queue() == seq![m@] + old(self).queue(),
            final(self).interval() == grown(old(self).interval()),
    {
        self.spooler.queue_front(m);
        self.backoff.backoff();
    }

    /// A delivery succeeded: the queue is untouched and the backoff
    /// returns to the minimum unit.
    pub fn on_delivery_success(&mut self)
        ensures
            final(self).queue() == old(self).queue(),
            final(self).interval() == MIN_INTERVAL,
    {
        self.backoff.reset();
    }

    /// One delivery outcome, as the delivery stage reports it: the failed
    /// alert, or nothing on success.  First-attempt failures and retry
    /// failures arrive the same way and are treated the same way.
    pub fn on_outcome(&mut self, failed: Option<Message>)
        ensures
            match failed {
                Some(m) => final(self).queue() == seq![m@] + old(self).queue()
                    && final(self).interval() == grown(old(self).interval()),
                None => final(self).queue() == old(self).queue() && final(self).interval()
                    == MIN_INTERVAL,
            },
    {
        match failed {
            Some(m) => self.on_delivery_failure(m),
            None => self.on_delivery_success(),
        }
    }

    /// The current retry interval, for the driver's ticker.
    pub fn get_backoff(&self) -> (r: u64)
        ensures
            r == self.interval(),
    {
        self.backoff.get_backoff()
    }

    /// Whether nothing is queued.
    pub fn is_empty(&self) -> (r: bool)
        ensures
            r == (self.queue().len() == 0),
    {
        self.spooler.is_empty()
    }

    /// The snapshot of the queue, for the driver to write to disk after a
    /// mutating step.
    pub fn store(&self) -> (r: Vec<u8>)
        ensures
            r@ == enc_spool(self.queue()),
    {
        self.spooler.store()
    }

    /// Loads a snapshot into the queue, appending each line that parses
    /// and counting those that do not.  The backoff is untouched.
    pub fn load(&mut self, data: &Vec<u8>) -> (skipped: usize)
        ensures
            final(self).queue() == old(self).queue() + crate::spooler::dec_lines(
                split_lines(data@),
            ),
            skipped == crate::spooler::skipped_lines(split_lines(data@)),
            final(self).interval() == old(self).interval(),
    {
        self.spooler.load(data)
    }
}

} // verus!
