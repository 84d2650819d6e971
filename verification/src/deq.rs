//! A small FIFO queue of text messages: an example companion of the ledger's
//! control-message plumbing, with no bearing on the ledger itself.

use vstd::prelude::*;
use std::collections::VecDeque;

verus! {

/// A transaction identifier as carried by control messages.
pub type Txid = [u8; 32];

/// A first-in, first-out queue of text messages.
#[derive(Debug)]
pub struct Deq {
    pub queue: VecDeque<String>,
}

impl Deq {
    /// The messages in the queue, oldest first.
    pub open spec fn msgs(&self) -> Seq<String> {
        self.queue@
    }

    /// An empty queue.
    pub fn new() -> (r: Self)
        ensures
            r.msgs() == Seq::<String>::empty(),
    {
        Deq { queue: VecDeque::new() }
    }

    /// Adds a message at the back of the queue.
    pub fn enqueue(&mut self, msg: String)
        ensures
            final(self).msgs() == old(self).msgs().push(msg),
    {
        self.queue.push_back(msg);
    }

    /// Removes and returns the oldest message, if any.
    pub fn dequeue(&mut self) -> (r: Option<String>)
        ensures
            match r {
                Some(m) => old(self).msgs().len() > 0 && m == old(self).msgs()[0]
                    && final(self).msgs() == old(self).msgs().drop_first(),
                None => old(self).msgs().len() == 0 && final(self).msgs() == old(self).msgs(),
            },
    {
        let r = self.queue.pop_front();
        proof {
            if old(self).msgs().len() > 0 {
                assert(old(self).msgs().subrange(1, old(self).msgs().len() as int) =~= old(
                    self,
                ).msgs().drop_first());
            }
        }
        r
    }

    /// Returns the oldest message without removing it, if any.
    pub fn peek(&self) -> (r: Option<&String>)
        ensures
            match r {
                Some(m) => self.msgs().len() > 0 && *m == self.msgs()[0],
                None => self.msgs().len() == 0,
            },
    {
        if self.queue.len() == 0 {
            None
        } else {
            Some(&self.queue[0])
        }
    }

    /// The number of queued messages.
    pub fn size(&self) -> (r: usize)
        ensures
            r == self.msgs().len(),
    {
        self.queue.len()
    }

    /// Removes every queued message.
    pub fn clear(&mut self)
        ensures
            final(self).msgs() == Seq::<String>::empty(),
    {
        self.queue.clear();
    }
}

/// Control messages that the queue's users exchange: a greeting, or a request
/// to track a transaction's mining status at a given depth.
#[derive(Debug, Clone)]
pub enum CtlMsg {
    Hello,
    Track { txid: Txid, depth: u32 },
}

} // verus!
