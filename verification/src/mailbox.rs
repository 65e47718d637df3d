//! Per-process bounded mailbox: a FIFO queue of at most 16 messages, each
//! retaining at most 256 bytes. Writes to a full queue and reads from an
//! empty queue fail immediately; neither call ever blocks.

use vstd::prelude::*;

verus! {

/// Most messages a mailbox holds at once.
pub const MAIL_CAPACITY: usize = 16;

/// Longest payload one message retains; a longer write is truncated.
pub const MAX_MSG_LEN: usize = 256;

/// Failure code shared by a write to a full or dead destination and a read
/// from an empty queue.
pub const MAIL_ERR: isize = -1;

/// What remains of a written payload once the mailbox has truncated it.
pub open spec fn mail_trunc(bytes: Seq<u8>) -> Seq<u8> {
    if bytes.len() <= MAX_MSG_LEN {
        bytes
    } else {
        bytes.take(MAX_MSG_LEN as int)
    }
}

/// A bounded FIFO queue of messages owned by one process.
pub struct Mailbox {
    queue: Vec<Vec<u8>>,
}

impl View for Mailbox {
    type V = Seq<Seq<u8>>;

    closed spec fn view(&self) -> Seq<Seq<u8>> {
        Seq::new(self.queue@.len(), |i: int| self.queue@[i]@)
    }
}

impl Mailbox {
    /// The queue respects its capacity and every stored message its length cap.
    pub open spec fn wf(self) -> bool {
        &&& self@.len() <= MAIL_CAPACITY
        &&& forall|i: int| 0 <= i < self@.len() ==> #[trigger] self@[i].len() <= MAX_MSG_LEN
    }

    /// A process starts with an empty mailbox.
    pub fn new() -> (r: Mailbox)
        ensures
            r@ =~= Seq::<Seq<u8>>::empty(),
            r.wf(),
    {
        Mailbox { queue: Vec::new() }
    }

    /// How many messages are queued.
    pub fn len(&self) -> (r: usize)
        ensures
            r == self@.len(),
    {
        self.queue.len()
    }

    /// Enqueues up to `MAX_MSG_LEN` bytes of `bytes`, returning the retained
    /// length, or `MAIL_ERR` when the queue already holds `MAIL_CAPACITY`
    /// messages (a zero-length message occupies a slot like any other).
    pub fn write(&mut self, bytes: &[u8]) -> (r: isize)
        requires
            old(self).wf(),
        ensures
            final(self).wf(),
            old(self)@.len() == MAIL_CAPACITY ==> {
                &&& r == MAIL_ERR
                &&& *final(self) == *old(self)
            },
            old(self)@.len() < MAIL_CAPACITY ==> {
                &&& r == mail_trunc(bytes@).len()
                &&& final(self)@ =~= old(self)@.push(mail_trunc(bytes@))
            },
    {
        if self.queue.len() == MAIL_CAPACITY {
            return MAIL_ERR;
        }
        let n = if bytes.len() <= MAX_MSG_LEN {
            bytes.len()
        } else {
            MAX_MSG_LEN
        };
        let mut msg: Vec<u8> = Vec::new();
        let mut i: usize = 0;
        while i < n
            invariant
                i <= n,
                n <= bytes@.len(),
                msg@ =~= bytes@.take(i as int),
            decreases n - i,
        {
            msg.push(bytes[i]);
            i = i + 1;
        }
        proof {
            assert(msg@ =~= mail_trunc(bytes@));
        }
        self.queue.push(msg);
        proof {
            assert(self@ =~= old(self)@.push(mail_trunc(bytes@)));
        }
        n as isize
    }

    /// Dequeues the head message, copying its first `min(buf.len(), msg.len())`
    /// bytes into the front of `buf` and returning that count; the message
    /// leaves the queue even when `buf` was too small to hold it whole.
    /// Returns `MAIL_ERR`, changing nothing, when the queue is empty.
    pub fn read(&mut self, buf: &mut Vec<u8>) -> (r: isize)
        requires
            old(self).wf(),
        ensures
            final(self).wf(),
            old(self)@.len() == 0 ==> {
                &&& r == MAIL_ERR
                &&& *final(self) == *old(self)
                &&& final(buf)@ == old(buf)@
            },
            old(self)@.len() > 0 ==> {
                let msg = old(self)@[0];
                let n = if old(buf)@.len() <= msg.len() {
                    old(buf)@.len() as int
                } else {
                    msg.len() as int
                };
                &&& r == n
                &&& final(self)@ =~= old(self)@.subrange(1, old(self)@.len() as int)
                &&& final(buf)@.len() == old(buf)@.len()
                &&& forall|i: int| 0 <= i < n ==> final(buf)@[i] == msg[i]
                &&& forall|i: int| n <= i < old(buf)@.len() ==> final(buf)@[i] == old(buf)@[i]
            },
    {
        if self.queue.len() == 0 {
            return MAIL_ERR;
        }
        let msg = self.queue.remove(0);
        let n = if buf.len() <= msg.len() {
            buf.len()
        } else {
            msg.len()
        };
        let mut i: usize = 0;
        while i < n
            invariant
                i <= n,
                n <= buf@.len(),
                n <= msg@.len(),
                buf@.len() == old(buf)@.len(),
                forall|j: int| 0 <= j < i ==> buf@[j] == msg@[j],
                forall|j: int| i <= j < buf@.len() ==> buf@[j] == old(buf)@[j],
            decreases n - i,
        {
            let b = msg[i];
            buf[i] = b;
            i = i + 1;
        }
        proof {
            assert(self@ =~= old(self)@.subrange(1, old(self)@.len() as int));
        }
        n as isize
    }
}

/// Truncation round trip: on a mailbox with room, writing a payload longer
/// than `MAX_MSG_LEN` stores exactly its first `MAX_MSG_LEN` bytes at the
/// tail, so once that message reaches the head, a read into a buffer of at
/// least `MAX_MSG_LEN` bytes hands back precisely that prefix.
pub proof fn lemma_mail_truncation(q: Seq<Seq<u8>>, bytes: Seq<u8>)
    requires
        q.len() < MAIL_CAPACITY,
        bytes.len() > MAX_MSG_LEN,
    ensures
        mail_trunc(bytes).len() == MAX_MSG_LEN,
        q.push(mail_trunc(bytes)).last() =~= bytes.take(MAX_MSG_LEN as int),
{
}

} // verus!
