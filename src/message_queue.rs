use crate::block::{Block, BlockModel, Transaction, TxModel};
use vstd::prelude::*;

verus! {

/// What participants broadcast to each other.
#[derive(Debug, Clone)]
pub enum Message {
    BlockMined(Block),
    Test(String),
    AddTransaction(Transaction),
    Shutdown,
}

/// Mathematical value of a message.
pub ghost enum MessageModel {
    BlockMined(BlockModel),
    Test(Seq<char>),
    AddTransaction(TxModel),
    Shutdown,
}

impl View for Message {
    type V = MessageModel;

    open spec fn view(&self) -> MessageModel {
        match self {
            Message::BlockMined(b) => MessageModel::BlockMined(b@),
            Message::Test(s) => MessageModel::Test(s@),
            Message::AddTransaction(t) => MessageModel::AddTransaction(t@),
            Message::Shutdown => MessageModel::Shutdown,
        }
    }
}

impl Message {
    /// A copy with the same value.
    pub fn duplicate(&self) -> (r: Message)
        ensures
            r@ == self@,
    {
        match self {
            Message::BlockMined(b) => Message::BlockMined(b.duplicate()),
            Message::Test(s) => Message::Test(s.clone()),
            Message::AddTransaction(t) => Message::AddTransaction(t.duplicate()),
            Message::Shutdown => Message::Shutdown,
        }
    }
}

/// The shared broadcast log: messages in the single order in which they were
/// published. Nothing is ever removed.
pub struct Queue {
    messages: Vec<Message>,
}

impl View for Queue {
    type V = Seq<MessageModel>;

    closed spec fn view(&self) -> Seq<MessageModel> {
        self.messages@.map_values(|m: Message| m@)
    }
}

/// A read cursor into the log: the position of the next message to read.
pub struct QueueClient {
    offset: usize,
}

impl QueueClient {
    /// The position of the next message this cursor reads.
    pub closed spec fn position(&self) -> nat {
        self.offset as nat
    }

    /// The position of the next message this cursor reads.
    pub fn offset(&self) -> (r: usize)
        ensures
            r == self.position(),
    {
        self.offset
    }

    /// Publishes a message at the end of the log.
    pub fn send(&self, queue: &mut Queue, msg: Message)
        ensures
            final(queue)@ == old(queue)@.push(msg@),
    {
        queue.publish(msg);
    }

    /// Reads the message at the cursor and moves past it, or reports that
    /// none is there yet. Never waits.
    pub fn receive(&mut self, queue: &Queue) -> (r: Option<Message>)
        ensures
            old(self).position() < queue@.len() ==> r is Some && r->0@ == queue@[old(
                self,
            ).position() as int] && final(self).position() == old(self).position() + 1,
            old(self).position() >= queue@.len() ==> r is None && final(self).position() == old(
                self,
            ).position(),
    {
        if self.offset < queue.messages.len() {
            let msg = queue.messages[self.offset].duplicate();
            self.offset = self.offset + 1;
            Some(msg)
        } else {
            None
        }
    }
}

impl Queue {
    /// An empty log.
    pub fn new() -> (r: Queue)
        ensures
            r@ == Seq::<MessageModel>::empty(),
    {
        let r = Queue { messages: Vec::new() };
        assert(r@ =~= Seq::<MessageModel>::empty());
        r
    }

    /// A new cursor at the start of the log.
    pub fn create_client(&self) -> (r: QueueClient)
        ensures
            r.position() == 0,
    {
        QueueClient { offset: 0 }
    }

    /// Appends a message at the end of the log.
    pub fn publish(&mut self, msg: Message)
        ensures
            final(self)@ == old(self)@.push(msg@),
    {
        self.messages.push(msg);
        assert(self@ =~= old(self)@.push(msg@));
    }

    /// The number of messages published so far.
    pub fn len(&self) -> (r: usize)
        ensures
            r == self@.len(),
    {
        self.messages.len()
    }

    /// A copy of the message at position `i`, if there is one.
    pub fn get(&self, i: usize) -> (r: Option<Message>)
        ensures
            i < self@.len() ==> r is Some && r->0@ == self@[i as int],
            i >= self@.len() ==> r is None,
    {
        if i < self.messages.len() {
            Some(self.messages[i].duplicate())
        } else {
            None
        }
    }
}

/// What a cursor at `offset` reads in `n` polls of `log`: each poll yields the
/// next message or nothing.
pub open spec fn polled(log: Seq<MessageModel>, offset: nat, n: nat) -> Seq<MessageModel>
    decreases n,
{
    if n == 0 || offset >= log.len() {
        Seq::empty()
    } else {
        seq![log[offset as int]] + polled(log, offset + 1, (n - 1) as nat)
    }
}

/// A cursor sees the log in publication order, with nothing skipped or
/// repeated: `n` polls from `offset` yield the next `n` messages, or all that
/// are there. So every cursor sees the same order, and `n` polls from the start
/// of a log holding at least `n` messages yield exactly its first `n`.
pub proof fn lemma_cursor_reads_in_order(log: Seq<MessageModel>, offset: nat, n: nat)
    requires
        offset <= log.len(),
    ensures
        polled(log, offset, n) == log.subrange(
            offset as int,
            if offset + n <= log.len() {
                (offset + n) as int
            } else {
                log.len() as int
            },
        ),
    decreases n,
{
    if n == 0 || offset == log.len() {
    } else {
        lemma_cursor_reads_in_order(log, offset + 1, (n - 1) as nat);
        let end = if offset + n <= log.len() {
            (offset + n) as int
        } else {
            log.len() as int
        };
        assert(seq![log[offset as int]] + log.subrange(offset + 1 as int, end) =~= log.subrange(
            offset as int,
            end,
        ));
    }
}

/// Publishing more messages does not change what a cursor has read: the
/// polls of a log that the log extends are a prefix of the polls of the
/// extension.
pub proof fn lemma_later_messages_keep_order(
    log: Seq<MessageModel>,
    extended: Seq<MessageModel>,
    n: nat,
)
    requires
        log.len() <= extended.len(),
        extended.subrange(0, log.len() as int) == log,
    ensures
        polled(extended, 0, n).subrange(0, polled(log, 0, n).len() as int) == polled(log, 0, n),
        n <= log.len() ==> polled(extended, 0, n) == polled(log, 0, n),
{
    lemma_cursor_reads_in_order(log, 0, n);
    lemma_cursor_reads_in_order(extended, 0, n);
    let a = polled(log, 0, n);
    let b = polled(extended, 0, n);
    assert(b.subrange(0, a.len() as int) =~= a);
}

/// A cursor at `position` that has received `received` is in step with `log`:
/// what it received is exactly the log up to its position.
pub open spec fn in_step(received: Seq<MessageModel>, position: nat, log: Seq<MessageModel>) -> bool {
    position <= log.len() && received == log.subrange(0, position as int)
}

/// A cursor stays in step with the log whatever is published after it: the
/// log only grows at its end.
pub proof fn lemma_in_step_after_publish(
    received: Seq<MessageModel>,
    position: nat,
    log: Seq<MessageModel>,
    extended: Seq<MessageModel>,
)
    requires
        in_step(received, position, log),
        log.len() <= extended.len(),
        extended.subrange(0, log.len() as int) == log,
    ensures
        in_step(received, position, extended),
{
    assert(extended.subrange(0, position as int) =~= log.subrange(0, position as int));
}

/// A cursor stays in step with the log when it receives: a successful poll
/// adds the message at its position, an empty one changes nothing.
pub proof fn lemma_in_step_after_receive(
    received: Seq<MessageModel>,
    position: nat,
    log: Seq<MessageModel>,
)
    requires
        in_step(received, position, log),
    ensures
        position < log.len() ==> in_step(received.push(log[position as int]), position + 1, log),
{
    if position < log.len() {
        assert(log.subrange(0, (position + 1) as int) =~= log.subrange(0, position as int).push(
            log[position as int],
        ));
    }
}

/// Two cursors in step with one log agree: what the one that read less
/// received is the start of what the other received, in the same order.
pub proof fn lemma_cursors_agree(
    r1: Seq<MessageModel>,
    p1: nat,
    r2: Seq<MessageModel>,
    p2: nat,
    log: Seq<MessageModel>,
)
    requires
        in_step(r1, p1, log),
        in_step(r2, p2, log),
        p1 <= p2,
    ensures
        r1 == r2.subrange(0, p1 as int),
{
    assert(r2.subrange(0, p1 as int) =~= log.subrange(0, p1 as int));
}

/// The position of a cursor after polling logs of the given lengths in turn.
pub open spec fn position_after_polls(position: nat, lengths: Seq<nat>) -> nat
    decreases lengths.len(),
{
    if lengths.len() == 0 {
        position
    } else {
        let p = position_after_polls(position, lengths.drop_last());
        if p < lengths.last() {
            p + 1
        } else {
            p
        }
    }
}

/// A cursor that polls `n` times while the log holds at least `m` messages
/// has received at least `min(n, m)` of them, whatever else was published
/// in between.
pub proof fn lemma_polls_reach_published(lengths: Seq<nat>, m: nat)
    requires
        forall|i: int| 0 <= i < lengths.len() ==> lengths[i] >= m,
    ensures
        position_after_polls(0, lengths) >= if lengths.len() <= m {
            lengths.len()
        } else {
            m
        },
    decreases lengths.len(),
{
    if lengths.len() > 0 {
        let rest = lengths.drop_last();
        assert forall|i: int| 0 <= i < rest.len() implies rest[i] >= m by {
            assert(rest[i] == lengths[i]);
        }
        lemma_polls_reach_published(rest, m);
        assert(lengths.last() >= m);
    }
}

} // verus!
