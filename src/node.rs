use crate::block::{
    block_hash, meets_difficulty, with_transaction, with_work, Block, BlockModel, Transaction, TxModel,
};
use crate::blockchain::{links_to, mined_genesis, reward_amounts, valid_rewards, Blockchain, ChainModel};
use crate::message_queue::{Message, MessageModel, Queue, QueueClient};
use vstd::prelude::*;

verus! {

/// The role of a participant.
#[derive(Debug, Clone, Copy, PartialEq, Eq, Structural)]
pub enum NodeType {
    /// Observes and validates only.
    Passive,
    /// Validates and mines for the standard reward.
    Miner,
    /// Mines for a larger reward and skips the acceptance rule.
    BigRewardMiner,
}

/// Whether a participant of this role mines.
pub open spec fn mines(t: NodeType) -> bool {
    t != NodeType::Passive
}

/// Whether a participant of this role applies the acceptance rule to blocks
/// it receives.
pub open spec fn applies_rule(t: NodeType) -> bool {
    t != NodeType::BigRewardMiner
}

/// The reward a participant of this role pays itself.
pub open spec fn reward_of(t: NodeType) -> u64 {
    match t {
        NodeType::Passive => 0,
        NodeType::Miner => 1,
        NodeType::BigRewardMiner => 10,
    }
}

/// A participant: a cursor into the log, a private chain, its pending
/// transactions and the block it is mining, if any.
pub struct Node {
    message_client: QueueClient,
    blockchain: Blockchain,
    node_type: NodeType,
    name: String,
    pending_transactions: Vec<Transaction>,
    next_block: Option<Block>,
}

/// Mathematical value of a participant.
pub ghost struct NodeModel {
    pub position: nat,
    pub chain: ChainModel,
    pub node_type: NodeType,
    pub name: Seq<char>,
    pub pending: Seq<TxModel>,
    pub next: Option<BlockModel>,
}

pub open spec fn option_view(b: Option<Block>) -> Option<BlockModel> {
    match b {
        Some(b) => Some(b@),
        None => None,
    }
}

impl View for Node {
    type V = NodeModel;

    closed spec fn view(&self) -> NodeModel {
        NodeModel {
            position: self.message_client.position(),
            chain: self.blockchain@,
            node_type: self.node_type,
            name: self.name@,
            pending: self.pending_transactions@.map_values(|t: Transaction| t@),
            next: option_view(self.next_block),
        }
    }
}

/// The chain after a mined block arrives: appended when it extends the tail
/// and, for a role that applies the acceptance rule, passes that rule.
pub open spec fn receive_block(c: ChainModel, t: NodeType, b: BlockModel) -> ChainModel {
    if (applies_rule(t) ==> valid_rewards(b.transactions)) && c.blocks.len() > 0 && links_to(
        c.blocks.last(),
        b,
    ) {
        ChainModel { blocks: c.blocks.push(b), ..c }
    } else {
        c
    }
}

/// A participant after handling one message (other than a shutdown).
pub open spec fn after_message(n: NodeModel, m: MessageModel) -> NodeModel {
    match m {
        MessageModel::BlockMined(b) => NodeModel {
            chain: receive_block(n.chain, n.node_type, b),
            ..n
        },
        MessageModel::AddTransaction(tx) => if mines(n.node_type) {
            NodeModel { pending: n.pending.push(tx), ..n }
        } else {
            n
        },
        _ => n,
    }
}

/// A new candidate extending `last`, carrying only the miner's reward.
pub open spec fn fresh_candidate(last: BlockModel, name: Seq<char>, reward: u64) -> BlockModel {
    BlockModel {
        index: (last.index + 1) as u64,
        proof_of_work: 0,
        previous_hash: block_hash(last),
        hash: Seq::empty(),
        transactions: with_transaction(Seq::empty(), TxModel::MinerReward(name, reward)),
    }
}

/// The candidate with the pending transactions it lacks merged in; each
/// merge restarts the proof of work.
pub open spec fn merge_pending(b: BlockModel, p: Seq<TxModel>) -> BlockModel
    decreases p.len(),
{
    if p.len() == 0 {
        b
    } else {
        let c = merge_pending(b, p.drop_last());
        if c.transactions.contains(p.last()) {
            c
        } else {
            BlockModel {
                transactions: with_transaction(c.transactions, p.last()),
                proof_of_work: 0,
                ..c
            }
        }
    }
}

/// The candidate a miner works on in this step: the current one while it
/// still links to the tail's hash, else a fresh one. None when the tail's
/// index leaves no room for a successor.
pub open spec fn candidate_base(n: NodeModel) -> Option<BlockModel> {
    let last = n.chain.blocks.last();
    if n.next is Some && n.next->0.previous_hash == block_hash(last) {
        n.next
    } else if last.index < u64::MAX {
        Some(fresh_candidate(last, n.name, reward_of(n.node_type)))
    } else {
        None
    }
}

/// One mining step: the participant afterwards, and the block it publishes.
/// A mined candidate is appended to the own chain when it links to the tail,
/// and published in any case.
pub open spec fn mining_outcome(n: NodeModel) -> (NodeModel, Option<BlockModel>) {
    if !mines(n.node_type) || n.chain.blocks.len() == 0 {
        (n, None)
    } else {
        match candidate_base(n) {
            None => (NodeModel { next: None, ..n }, None),
            Some(base) => {
                let c = merge_pending(base, n.pending);
                if c.proof_of_work == u64::MAX {
                    (NodeModel { next: Some(c), ..n }, None)
                } else {
                    let s = with_work(c, (c.proof_of_work + 1) as u64);
                    if meets_difficulty(s.hash, n.chain.difficulty as nat) {
                        let chain = if links_to(n.chain.blocks.last(), s) {
                            ChainModel { blocks: n.chain.blocks.push(s), ..n.chain }
                        } else {
                            n.chain
                        };
                        (NodeModel { next: None, chain, ..n }, Some(s))
                    } else {
                        (NodeModel { next: Some(s), ..n }, None)
                    }
                }
            },
        }
    }
}

/// One step of a participant on `log`: whether it goes on, what it becomes,
/// and the block it publishes.
pub open spec fn step_outcome(n: NodeModel, log: Seq<MessageModel>) -> (
    bool,
    NodeModel,
    Option<BlockModel>,
) {
    if n.position < log.len() {
        let moved = NodeModel { position: n.position + 1, ..n };
        let m = log[n.position as int];
        if m is Shutdown {
            (false, moved, None)
        } else {
            let out = mining_outcome(after_message(moved, m));
            (true, out.0, out.1)
        }
    } else {
        let out = mining_outcome(n);
        (true, out.0, out.1)
    }
}

/// The log after a block, if any, is published on it.
pub open spec fn with_published(log: Seq<MessageModel>, b: Option<BlockModel>) -> Seq<
    MessageModel,
> {
    match b {
        Some(b) => log.push(MessageModel::BlockMined(b)),
        None => log,
    }
}

/// Blocks past this index make the shutdown actor ask for a shutdown.
pub const SHUTDOWN_AFTER_INDEX: u64 = 19;

/// How the shutdown actor reacts to a mined block: whether it asks for a
/// shutdown by sending a `Shutdown` transaction, and whether it broadcasts
/// the shutdown because the block already carries that transaction.
pub fn shutdown_reaction(block: &Block) -> (r: (bool, bool))
    ensures
        r.0 == (block.index > SHUTDOWN_AFTER_INDEX),
        r.1 == block@.transactions.contains(TxModel::Shutdown),
{
    let request = block.index > SHUTDOWN_AFTER_INDEX;
    let broadcast = block.has_transaction(&Transaction::Shutdown);
    (request, broadcast)
}

/// Two blocks racing to extend the same tail: whichever arrives first is
/// appended, and the other no longer links and is dropped, leaving the
/// chain's earlier blocks untouched.
pub proof fn lemma_race_has_one_winner(c: ChainModel, t: NodeType, b1: BlockModel, b2: BlockModel)
    requires
        c.blocks.len() > 0,
        links_to(c.blocks.last(), b1),
        links_to(c.blocks.last(), b2),
    ensures
        receive_block(receive_block(c, t, b1), t, b2).blocks.len() <= c.blocks.len() + 1,
        receive_block(receive_block(c, t, b1), t, b2).blocks.subrange(0, c.blocks.len() as int)
            == c.blocks,
        (applies_rule(t) ==> valid_rewards(b1.transactions)) ==> receive_block(
            receive_block(c, t, b1),
            t,
            b2,
        ).blocks == c.blocks.push(b1),
{
    let c1 = receive_block(c, t, b1);
    let c2 = receive_block(c1, t, b2);
    if c1.blocks.len() > c.blocks.len() {
        assert(c1.blocks.last() == b1);
        assert(!links_to(c1.blocks.last(), b2));
        assert(c1.blocks.subrange(0, c.blocks.len() as int) =~= c.blocks);
    } else {
        assert(c2.blocks.subrange(0, c.blocks.len() as int) =~= c.blocks);
    }
}

/// A block paying a reward of ten fails the acceptance rule: a role that
/// applies the rule leaves its chain as it was, while the big-reward role
/// appends the block whenever it links to the tail.
pub proof fn lemma_big_reward_bypasses_rule(c: ChainModel, b: BlockModel)
    requires
        reward_amounts(b.transactions) == seq![10u64],
    ensures
        !valid_rewards(b.transactions),
        receive_block(c, NodeType::Passive, b) == c,
        receive_block(c, NodeType::Miner, b) == c,
        c.blocks.len() > 0 && links_to(c.blocks.last(), b) ==> receive_block(
            c,
            NodeType::BigRewardMiner,
            b,
        ).blocks == c.blocks.push(b),
{
    assert(reward_amounts(b.transactions)[0] == 10);
}

/// One step of a passive observer whose next message is a mined block that
/// fails the acceptance rule or no longer extends its tail (the loser of a
/// race): the observer drops it, keeps its chain, publishes nothing and goes
/// on.
pub proof fn lemma_observer_drops_block(n: NodeModel, log: Seq<MessageModel>, b: BlockModel)
    requires
        n.node_type == NodeType::Passive,
        n.chain.blocks.len() > 0,
        n.position < log.len(),
        log[n.position as int] == MessageModel::BlockMined(b),
        !valid_rewards(b.transactions) || !links_to(n.chain.blocks.last(), b),
    ensures
        step_outcome(n, log).0,
        step_outcome(n, log).1.chain == n.chain,
        step_outcome(n, log).1.position == n.position + 1,
        step_outcome(n, log).2 is None,
{
}

impl Node {
    /// A participant reading the log through `message_client`, with a chain
    /// whose genesis block is mined at `difficulty`, nothing pending and no
    /// candidate.
    pub fn new(message_client: QueueClient, difficulty: usize, node_type: NodeType, name: String) -> (r: Node)
        ensures
            r@.position == message_client.position(),
            r@.chain.difficulty == difficulty,
            r@.chain.blocks == seq![r@.chain.genesis],
            mined_genesis(r@.chain.genesis, difficulty as nat),
            r@.node_type == node_type,
            r@.name == name@,
            r@.pending == Seq::<TxModel>::empty(),
            r@.next == None::<BlockModel>,
    {
        let r = Node {
            message_client,
            blockchain: Blockchain::new(difficulty),
            node_type,
            name,
            pending_transactions: Vec::new(),
            next_block: None,
        };
        assert(r@.pending =~= Seq::<TxModel>::empty());
        r
    }

    /// The participant's own chain.
    pub fn blockchain(&self) -> (r: &Blockchain)
        ensures
            r@ == self@.chain,
    {
        &self.blockchain
    }

    /// The participant's name.
    pub fn name(&self) -> (r: &String)
        ensures
            r@ == self@.name,
    {
        &self.name
    }

    /// The block being mined, if any.
    pub fn next_block(&self) -> (r: &Option<Block>)
        ensures
            option_view(*r) == self@.next,
    {
        &self.next_block
    }

    /// Handles one message other than a shutdown; reports whether it was not
    /// a shutdown.
    fn handle_message(&mut self, msg: Message) -> (r: bool)
        ensures
            r == !(msg@ is Shutdown),
            r ==> final(self)@ == after_message(old(self)@, msg@),
            !r ==> final(self)@ == old(self)@,
    {
        match msg {
            Message::BlockMined(block) => {
                let accept = match self.node_type {
                    NodeType::BigRewardMiner => true,
                    _ => self.blockchain.validate_new_block(&block),
                };
                if accept {
                    let _ = self.blockchain.add_block(block);
                }
                true
            },
            Message::Test(_) => true,
            Message::AddTransaction(transaction) => {
                match self.node_type {
                    NodeType::Passive => {},
                    _ => {
                        self.pending_transactions.push(transaction);
                        proof {
                            assert(self@.pending =~= old(self)@.pending.push(transaction@));
                        }
                    },
                }
                true
            },
            Message::Shutdown => false,
        }
    }

    /// One mining step of a miner: drop an orphaned candidate, open a fresh
    /// one if needed, merge pending transactions, mine once, and commit and
    /// publish the block if it is mined.
    fn mine_step(&mut self, queue: &mut Queue)
        requires
            mines(old(self)@.node_type),
        ensures
            final(self)@ == mining_outcome(old(self)@).0,
            final(queue)@ == with_published(old(queue)@, mining_outcome(old(self)@).1),
    {
        if self.blockchain.chain.len() == 0 {
            return ;
        }
        let ghost n = self@;
        let last = self.blockchain.last_block();
        let tail_hash = last.calculate_hash();
        let taken = self.next_block.take();
        let kept: Option<Block> = match taken {
            Some(b) => if b.previous_hash.eq(&tail_hash) {
                Some(b)
            } else {
                None
            },
            None => None,
        };
        let mut block = match kept {
            Some(b) => b,
            None => {
                if last.index == u64::MAX {
                    return ;
                }
                let mut fresh = Block::new(last.index + 1, tail_hash);
                let reward: u64 = match self.node_type {
                    NodeType::BigRewardMiner => 10,
                    _ => 1,
                };
                fresh.add_transaction(Transaction::MinerReward(self.name.clone(), reward));
                fresh
            },
        };
        let ghost base = block@;
        assert(candidate_base(n) == Some(base));
        let ghost p = n.pending;
        let mut i: usize = 0;
        while i < self.pending_transactions.len()
            invariant
                i <= self.pending_transactions.len(),
                self@.pending == p,
                block@ == merge_pending(base, p.subrange(0, i as int)),
            decreases self.pending_transactions.len() - i,
        {
            proof {
                assert(p.subrange(0, i + 1).drop_last() =~= p.subrange(0, i as int));
                assert(p.subrange(0, i + 1).last() == p[i as int]);
            }
            if !block.has_transaction(&self.pending_transactions[i]) {
                block.add_transaction(self.pending_transactions[i].duplicate());
                block.proof_of_work = 0;
            }
            i = i + 1;
        }
        assert(p.subrange(0, i as int) =~= p);
        if block.proof_of_work == u64::MAX {
            self.next_block = Some(block);
            return ;
        }
        block.mine_once();
        if block.is_mined(self.blockchain.difficulty) {
            let _ = self.blockchain.add_block(block.duplicate());
            self.message_client.send(queue, Message::BlockMined(block));
        } else {
            self.next_block = Some(block);
        }
    }

    /// One cooperative step: poll the log once and handle what came, then,
    /// for a miner, take one mining step. Returns false once a shutdown is
    /// read; the caller yields between steps.
    pub fn step(&mut self, queue: &mut Queue) -> (r: bool)
        ensures
            r == step_outcome(old(self)@, old(queue)@).0,
            final(self)@ == step_outcome(old(self)@, old(queue)@).1,
            final(queue)@ == with_published(old(queue)@, step_outcome(old(self)@, old(queue)@).2),
    {
        let received = self.message_client.receive(queue);
        match received {
            Some(msg) => {
                if !self.handle_message(msg) {
                    return false;
                }
            },
            None => {},
        }
        match self.node_type {
            NodeType::Passive => {},
            _ => self.mine_step(queue),
        }
        true
    }
}

} // verus!
