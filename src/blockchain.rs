use crate::block::{block_hash, meets_difficulty, with_work, Block, BlockModel, Transaction, TxModel};
use std::collections::HashMap;
use vstd::prelude::*;

verus! {

/// Why a block could not be appended, or the chain had no tail.
#[derive(Debug, Clone, Copy, PartialEq, Eq, Structural)]
pub enum ChainError {
    EmptyLedger,
    IndexMismatch,
    LinkageMismatch,
}

/// A participant's local chain, grown only by appending to its tail.
#[derive(Debug, Clone)]
pub struct Blockchain {
    pub genesis_block: Block,
    pub chain: Vec<Block>,
    pub difficulty: usize,
}

/// Mathematical value of a chain.
pub ghost struct ChainModel {
    pub genesis: BlockModel,
    pub blocks: Seq<BlockModel>,
    pub difficulty: usize,
}

impl View for Blockchain {
    type V = ChainModel;

    open spec fn view(&self) -> ChainModel {
        ChainModel {
            genesis: self.genesis_block@,
            blocks: self.chain@.map_values(|b: Block| b@),
            difficulty: self.difficulty,
        }
    }
}

/// `next` extends `prev`: the next index and a link to its hash.
pub open spec fn links_to(prev: BlockModel, next: BlockModel) -> bool {
    next.index == prev.index + 1 && next.previous_hash == prev.hash
}

/// A chain that starts at a genesis block of index zero and in which every
/// block extends the one before it.
pub open spec fn well_linked(blocks: Seq<BlockModel>) -> bool {
    &&& blocks.len() >= 1
    &&& blocks[0].index == 0
    &&& forall|i: int| 0 <= i < blocks.len() - 1 ==> links_to(blocks[i], #[trigger] blocks[i + 1])
}

/// The genesis block before any mining: index zero, empty link, empty
/// hash, no work and no transactions.
pub open spec fn blank_genesis() -> BlockModel {
    BlockModel {
        index: 0,
        proof_of_work: 0,
        previous_hash: Seq::empty(),
        hash: Seq::empty(),
        transactions: Seq::empty(),
    }
}

/// `g` is the blank genesis mined at difficulty `d`: left alone when its
/// empty hash already meets `d`, else carrying the least counter whose hash
/// meets `d`, or the largest counter when none below it does.
pub open spec fn mined_genesis(g: BlockModel, d: nat) -> bool {
    &&& g.proof_of_work == 0 ==> g == blank_genesis()
    &&& g.proof_of_work > 0 ==> g == with_work(blank_genesis(), g.proof_of_work)
    &&& meets_difficulty(Seq::empty(), d) ==> g.proof_of_work == 0
    &&& meets_difficulty(g.hash, d) || g.proof_of_work == u64::MAX
    &&& forall|p: u64|
        0 < p < g.proof_of_work ==> !meets_difficulty(
            #[trigger] block_hash(with_work(blank_genesis(), p)),
            d,
        )
}

/// The amounts of the reward transactions, in order.
pub open spec fn reward_amounts(s: Seq<TxModel>) -> Seq<u64>
    decreases s.len(),
{
    if s.len() == 0 {
        Seq::empty()
    } else {
        let rest = reward_amounts(s.drop_last());
        match s.last() {
            TxModel::MinerReward(_, amount) => rest.push(amount),
            _ => rest,
        }
    }
}

/// The acceptance rule: exactly one reward, of amount one.
pub open spec fn valid_rewards(s: Seq<TxModel>) -> bool {
    reward_amounts(s).len() == 1 && reward_amounts(s)[0] == 1
}

/// Transactions other than rewards play no part in the acceptance rule:
/// inserting one anywhere leaves the reward amounts, and so the verdict, as
/// they were.
pub proof fn lemma_rule_ignores_other_transactions(s1: Seq<TxModel>, t: TxModel, s2: Seq<TxModel>)
    requires
        !(t is MinerReward),
    ensures
        reward_amounts(s1 + seq![t] + s2) == reward_amounts(s1 + s2),
        valid_rewards(s1 + seq![t] + s2) == valid_rewards(s1 + s2),
    decreases s2.len(),
{
    if s2.len() == 0 {
        assert(s1 + seq![t] + s2 =~= s1.push(t));
        assert(s1.push(t).drop_last() =~= s1);
        assert(s1 + s2 =~= s1);
    } else {
        let s3 = s2.drop_last();
        lemma_rule_ignores_other_transactions(s1, t, s3);
        assert((s1 + seq![t] + s2).drop_last() =~= s1 + seq![t] + s3);
        assert((s1 + s2).drop_last() =~= s1 + s3);
        assert((s1 + seq![t] + s2).last() == s2.last());
        assert((s1 + s2).last() == s2.last());
    }
}

/// Every transaction of the chain, block after block.
pub open spec fn all_transactions(blocks: Seq<BlockModel>) -> Seq<TxModel>
    decreases blocks.len(),
{
    if blocks.len() == 0 {
        Seq::empty()
    } else {
        all_transactions(blocks.drop_last()) + blocks.last().transactions
    }
}

/// Adds `amount` to the balance of `name`, or opens one at the end.
/// A balance that would pass the largest `u64` stays at it.
pub open spec fn credit(w: Seq<(Seq<char>, u64)>, name: Seq<char>, amount: u64) -> Seq<
    (Seq<char>, u64),
>
    decreases w.len(),
{
    if w.len() == 0 {
        seq![(name, amount)]
    } else if w[0].0 == name {
        w.update(
            0,
            (
                name,
                if w[0].1 + amount > u64::MAX {
                    u64::MAX
                } else {
                    (w[0].1 + amount) as u64
                },
            ),
        )
    } else {
        seq![w[0]] + credit(w.drop_first(), name, amount)
    }
}

/// Balances after the given transactions: each reward credits its recipient.
pub open spec fn balances(s: Seq<TxModel>) -> Seq<(Seq<char>, u64)>
    decreases s.len(),
{
    if s.len() == 0 {
        Seq::empty()
    } else {
        let w = balances(s.drop_last());
        match s.last() {
            TxModel::MinerReward(name, amount) => credit(w, name, amount),
            _ => w,
        }
    }
}

/// The payloads of the text transactions, in order.
pub open spec fn texts(s: Seq<TxModel>) -> Seq<Seq<char>>
    decreases s.len(),
{
    if s.len() == 0 {
        Seq::empty()
    } else {
        let rest = texts(s.drop_last());
        match s.last() {
            TxModel::Text(t) => rest.push(t),
            _ => rest,
        }
    }
}

/// Files `t` under `index`: appended to what is there, or as a new entry.
pub open spec fn file_texts(m: Map<u64, Seq<Seq<char>>>, index: u64, t: Seq<Seq<char>>) -> Map<
    u64,
    Seq<Seq<char>>,
> {
    if m.contains_key(index) {
        m.insert(index, m[index] + t)
    } else {
        m.insert(index, t)
    }
}

/// Text payloads keyed by the index of the block that carried them, in
/// order; blocks without texts add no key.
pub open spec fn messages_by_block(blocks: Seq<BlockModel>) -> Map<u64, Seq<Seq<char>>>
    decreases blocks.len(),
{
    if blocks.len() == 0 {
        Map::empty()
    } else {
        let m = messages_by_block(blocks.drop_last());
        let t = texts(blocks.last().transactions);
        if t.len() == 0 {
            m
        } else {
            file_texts(m, blocks.last().index, t)
        }
    }
}

/// The view of a list of balances.
pub open spec fn wallet_view(w: Seq<(String, u64)>) -> Seq<(Seq<char>, u64)> {
    w.map_values(|p: (String, u64)| (p.0@, p.1))
}

/// The view of a map of text lists.
pub open spec fn texts_view(m: Map<u64, Vec<String>>) -> Map<u64, Seq<Seq<char>>> {
    Map::new(|k: u64| m.contains_key(k), |k: u64| m[k]@.map_values(|s: String| s@))
}

proof fn lemma_credit_prefix(w: Seq<(Seq<char>, u64)>, name: Seq<char>, amount: u64, k: int)
    requires
        0 <= k <= w.len(),
        forall|j: int| 0 <= j < k ==> w[j].0 != name,
    ensures
        credit(w, name, amount) == w.subrange(0, k) + credit(
            w.subrange(k, w.len() as int),
            name,
            amount,
        ),
    decreases k,
{
    if k == 0 {
        assert(w.subrange(0, 0) + w.subrange(0, w.len() as int) =~= w);
        assert(w.subrange(0, w.len() as int) =~= w);
    } else {
        let r = w.drop_first();
        assert forall|j: int| 0 <= j < k - 1 implies r[j].0 != name by {
            assert(r[j] == w[j + 1]);
        }
        lemma_credit_prefix(r, name, amount, k - 1);
        assert(r.subrange(k - 1, r.len() as int) =~= w.subrange(k, w.len() as int));
        assert(seq![w[0]] + r.subrange(0, k - 1) =~= w.subrange(0, k));
    }
}

/// Credits `amount` to `name` in a list of balances.
fn credit_wallet(w: &mut Vec<(String, u64)>, name: &String, amount: u64)
    ensures
        wallet_view(final(w)@) == credit(wallet_view(old(w)@), name@, amount),
{
    let ghost v = wallet_view(old(w)@);
    let mut k: usize = 0;
    while k < w.len()
        invariant
            k <= w.len(),
            w@ == old(w)@,
            v == wallet_view(w@),
            forall|j: int| 0 <= j < k ==> v[j].0 != name@,
        decreases w.len() - k,
    {
        if w[k].0.eq(name) {
            proof {
                lemma_credit_prefix(v, name@, amount, k as int);
                let rest = v.subrange(k as int, v.len() as int);
                assert(rest[0] == v[k as int]);
            }
            let total: u64 = if w[k].1 > u64::MAX - amount {
                u64::MAX
            } else {
                w[k].1 + amount
            };
            w.set(k, (name.clone(), total));
            proof {
                let rest = v.subrange(k as int, v.len() as int);
                assert(wallet_view(w@) =~= v.subrange(0, k as int) + credit(rest, name@, amount));
            }
            return ;
        }
        k = k + 1;
    }
    proof {
        lemma_credit_prefix(v, name@, amount, k as int);
        assert(v.subrange(k as int, v.len() as int).len() == 0);
    }
    w.push((name.clone(), amount));
    assert(wallet_view(w@) =~= v.subrange(0, k as int) + seq![(name@, amount)]);
}

/// Appends the texts `t` to the entry of `index`, or adds that entry.
fn file_group(g: &mut HashMap<u64, Vec<String>>, index: u64, t: Vec<String>)
    ensures
        texts_view(final(g)@) == file_texts(
            texts_view(old(g)@),
            index,
            t@.map_values(|s: String| s@),
        ),
{
    broadcast use vstd::std_specs::hash::group_hash_axioms;

    let ghost tv = t@.map_values(|s: String| s@);
    let ghost before = g@;
    let prior = g.remove(&index);
    let mut merged: Vec<String> = match prior {
        Some(v) => v,
        None => Vec::new(),
    };
    let ghost start = merged@;
    assert(before.contains_key(index) ==> start == before[index]@);
    assert(!before.contains_key(index) ==> start.len() == 0);
    let mut j: usize = 0;
    while j < t.len()
        invariant
            j <= t.len(),
            merged.len() == start.len() + j,
            forall|q: int| 0 <= q < start.len() ==> merged@[q] == start[q],
            forall|q: int| 0 <= q < j ==> merged@[start.len() + q]@ == t@[q]@,
        decreases t.len() - j,
    {
        merged.push(t[j].clone());
        j = j + 1;
    }
    proof {
        assert(merged@.map_values(|s: String| s@) =~= start.map_values(|s: String| s@) + tv);
    }
    g.insert(index, merged);
    proof {
        assert(g@ == before.remove(index).insert(index, merged));
        if before.contains_key(index) {
            assert(texts_view(before)[index] == start.map_values(|s: String| s@));
        } else {
            assert(start.map_values(|s: String| s@) =~= Seq::<Seq<char>>::empty());
            assert(Seq::<Seq<char>>::empty() + tv =~= tv);
        }
        assert(texts_view(g@) =~= file_texts(texts_view(before), index, tv));
    }
}

impl Blockchain {
    /// A chain holding only a freshly mined genesis block: index zero, empty
    /// link, no transactions.
    pub fn new(difficulty: usize) -> (r: Blockchain)
        ensures
            r@.difficulty == difficulty,
            r@.blocks == seq![r@.genesis],
            well_linked(r@.blocks),
            mined_genesis(r@.genesis, difficulty as nat),
    {
        let mut genesis_block = Block::new(0, String::new());
        assert(genesis_block@ == blank_genesis());
        genesis_block.mine(difficulty);
        let mut chain: Vec<Block> = Vec::new();
        chain.push(genesis_block.duplicate());
        let r = Blockchain { genesis_block, chain, difficulty };
        assert(r@.blocks =~= seq![r@.genesis]);
        r
    }

    /// Appends `block` when it extends the tail: its index is the tail's plus
    /// one and its link is the tail's stored hash. The chain is unchanged on
    /// failure. Proof of work is not checked here.
    pub fn add_block(&mut self, block: Block) -> (r: Result<(), ChainError>)
        ensures
            old(self)@.blocks.len() == 0 ==> r == Err::<(), ChainError>(ChainError::EmptyLedger),
            old(self)@.blocks.len() > 0 && block.index != old(self)@.blocks.last().index + 1
                ==> r == Err::<(), ChainError>(ChainError::IndexMismatch),
            old(self)@.blocks.len() > 0 && block.index == old(self)@.blocks.last().index + 1
                && block@.previous_hash != old(self)@.blocks.last().hash ==> r == Err::<
                (),
                ChainError,
            >(ChainError::LinkageMismatch),
            old(self)@.blocks.len() > 0 && links_to(old(self)@.blocks.last(), block@) ==> r
                == Ok::<(), ChainError>(()),
            r is Ok ==> final(self)@ == (ChainModel {
                blocks: old(self)@.blocks.push(block@),
                ..old(self)@
            }),
            r is Err ==> final(self)@ == old(self)@,
            well_linked(old(self)@.blocks) ==> well_linked(final(self)@.blocks),
    {
        let n = self.chain.len();
        if n == 0 {
            return Err(ChainError::EmptyLedger);
        }
        let last = &self.chain[n - 1];
        assert(last@ == self@.blocks.last());
        if last.index == u64::MAX || block.index != last.index + 1 {
            return Err(ChainError::IndexMismatch);
        }
        if !block.previous_hash.eq(&last.hash) {
            return Err(ChainError::LinkageMismatch);
        }
        let ghost before = self@.blocks;
        self.chain.push(block);
        proof {
            assert(self@.blocks =~= before.push(block@));
            if well_linked(before) {
                assert forall|i: int| 0 <= i < self@.blocks.len() - 1 implies links_to(
                    self@.blocks[i],
                    #[trigger] self@.blocks[i + 1],
                ) by {
                    if i < before.len() - 1 {
                        assert(self@.blocks[i] == before[i]);
                        assert(self@.blocks[i + 1] == before[i + 1]);
                    }
                }
            }
        }
        Ok(())
    }

    /// The acceptance rule for a candidate: exactly one reward transaction,
    /// and its amount is one. Other transactions play no part.
    pub fn validate_new_block(&self, block: &Block) -> (r: bool)
        ensures
            r == valid_rewards(block@.transactions),
    {
        let ghost s = block@.transactions;
        let mut count: usize = 0;
        let mut all_one = true;
        let mut i: usize = 0;
        while i < block.transactions.len()
            invariant
                i <= block.transactions.len(),
                s == block@.transactions,
                count == reward_amounts(s.subrange(0, i as int)).len(),
                count <= i,
                all_one == (forall|k: int|
                    0 <= k < count ==> reward_amounts(s.subrange(0, i as int))[k] == 1),
            decreases block.transactions.len() - i,
        {
            proof {
                assert(s.subrange(0, i + 1).drop_last() =~= s.subrange(0, i as int));
                assert(s.subrange(0, i + 1).last() == s[i as int]);
            }
            let ghost prev = reward_amounts(s.subrange(0, i as int));
            match &block.transactions[i] {
                Transaction::MinerReward(_, amount) => {
                    assert(reward_amounts(s.subrange(0, i + 1)) == prev.push(*amount));
                    let ghost was_all_one = all_one;
                    count = count + 1;
                    if *amount != 1 {
                        all_one = false;
                    }
                    proof {
                        let now = prev.push(*amount);
                        if was_all_one && *amount == 1 {
                            assert forall|k: int| 0 <= k < count implies now[k] == 1 by {
                                if k < prev.len() {
                                    assert(now[k] == prev[k]);
                                }
                            }
                        } else if !was_all_one {
                            let k = choose|k: int| 0 <= k < prev.len() && prev[k] != 1;
                            assert(now[k] == prev[k]);
                        } else {
                            assert(now[prev.len() as int] == *amount);
                        }
                    }
                },
                _ => {
                    assert(reward_amounts(s.subrange(0, i + 1)) == prev);
                },
            }
            i = i + 1;
        }
        assert(s.subrange(0, i as int) =~= s);
        count == 1 && all_one
    }

    /// Balances of every recipient of a reward in the chain, each name once,
    /// in order of its first reward. A balance that would pass the largest
    /// `u64` stays at it.
    pub fn wallets(&self) -> (r: Vec<(String, u64)>)
        ensures
            wallet_view(r@) == balances(all_transactions(self@.blocks)),
    {
        let ghost blocks = self@.blocks;
        let mut w: Vec<(String, u64)> = Vec::new();
        let mut b: usize = 0;
        while b < self.chain.len()
            invariant
                b <= self.chain.len(),
                blocks == self@.blocks,
                wallet_view(w@) == balances(all_transactions(blocks.subrange(0, b as int))),
            decreases self.chain.len() - b,
        {
            let block = &self.chain[b];
            let ghost head = all_transactions(blocks.subrange(0, b as int));
            let ghost txs = block@.transactions;
            proof {
                assert(head + txs.subrange(0, 0) =~= head);
            }
            let mut j: usize = 0;
            while j < block.transactions.len()
                invariant
                    j <= block.transactions.len(),
                    txs == block@.transactions,
                    wallet_view(w@) == balances(head + txs.subrange(0, j as int)),
                decreases block.transactions.len() - j,
            {
                proof {
                    assert((head + txs.subrange(0, j + 1)).drop_last() =~= head + txs.subrange(
                        0,
                        j as int,
                    ));
                    assert((head + txs.subrange(0, j + 1)).last() == txs[j as int]);
                }
                match &block.transactions[j] {
                    Transaction::MinerReward(name, amount) => {
                        credit_wallet(&mut w, name, *amount);
                    },
                    _ => {},
                }
                j = j + 1;
            }
            proof {
                assert(blocks.subrange(0, b + 1).drop_last() =~= blocks.subrange(0, b as int));
                assert(blocks[b as int] == block@);
                assert(txs.subrange(0, j as int) =~= txs);
            }
            b = b + 1;
        }
        assert(blocks.subrange(0, b as int) =~= blocks);
        w
    }

    /// Text payloads keyed by the index of the block that carried them.
    pub fn transactions(&self) -> (r: HashMap<u64, Vec<String>>)
        ensures
            texts_view(r@) == messages_by_block(self@.blocks),
    {
        let ghost blocks = self@.blocks;
        let mut g: HashMap<u64, Vec<String>> = HashMap::new();
        assert(texts_view(g@) =~= Map::<u64, Seq<Seq<char>>>::empty());
        let mut b: usize = 0;
        while b < self.chain.len()
            invariant
                b <= self.chain.len(),
                blocks == self@.blocks,
                texts_view(g@) == messages_by_block(blocks.subrange(0, b as int)),
            decreases self.chain.len() - b,
        {
            let block = &self.chain[b];
            let ghost txs = block@.transactions;
            let mut t: Vec<String> = Vec::new();
            let mut j: usize = 0;
            while j < block.transactions.len()
                invariant
                    j <= block.transactions.len(),
                    txs == block@.transactions,
                    t@.map_values(|s: String| s@) == texts(txs.subrange(0, j as int)),
                decreases block.transactions.len() - j,
            {
                proof {
                    assert(txs.subrange(0, j + 1).drop_last() =~= txs.subrange(0, j as int));
                    assert(txs.subrange(0, j + 1).last() == txs[j as int]);
                }
                match &block.transactions[j] {
                    Transaction::Text(text) => {
                        t.push(text.clone());
                        assert(t@.map_values(|s: String| s@) =~= texts(
                            txs.subrange(0, j as int),
                        ).push(text@));
                    },
                    _ => {},
                }
                j = j + 1;
            }
            proof {
                assert(blocks.subrange(0, b + 1).drop_last() =~= blocks.subrange(0, b as int));
                assert(blocks[b as int] == block@);
                assert(txs.subrange(0, j as int) =~= txs);
            }
            if t.len() > 0 {
                file_group(&mut g, block.index, t);
            }
            b = b + 1;
        }
        assert(blocks.subrange(0, b as int) =~= blocks);
        g
    }

    /// The most recently appended block.
    pub fn last_block(&self) -> (r: Block)
        requires
            self.chain.len() > 0,
        ensures
            r@ == self@.blocks.last(),
    {
        self.chain[self.chain.len() - 1].duplicate()
    }
}

} // verus!
