use std::collections::HashMap;

use richoin::{Block, Blockchain, ChainError, Transaction};

fn reward(name: &str, amount: u64) -> Transaction {
    Transaction::MinerReward(name.to_string(), amount)
}

fn text(s: &str) -> Transaction {
    Transaction::Text(s.to_string())
}

fn mined_successor(tail: &Block, name: &str, amount: u64, difficulty: usize) -> Block {
    let mut b = Block::new(tail.index + 1, tail.calculate_hash());
    b.add_transaction(reward(name, amount));
    b.mine(difficulty);
    b
}

#[test]
fn canonical_json_of_empty_block() {
    let b = Block::new(1, "ab".to_string());
    assert_eq!(
        b.canonical_json(),
        "{\"index\":1,\"proof_of_work\":0,\"previous_hash\":\"ab\",\"hash\":\"\",\"transactions\":[]}"
    );
    assert_eq!(
        b.calculate_hash(),
        "77a61c831f58c8bb9308c4f5c73c1b4c47b7a20c15d69633f898e30aff789871"
    );
}

#[test]
fn canonical_json_escapes_and_lists_transactions() {
    let mut b = Block::new(2, "x\"y".to_string());
    b.proof_of_work = 7;
    b.hash = "ignored".to_string();
    b.add_transaction(Transaction::Shutdown);
    b.add_transaction(text("Hello"));
    b.add_transaction(reward("alice", 1));
    assert_eq!(
        b.canonical_json(),
        "{\"index\":2,\"proof_of_work\":7,\"previous_hash\":\"x\\\"y\",\"hash\":\"\",\"transactions\":[{\"MinerReward\":[\"alice\",1]},{\"Text\":\"Hello\"},\"Shutdown\"]}"
    );
    assert_eq!(
        b.calculate_hash(),
        "176bedf705f391df9af86d092e6af72cc5e86f9e54c8b2ce6f88bcd1aa38f4df"
    );
}

#[test]
fn hash_is_stable_and_changes_with_work() {
    let mut b = Block::new(3, "p".to_string());
    b.add_transaction(text("a"));
    let h1 = b.calculate_hash();
    let h2 = b.calculate_hash();
    assert_eq!(h1, h2);
    assert_eq!(h1.len(), 64);
    b.hash = "something".to_string();
    assert_eq!(b.calculate_hash(), h1);
    b.proof_of_work += 1;
    assert_ne!(b.calculate_hash(), h1);
    b.proof_of_work -= 1;
    b.add_transaction(text("b"));
    assert_ne!(b.calculate_hash(), h1);
}

#[test]
fn new_block_is_blank() {
    let b = Block::new(5, "prev".to_string());
    assert_eq!(b.index, 5);
    assert_eq!(b.proof_of_work, 0);
    assert_eq!(b.previous_hash, "prev");
    assert_eq!(b.hash, "");
    assert!(b.transactions.is_empty());
}

#[test]
fn is_mined_counts_leading_zeros() {
    let mut b = Block::new(0, String::new());
    b.hash = "00a0".to_string();
    assert!(b.is_mined(0));
    assert!(b.is_mined(1));
    assert!(b.is_mined(2));
    assert!(!b.is_mined(3));
    assert!(!b.is_mined(5));
    b.hash = String::new();
    assert!(b.is_mined(0));
    assert!(!b.is_mined(1));
}

#[test]
fn mine_once_increments_and_rehashes() {
    let mut b = Block::new(1, "h".to_string());
    b.mine_once();
    assert_eq!(b.proof_of_work, 1);
    assert_eq!(b.hash, b.calculate_hash());
}

#[test]
fn mine_reaches_difficulty() {
    for d in 0..3usize {
        let mut b = Block::new(1, "h".to_string());
        b.add_transaction(reward("m", 1));
        b.mine(d);
        assert!(b.is_mined(d));
        assert!(b.hash.starts_with(&"0".repeat(d)));
    }
}

#[test]
fn mine_leaves_a_mined_block_alone() {
    let mut b = Block::new(1, "h".to_string());
    b.mine(0);
    assert_eq!(b.proof_of_work, 0);
    assert_eq!(b.hash, "");
}

#[test]
fn add_transaction_sorts_and_dedups() {
    let mut b = Block::new(1, String::new());
    b.add_transaction(Transaction::Shutdown);
    b.add_transaction(text("b"));
    b.add_transaction(reward("z", 1));
    b.add_transaction(text("a"));
    b.add_transaction(reward("a", 5));
    b.add_transaction(reward("a", 2));
    b.add_transaction(text("a"));
    assert_eq!(
        b.transactions,
        vec![
            reward("a", 2),
            reward("a", 5),
            reward("z", 1),
            text("a"),
            text("b"),
            Transaction::Shutdown
        ]
    );
}

#[test]
fn add_transaction_is_idempotent() {
    let mut once = Block::new(1, String::new());
    once.add_transaction(text("x"));
    once.add_transaction(reward("m", 1));
    let mut many = Block::new(1, String::new());
    many.add_transaction(text("x"));
    for _ in 0..4 {
        many.add_transaction(reward("m", 1));
    }
    assert_eq!(once.transactions, many.transactions);
}

#[test]
fn genesis_is_mined_at_difficulty_one() {
    let chain = Blockchain::new(1);
    assert_eq!(chain.chain.len(), 1);
    let g = chain.last_block();
    assert_eq!(g.index, 0);
    assert_eq!(g.previous_hash, "");
    assert!(g.transactions.is_empty());
    assert_eq!(g.proof_of_work, 14);
    assert_eq!(
        g.hash,
        "02d2443e0f5e2faf911dba3da6030b2bdcdb5e9fab927f84a8ae1402a95e4c71"
    );
    assert!(g.hash.starts_with('0'));
    assert_eq!(g.hash, g.calculate_hash());
    assert_eq!(chain.genesis_block.hash, g.hash);
    assert_eq!(chain.difficulty, 1);
}

#[test]
fn add_block_accepts_a_linked_successor() {
    let mut chain = Blockchain::new(1);
    let b = mined_successor(&chain.last_block(), "m", 1, 1);
    assert_eq!(chain.add_block(b.clone()), Ok(()));
    assert_eq!(chain.chain.len(), 2);
    assert_eq!(chain.last_block().hash, b.hash);
}

#[test]
fn add_block_rejects_wrong_index() {
    let mut chain = Blockchain::new(1);
    let tail = chain.last_block();
    let b = Block::new(2, tail.hash.clone());
    assert_eq!(chain.add_block(b), Err(ChainError::IndexMismatch));
    assert_eq!(chain.chain.len(), 1);
    assert_eq!(chain.last_block().hash, tail.hash);
}

#[test]
fn add_block_rejects_wrong_link() {
    let mut chain = Blockchain::new(1);
    let tail = chain.last_block();
    let b = Block::new(1, "not the hash".to_string());
    assert_eq!(chain.add_block(b), Err(ChainError::LinkageMismatch));
    assert_eq!(chain.chain.len(), 1);
    assert_eq!(chain.last_block().hash, tail.hash);
}

#[test]
fn add_block_on_empty_chain_fails() {
    let mut chain = Blockchain::new(0);
    chain.chain.clear();
    assert_eq!(
        chain.add_block(Block::new(1, String::new())),
        Err(ChainError::EmptyLedger)
    );
    assert!(chain.chain.is_empty());
}

#[test]
fn validation_needs_exactly_one_reward_of_one() {
    let chain = Blockchain::new(0);
    let mut b = Block::new(1, String::new());
    assert!(!chain.validate_new_block(&b));
    b.add_transaction(text("hi"));
    b.add_transaction(Transaction::Shutdown);
    assert!(!chain.validate_new_block(&b));
    b.add_transaction(reward("m", 1));
    assert!(chain.validate_new_block(&b));
    b.add_transaction(reward("n", 1));
    assert!(!chain.validate_new_block(&b));

    let mut big = Block::new(1, String::new());
    big.add_transaction(reward("m", 10));
    assert!(!chain.validate_new_block(&big));
    big.add_transaction(text("hi"));
    assert!(!chain.validate_new_block(&big));

    let mut plain = Block::new(1, String::new());
    plain.add_transaction(reward("m", 1));
    let verdict = chain.validate_new_block(&plain);
    plain.add_transaction(text("x"));
    plain.add_transaction(Transaction::Shutdown);
    assert_eq!(chain.validate_new_block(&plain), verdict);
}

#[test]
fn wallets_sum_rewards_per_recipient() {
    let mut chain = Blockchain::new(1);
    let b1 = mined_successor(&chain.last_block(), "alice", 1, 1);
    chain.add_block(b1).unwrap();
    let mut b2 = Block::new(2, chain.last_block().hash.clone());
    b2.add_transaction(reward("bob", 10));
    b2.add_transaction(reward("alice", 1));
    b2.add_transaction(text("memo"));
    chain.add_block(b2).unwrap();
    assert_eq!(
        chain.wallets(),
        vec![("alice".to_string(), 2), ("bob".to_string(), 10)]
    );
}

#[test]
fn wallets_of_genesis_only_are_empty() {
    let chain = Blockchain::new(1);
    assert!(chain.wallets().is_empty());
    assert!(chain.transactions().is_empty());
}

#[test]
fn transactions_group_texts_by_block() {
    let mut chain = Blockchain::new(1);
    let mut b1 = Block::new(1, chain.last_block().hash.clone());
    b1.add_transaction(text("b"));
    b1.add_transaction(text("a"));
    b1.add_transaction(reward("m", 1));
    chain.add_block(b1).unwrap();
    let mut b2 = Block::new(2, chain.last_block().hash.clone());
    b2.add_transaction(reward("m", 1));
    chain.add_block(b2).unwrap();
    let mut b3 = Block::new(3, chain.last_block().hash.clone());
    b3.add_transaction(text("Hello"));
    chain.add_block(b3).unwrap();
    let mut expected = HashMap::new();
    expected.insert(1u64, vec!["a".to_string(), "b".to_string()]);
    expected.insert(3u64, vec!["Hello".to_string()]);
    assert_eq!(chain.transactions(), expected);
}

#[test]
fn transactions_merge_blocks_of_one_index() {
    let mut chain = Blockchain::new(0);
    let mut b = Block::new(0, String::new());
    b.add_transaction(text("x"));
    chain.chain.push(b);
    let mut g = chain.chain[0].clone();
    g.add_transaction(text("y"));
    chain.chain[0] = g;
    let mut expected = HashMap::new();
    expected.insert(0u64, vec!["y".to_string(), "x".to_string()]);
    assert_eq!(chain.transactions(), expected);
}

#[test]
fn add_transaction_resorts_an_unsorted_list() {
    let mut b = Block::new(1, String::new());
    b.transactions = vec![text("b"), text("a"), text("b"), reward("m", 1)];
    b.add_transaction(Transaction::Shutdown);
    assert_eq!(
        b.transactions,
        vec![reward("m", 1), text("a"), text("b"), Transaction::Shutdown]
    );
    b.add_transaction(text("a"));
    assert_eq!(
        b.transactions,
        vec![reward("m", 1), text("a"), text("b"), Transaction::Shutdown]
    );
}

#[test]
fn genesis_with_difficulty_zero_is_left_blank() {
    let chain = Blockchain::new(0);
    let g = chain.last_block();
    assert_eq!(g.proof_of_work, 0);
    assert_eq!(g.hash, "");
}

#[test]
fn canonical_json_escapes_control_characters() {
    let b = Block::new(0, "a\u{1}\n\t\\\"é\u{1f}".to_string());
    assert_eq!(
        b.canonical_json(),
        "{\"index\":0,\"proof_of_work\":0,\"previous_hash\":\"a\\u0001\\n\\t\\\\\\\"é\\u001f\",\"hash\":\"\",\"transactions\":[]}"
    );
}
