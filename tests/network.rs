use richoin::{Block, Blockchain, Message, Node, NodeType, Queue, Transaction};

fn test_label(m: &Message) -> String {
    match m {
        Message::Test(s) => s.clone(),
        _ => panic!("unexpected message"),
    }
}

fn mine_until_published(node: &mut Node, queue: &mut Queue) -> Block {
    let before = queue.len();
    for _ in 0..100_000 {
        assert!(node.step(queue));
        if queue.len() > before {
            match queue.get(queue.len() - 1) {
                Some(Message::BlockMined(b)) => return b,
                _ => panic!("expected a mined block"),
            }
        }
    }
    panic!("no block mined");
}

#[test]
fn test_queue() {
    let mut queue = Queue::new();
    let writer1 = queue.create_client();
    let writer2 = queue.create_client();
    let mut reader1 = queue.create_client();
    let mut reader2 = queue.create_client();
    let mut received1 = vec![];
    let mut received2 = vec![];
    let letters = vec!['a', 'b', 'c', 'd'];
    let mut round = 0;
    while received1.len() != 9 || received2.len() != 9 {
        if round < 5 {
            writer1.send(&mut queue, Message::Test(round.to_string()));
        }
        if round < letters.len() {
            writer2.send(&mut queue, Message::Test(letters[round].to_string()));
        }
        if let Some(m) = reader1.receive(&queue) {
            received1.push(test_label(&m));
        }
        if round % 2 == 0 {
            if let Some(m) = reader2.receive(&queue) {
                received2.push(test_label(&m));
            }
        }
        round += 1;
        assert!(round < 100);
    }
    assert_eq!(received1, vec!["0", "a", "1", "b", "2", "c", "3", "d", "4"]);
    assert_eq!(received1, received2);
    assert!(reader1.receive(&queue).is_none());
    assert_eq!(queue.len(), 9);
}

#[test]
fn cursor_reads_in_order_and_waits_for_nothing() {
    let mut queue = Queue::new();
    let writer = queue.create_client();
    let mut early = queue.create_client();
    assert!(early.receive(&queue).is_none());
    assert_eq!(early.offset(), 0);
    writer.send(&mut queue, Message::Test("1".to_string()));
    writer.send(&mut queue, Message::Test("2".to_string()));
    let mut late = queue.create_client();
    assert_eq!(late.offset(), 0);
    writer.send(&mut queue, Message::Test("3".to_string()));
    let mut seen_early = vec![];
    let mut seen_late = vec![];
    for _ in 0..5 {
        if let Some(m) = early.receive(&queue) {
            seen_early.push(test_label(&m));
        }
        if let Some(m) = late.receive(&queue) {
            seen_late.push(test_label(&m));
        }
    }
    assert_eq!(seen_early, vec!["1", "2", "3"]);
    assert_eq!(seen_late, seen_early);
    assert_eq!(early.offset(), 3);
    assert!(queue.get(3).is_none());
}

#[test]
fn miner_publishes_block_with_pending_text() {
    let mut queue = Queue::new();
    let feeder = queue.create_client();
    let mut miner = Node::new(queue.create_client(), 1, NodeType::Miner, "m1".to_string());
    let genesis = miner.blockchain().last_block();
    assert!(genesis.hash.starts_with('0'));
    feeder.send(
        &mut queue,
        Message::AddTransaction(Transaction::Text("Hello".to_string())),
    );
    let block = mine_until_published(&mut miner, &mut queue);
    assert_eq!(block.index, 1);
    assert_eq!(
        block.transactions,
        vec![
            Transaction::MinerReward("m1".to_string(), 1),
            Transaction::Text("Hello".to_string())
        ]
    );
    assert!(block.is_mined(1));
    assert_eq!(block.hash, block.calculate_hash());
    assert_eq!(block.previous_hash, genesis.calculate_hash());
    assert_eq!(miner.blockchain().chain.len(), 2);
    assert!(miner.next_block().is_none());
    assert_eq!(
        miner.blockchain().wallets(),
        vec![("m1".to_string(), 1)]
    );
}

#[test]
fn passive_node_does_not_mine_or_collect() {
    let mut queue = Queue::new();
    let feeder = queue.create_client();
    let mut node = Node::new(queue.create_client(), 1, NodeType::Passive, "p".to_string());
    feeder.send(
        &mut queue,
        Message::AddTransaction(Transaction::Text("Hello".to_string())),
    );
    for _ in 0..50 {
        assert!(node.step(&mut queue));
    }
    assert_eq!(queue.len(), 1);
    assert!(node.next_block().is_none());
    assert_eq!(node.blockchain().chain.len(), 1);
}

#[test]
fn racing_miners_only_one_block_is_accepted() {
    let mut q1 = Queue::new();
    let mut q2 = Queue::new();
    let mut m1 = Node::new(q1.create_client(), 1, NodeType::Miner, "m1".to_string());
    let mut m2 = Node::new(q2.create_client(), 1, NodeType::Miner, "m2".to_string());
    let b1 = mine_until_published(&mut m1, &mut q1);
    let b2 = mine_until_published(&mut m2, &mut q2);
    assert_eq!(b1.index, 1);
    assert_eq!(b2.index, 1);
    assert_eq!(b1.previous_hash, b2.previous_hash);

    let mut log = Queue::new();
    let writer = log.create_client();
    let mut observer = Node::new(log.create_client(), 1, NodeType::Passive, "o".to_string());
    writer.send(&mut log, Message::BlockMined(b1.clone()));
    writer.send(&mut log, Message::BlockMined(b2.clone()));
    assert!(observer.step(&mut log));
    assert!(observer.step(&mut log));
    let chain = observer.blockchain();
    assert_eq!(chain.chain.len(), 2);
    assert_eq!(chain.last_block().hash, b1.hash);

    let mut direct = Blockchain::new(1);
    assert!(direct.add_block(b2.clone()).is_ok());
    assert!(direct.add_block(b1).is_err());
    assert_eq!(direct.chain.len(), 2);
    assert_eq!(direct.last_block().hash, b2.hash);
}

#[test]
fn big_reward_block_is_refused_by_passive_observer() {
    let mut queue = Queue::new();
    let mut evil = Node::new(queue.create_client(), 1, NodeType::BigRewardMiner, "evil".to_string());
    let mut observer = Node::new(queue.create_client(), 1, NodeType::Passive, "o".to_string());
    let block = mine_until_published(&mut evil, &mut queue);
    assert_eq!(
        block.transactions,
        vec![Transaction::MinerReward("evil".to_string(), 10)]
    );
    assert!(!observer.blockchain().validate_new_block(&block));
    assert_eq!(evil.blockchain().chain.len(), 2);
    assert_eq!(
        evil.blockchain().wallets(),
        vec![("evil".to_string(), 10)]
    );
    assert!(evil.step(&mut queue));
    assert_eq!(evil.blockchain().chain.len(), 2);
    assert!(observer.step(&mut queue));
    assert_eq!(observer.blockchain().chain.len(), 1);
}

#[test]
fn big_reward_miner_accepts_refused_blocks() {
    let mut queue = Queue::new();
    let writer = queue.create_client();
    let mut evil = Node::new(queue.create_client(), 1, NodeType::BigRewardMiner, "evil".to_string());
    let genesis = evil.blockchain().last_block();
    let mut b = Block::new(1, genesis.hash.clone());
    b.add_transaction(Transaction::MinerReward("x".to_string(), 3));
    writer.send(&mut queue, Message::BlockMined(b.clone()));
    assert!(evil.step(&mut queue));
    assert_eq!(evil.blockchain().chain.len(), 2);
    assert_eq!(evil.blockchain().last_block().transactions, b.transactions);
}

#[test]
fn orphaned_candidate_is_dropped() {
    let mut queue = Queue::new();
    let writer = queue.create_client();
    let mut miner = Node::new(queue.create_client(), 3, NodeType::Miner, "m".to_string());
    assert!(miner.step(&mut queue));
    let candidate = miner.next_block().clone().expect("a candidate");
    let genesis = miner.blockchain().last_block();
    let mut rival = Block::new(1, genesis.hash.clone());
    rival.add_transaction(Transaction::MinerReward("r".to_string(), 1));
    writer.send(&mut queue, Message::BlockMined(rival.clone()));
    assert!(miner.step(&mut queue));
    assert_eq!(miner.blockchain().chain.len(), 2);
    if let Some(next) = miner.next_block() {
        assert_eq!(next.index, 2);
        assert_ne!(next.previous_hash, candidate.previous_hash);
        assert_eq!(next.previous_hash, rival.calculate_hash());
    }
}

#[test]
fn merging_a_transaction_restarts_work() {
    let mut queue = Queue::new();
    let writer = queue.create_client();
    let mut miner = Node::new(queue.create_client(), 4, NodeType::Miner, "m".to_string());
    for _ in 0..3 {
        assert!(miner.step(&mut queue));
    }
    let work = miner.next_block().as_ref().map(|b| b.proof_of_work).unwrap_or(0);
    assert!(work >= 1);
    writer.send(
        &mut queue,
        Message::AddTransaction(Transaction::Text("t".to_string())),
    );
    assert!(miner.step(&mut queue));
    if let Some(b) = miner.next_block() {
        assert_eq!(b.proof_of_work, 1);
        assert!(b.transactions.contains(&Transaction::Text("t".to_string())));
    }
}

#[test]
fn shutdown_stops_the_node() {
    let mut queue = Queue::new();
    let writer = queue.create_client();
    let mut node = Node::new(queue.create_client(), 1, NodeType::Miner, "m".to_string());
    writer.send(&mut queue, Message::Shutdown);
    assert!(!node.step(&mut queue));
    assert!(node.next_block().is_none());
    assert_eq!(node.name(), "m");
}

#[test]
fn shutdown_reaction_follows_index_and_marker() {
    let mut b = Block::new(19, String::new());
    assert_eq!(richoin::shutdown_reaction(&b), (false, false));
    b.index = 20;
    assert_eq!(richoin::shutdown_reaction(&b), (true, false));
    b.add_transaction(Transaction::Shutdown);
    assert_eq!(richoin::shutdown_reaction(&b), (true, true));
    b.index = 2;
    assert_eq!(richoin::shutdown_reaction(&b), (false, true));
}
