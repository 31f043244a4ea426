use blockchain::hasher::hash_block;
use blockchain::ledger::{Block, Transaction};
use blockchain::{StupidBlock, StupidLedger, StupidTransaction, Timestamp};

fn create_transaction() -> StupidTransaction {
    let sender = String::from("0x0001");
    let recipient = String::from("0x0002");
    let amount = 10000;
    StupidTransaction::new(sender, recipient, amount)
}

/// Mines `n` blocks onto an empty ledger, each with the proof that `find_proof` gives.
fn mined_chain(n: usize, tag: &str) -> Vec<StupidBlock> {
    let mut ledger = StupidLedger::new(Vec::new());
    for i in 0..n {
        let last_proof = ledger.last_block().map(|b| b.proof).unwrap_or(0);
        let proof = ledger.find_proof(last_proof).expect("an admissible proof exists");
        ledger
            .add_transaction(StupidTransaction::new(String::from("0"), String::from(tag), i + 1))
            .unwrap();
        ledger.new_block(Timestamp::new(1_000 + i as u64), proof).unwrap();
    }
    ledger.chain
}

/// Blocks that do not link to one another.
fn unlinked_chain(n: usize) -> Vec<StupidBlock> {
    (0..n)
        .map(|i| StupidBlock::new(i + 1, Timestamp::new(5), Vec::new(), 0, vec![1; 32]))
        .collect()
}

#[test]
fn add_transaction() {
    let tx = create_transaction();
    let mut stupid_chain = StupidLedger::new(Vec::new());
    assert_eq!(stupid_chain.add_transaction(tx.clone()).unwrap(), 1);
}

#[test]
fn new_block() {
    let tx = create_transaction();
    let mut stupid_chain = StupidLedger::new(Vec::new());
    stupid_chain.add_transaction(tx.clone()).expect("bad transaction");

    let timestamp = Timestamp::new(12_345_000_000_000);
    assert_eq!(stupid_chain.new_block(timestamp.clone(), 1000).unwrap()[0],
        StupidBlock::new(1, timestamp, vec![tx.clone()], 1000, vec![0; 32]));
}

#[test]
fn test_add_transaction() {
    let sender = String::from("0x0001");
    let recipient = String::from("0x0002");
    let amount = 10000;
    let tx = StupidTransaction::new(sender, recipient, amount);
    let mut stupid_chain = StupidLedger::new(Vec::new());
    assert_eq!(stupid_chain.add_transaction(tx.clone()).unwrap(), 1);
}

#[test]
fn test_new_block() {
    let sender = String::from("0x0001");
    let recipient = String::from("0x0002");
    let amount = 10000;
    let tx = Transaction::is_valid(&StupidTransaction::new(sender.clone(), recipient.clone(), amount));
    assert!(tx);
    let tx = StupidTransaction::new(sender, recipient, amount);
    let mut stupid_chain = StupidLedger::new(Vec::new());
    stupid_chain.add_transaction(tx.clone()).unwrap();

    assert_eq!(stupid_chain.new_block(Timestamp::new(12345), 1000).unwrap()[0],
        StupidBlock::new(1, Timestamp::new(12345), vec![tx.clone()], 1000, vec![0; 32]));
}

#[test]
fn staging_returns_next_block_index() {
    let mut ledger = StupidLedger::new(unlinked_chain(3));
    assert_eq!(ledger.add_transaction(create_transaction()).unwrap(), 4);
    assert_eq!(ledger.add_transaction(create_transaction()).unwrap(), 4);
}

#[test]
fn genesis_block_links_to_zero_digest() {
    let mut ledger = StupidLedger::new(Vec::new());
    let chain = ledger.new_block(Timestamp::new(1), 7).unwrap();
    assert_eq!(chain.len(), 1);
    assert_eq!(chain[0].previous_hash, vec![0u8; 32]);
    assert_eq!(chain[0].index, 1);
}

#[test]
fn second_block_links_to_first_digest() {
    let mut ledger = StupidLedger::new(Vec::new());
    ledger.new_block(Timestamp::new(1), 7).unwrap();
    let first_digest = StupidLedger::hash(&ledger.chain[0]);
    assert_eq!(first_digest.len(), 32);
    assert_ne!(first_digest, vec![0u8; 32]);
    let chain = ledger.new_block(Timestamp::new(2), 8).unwrap();
    assert_eq!(chain[1].previous_hash, first_digest);
    assert_eq!(chain[1].index, 2);
    assert_eq!(ledger.last_hash(), StupidLedger::hash(&ledger.chain[1]));
}

#[test]
fn staged_transactions_are_mined_in_order() {
    let a = StupidTransaction::new(String::from("alice"), String::from("bob"), 3);
    let b = StupidTransaction::new(String::from("bob"), String::from("carol"), 4);
    let mut ledger = StupidLedger::new(Vec::new());
    ledger.add_transaction(a.clone()).unwrap();
    ledger.add_transaction(b.clone()).unwrap();
    ledger.new_block(Timestamp::new(9), 0).unwrap();
    assert_eq!(ledger.last_block().unwrap().transactions, vec![a, b]);
    assert!(ledger.block_txs.is_empty());
    ledger.new_block(Timestamp::new(10), 0).unwrap();
    assert!(ledger.last_block().unwrap().transactions.is_empty());
}

#[test]
fn last_block_of_empty_ledger_is_none() {
    let ledger = StupidLedger::new(Vec::new());
    assert!(ledger.last_block().is_none());
    assert_eq!(ledger.last_hash(), vec![0u8; 32]);
}

#[test]
fn equal_blocks_hash_equal_and_any_field_changes_the_digest() {
    let tx = create_transaction();
    let block = StupidBlock::new(1, Timestamp::new(5), vec![tx.clone()], 9, vec![0; 32]);
    let same = StupidBlock::new(1, Timestamp::new(5), vec![tx.clone()], 9, vec![0; 32]);
    let h = hash_block(&block);
    assert_eq!(h, hash_block(&same));
    assert_eq!(h.len(), 32);
    let variants = vec![
        StupidBlock::new(2, Timestamp::new(5), vec![tx.clone()], 9, vec![0; 32]),
        StupidBlock::new(1, Timestamp::new(6), vec![tx.clone()], 9, vec![0; 32]),
        StupidBlock::new(1, Timestamp::new(5), vec![], 9, vec![0; 32]),
        StupidBlock::new(1, Timestamp::new(5), vec![tx.clone(), tx.clone()], 9, vec![0; 32]),
        StupidBlock::new(1, Timestamp::new(5), vec![StupidTransaction::new(String::from("0x0001"), String::from("0x0002"), 10001)], 9, vec![0; 32]),
        StupidBlock::new(1, Timestamp::new(5), vec![StupidTransaction::new(String::from("0x0002"), String::from("0x0001"), 10000)], 9, vec![0; 32]),
        StupidBlock::new(1, Timestamp::new(5), vec![tx.clone()], 10, vec![0; 32]),
        StupidBlock::new(1, Timestamp::new(5), vec![tx.clone()], 9, vec![0; 31]),
        StupidBlock::new(1, Timestamp::new(5), vec![tx.clone()], 9, vec![1; 32]),
    ];
    for v in &variants {
        assert_ne!(hash_block(v), h);
    }
    assert!(Block::is_valid(&block));
}

#[test]
fn proof_validity_matches_digest_prefix() {
    let last_hash = vec![0u8; 32];
    let p = StupidLedger::search_proof(&last_hash, 0).unwrap();
    assert!(StupidLedger::is_valid_proof(&last_hash, 0, p));
    for c in 0..p {
        assert!(!StupidLedger::is_valid_proof(&last_hash, 0, c));
    }
}

#[test]
fn find_proof_returns_least_admissible_candidate() {
    let mut ledger = StupidLedger::new(Vec::new());
    ledger.new_block(Timestamp::new(3), 17).unwrap();
    let p = ledger.find_proof(17).unwrap();
    let h = ledger.last_hash();
    assert!(StupidLedger::is_valid_proof(&h, 17, p));
    for c in 0..p {
        assert!(!StupidLedger::is_valid_proof(&h, 17, c));
    }
}

#[test]
fn mined_chain_is_valid_and_altered_link_is_not() {
    let chain = mined_chain(3, "miner");
    assert!(StupidLedger::is_valid_chain(&chain));
    let ledger = StupidLedger::new(chain.clone());
    assert!(ledger.is_valid());
    for i in 1..chain.len() {
        let mut altered = chain.clone();
        altered[i].previous_hash[0] ^= 0xff;
        assert!(!StupidLedger::is_valid_chain(&altered));
    }
    let mut wrong_proof = chain.clone();
    wrong_proof[2].proof += 1;
    let h = StupidLedger::hash(&wrong_proof[1]);
    assert_eq!(
        StupidLedger::is_valid_chain(&wrong_proof),
        StupidLedger::is_valid_proof(&h, wrong_proof[1].proof, wrong_proof[2].proof)
    );
}

#[test]
fn short_chains_are_valid() {
    assert!(StupidLedger::is_valid_chain(&Vec::new()));
    assert!(StupidLedger::is_valid_chain(&unlinked_chain(1)));
    assert!(!StupidLedger::is_valid_chain(&unlinked_chain(2)));
}

#[test]
fn resolve_adopts_longest_valid_peer_chain() {
    let mut ledger = StupidLedger::new(unlinked_chain(2));
    let x = mined_chain(5, "x");
    let y = unlinked_chain(10);
    assert!(ledger.resolve_conflicts(vec![Some(x.clone()), Some(y)]));
    assert_eq!(ledger.chain, x);
    assert_eq!(ledger.chain.len(), 5);
}

#[test]
fn resolve_skips_unreachable_peer_and_keeps_longer_local_chain() {
    let local = unlinked_chain(3);
    let mut ledger = StupidLedger::new(local.clone());
    let y = mined_chain(2, "y");
    assert!(!ledger.resolve_conflicts(vec![None, Some(y)]));
    assert_eq!(ledger.chain, local);
}

#[test]
fn resolve_keeps_local_chain_on_equal_length() {
    let local = mined_chain(2, "local");
    let mut ledger = StupidLedger::new(local.clone());
    let peer = mined_chain(2, "peer");
    assert!(StupidLedger::is_valid_chain(&peer));
    assert!(!ledger.resolve_conflicts(vec![Some(peer)]));
    assert_eq!(ledger.chain, local);
}

#[test]
fn resolve_prefers_first_of_equally_long_chains() {
    let mut ledger = StupidLedger::new(Vec::new());
    ledger.add_transaction(create_transaction()).unwrap();
    let first = mined_chain(2, "first");
    let second = mined_chain(2, "second");
    assert!(ledger.resolve_conflicts(vec![Some(first.clone()), None, Some(second)]));
    assert_eq!(ledger.chain, first);
    assert_eq!(ledger.block_txs, vec![create_transaction()]);
}

#[test]
fn resolve_with_no_peers_changes_nothing() {
    let mut ledger = StupidLedger::new(unlinked_chain(2));
    assert!(!ledger.resolve_conflicts(Vec::new()));
    assert_eq!(ledger.chain, unlinked_chain(2));
}

#[test]
fn register_peer_keeps_duplicates() {
    let mut ledger = StupidLedger::new(Vec::new());
    ledger.register_peer(String::from("http://127.0.0.1:8001"));
    ledger.register_peer(String::from("http://127.0.0.1:8001"));
    assert_eq!(
        ledger.peers,
        vec![String::from("http://127.0.0.1:8001"), String::from("http://127.0.0.1:8001")]
    );
}
