use ledger_node::block::{Block, Transaction};
use ledger_node::chain::Blockchain;

#[test]
fn test_staking_logic() {
    let mut blockchain = Blockchain::new();

    blockchain.stake("wallet1".to_string(), 100);
    assert_eq!(blockchain.staking_state.total_staked, 100);

    let rewards = blockchain.get_rewards(&"wallet1".to_string());
    assert!(rewards > 0);

    let success = blockchain.unstake("wallet1".to_string(), 50);
    assert!(success);
    assert_eq!(blockchain.staking_state.total_staked, 50);
}

#[test]
fn stake_unstake_reward_scenario() {
    let mut blockchain = Blockchain::new();

    blockchain.stake("wallet1".to_string(), 100);
    assert_eq!(blockchain.staking_state.total_staked, 100);
    assert!(blockchain.get_rewards(&"wallet1".to_string()) > 0);

    assert!(blockchain.unstake("wallet1".to_string(), 50));
    assert_eq!(blockchain.staking_state.total_staked, 50);

    assert!(!blockchain.unstake("wallet1".to_string(), 100));
    assert_eq!(blockchain.staking_state.total_staked, 50);
}

#[test]
fn reward_is_five_percent_truncated() {
    let mut blockchain = Blockchain::new();
    blockchain.stake("w".to_string(), 100);
    assert_eq!(blockchain.get_rewards(&"w".to_string()), 5);
    blockchain.stake("small".to_string(), 19);
    assert_eq!(blockchain.get_rewards(&"small".to_string()), 0);
    assert_eq!(blockchain.get_rewards(&"absent".to_string()), 0);
}

#[test]
fn unstake_fails_without_balance() {
    let mut blockchain = Blockchain::new();
    assert!(!blockchain.unstake("nobody".to_string(), 1));
    assert_eq!(blockchain.staking_state.total_staked, 0);

    blockchain.stake("w".to_string(), 10);
    assert!(!blockchain.unstake("w".to_string(), 11));
    assert_eq!(blockchain.staking_state.total_staked, 10);
    assert_eq!(blockchain.staking_state.staked_balances.len(), 1);
    assert_eq!(blockchain.staking_state.staked_balances[0].0, "w");
    assert_eq!(blockchain.staking_state.staked_balances[0].1, 10);
}

#[test]
fn total_staked_tracks_sum_of_balances() {
    let mut blockchain = Blockchain::new();
    let mut expected: u64 = 0;
    blockchain.stake("a".to_string(), 7);
    expected += 7;
    blockchain.stake("b".to_string(), 11);
    expected += 11;
    blockchain.stake("a".to_string(), 3);
    expected += 3;
    assert!(blockchain.unstake("b".to_string(), 4));
    expected -= 4;
    assert_eq!(blockchain.staking_state.total_staked, expected);
    let sum: u64 = blockchain
        .staking_state
        .staked_balances
        .iter()
        .map(|e| e.1)
        .sum();
    assert_eq!(sum, expected);
}

#[test]
fn validators_are_exactly_positive_balances() {
    let mut blockchain = Blockchain::new();
    blockchain.stake("a".to_string(), 5);
    blockchain.stake("b".to_string(), 1);
    let vs = blockchain.staking_state.validators();
    assert_eq!(vs.len(), 2);
    assert!(vs.contains(&"a".to_string()));
    assert!(vs.contains(&"b".to_string()));

    assert!(blockchain.unstake("a".to_string(), 5));
    let vs = blockchain.staking_state.validators();
    assert_eq!(vs, vec!["b".to_string()]);

    assert!(blockchain.unstake("b".to_string(), 1));
    let vs = blockchain.staking_state.validators();
    assert!(vs.is_empty());
}

#[test]
fn append_block_links_to_tail() {
    let mut blockchain = Blockchain::new();
    blockchain.load_chain(&Vec::new()).unwrap();
    assert_eq!(blockchain.chain.len(), 1);
    assert_eq!(blockchain.chain[0].index, 0);
    assert_eq!(blockchain.chain[0].hash, "genesis");
    assert_eq!(blockchain.chain[0].previous_hash, "0");

    let b1 = blockchain.append_block(Vec::new());
    assert_eq!(b1.index, 1);
    assert_eq!(b1.previous_hash, "genesis");
    let b2 = blockchain.append_block(Vec::new());
    assert_eq!(b2.index, 2);
    assert_eq!(b2.previous_hash, b1.hash);

    for i in 1..blockchain.chain.len() {
        assert_eq!(
            blockchain.chain[i].previous_hash,
            blockchain.chain[i - 1].hash
        );
    }
}

#[test]
fn validate_block_checks_tail_linkage() {
    let mut blockchain = Blockchain::new();
    blockchain.load_chain(&Vec::new()).unwrap();

    let linked = Block::new(1, blockchain.latest_block().hash.clone(), Vec::new());
    assert!(blockchain.validate_block(&linked));

    let unlinked = Block::new(1, "0".to_string(), Vec::new());
    assert!(!blockchain.validate_block(&unlinked));
}

#[test]
fn block_hash_is_hex_digest() {
    let tx = Transaction {
        sender: "alice".to_string(),
        receiver: "bob".to_string(),
        amount: 42,
        signature: vec![1, 2, 3],
    };
    let b = Block::new(1, "prev".to_string(), vec![tx]);
    assert_eq!(b.hash.len(), 64);
    assert!(b.hash.chars().all(|c| c.is_ascii_hexdigit() && !c.is_ascii_uppercase()));
}
