use ledger_node::block::{Block, Transaction};
use ledger_node::LedgerError;
use ledger_node::chain::Blockchain;
use ledger_node::codec::{block_record, decode_block, encode_block, index_key};
use ledger_node::digest::{hex_encode, sha3_256};

fn sample_block() -> Block {
    let tx1 = Transaction {
        sender: "alice".to_string(),
        receiver: "bob".to_string(),
        amount: 42,
        signature: vec![1, 2, 3, 4],
    };
    let tx2 = Transaction {
        sender: "émile".to_string(),
        receiver: "ωmega".to_string(),
        amount: u64::MAX,
        signature: Vec::new(),
    };
    Block {
        index: 7,
        timestamp: 1_700_000_000_123,
        previous_hash: "prevhash".to_string(),
        hash: "deadbeef".to_string(),
        transactions: vec![tx1, tx2],
    }
}

fn assert_blocks_equal(a: &Block, b: &Block) {
    assert_eq!(a.index, b.index);
    assert_eq!(a.timestamp, b.timestamp);
    assert_eq!(a.previous_hash, b.previous_hash);
    assert_eq!(a.hash, b.hash);
    assert_eq!(a.transactions.len(), b.transactions.len());
    for (x, y) in a.transactions.iter().zip(b.transactions.iter()) {
        assert_eq!(x.sender, y.sender);
        assert_eq!(x.receiver, y.receiver);
        assert_eq!(x.amount, y.amount);
        assert_eq!(x.signature, y.signature);
    }
}

#[test]
fn block_codec_round_trip() {
    let block = sample_block();
    let bytes = encode_block(&block);
    let decoded = decode_block(&bytes).unwrap();
    assert_blocks_equal(&block, &decoded);
}

#[test]
fn decode_rejects_damaged_bytes() {
    let block = sample_block();
    let bytes = encode_block(&block);

    // Truncated input.
    assert!(decode_block(&bytes[..bytes.len() - 1]).is_none());
    // Trailing garbage.
    let mut longer = bytes.clone();
    longer.push(0);
    assert!(decode_block(&longer).is_none());
    // Empty input.
    assert!(decode_block(&[]).is_none());
}

#[test]
fn store_keys_order_numerically() {
    // The decimal-string keys this encoding replaces would order "10" before
    // "2"; fixed-width big-endian keys order bytewise as the indices order
    // numerically.
    assert!(index_key(2) < index_key(10));
    let mut keys: Vec<Vec<u8>> = (0..20).map(index_key).collect();
    let sorted = keys.clone();
    keys.sort();
    assert_eq!(keys, sorted);
}

#[test]
fn chain_reload_preserves_order() {
    let mut blockchain = Blockchain::new();
    blockchain.load_chain(&Vec::new()).unwrap();
    for k in 0..12u64 {
        let tx = Transaction {
            sender: format!("s{}", k),
            receiver: format!("r{}", k),
            amount: k,
            signature: vec![k as u8],
        };
        blockchain.append_block(vec![tx]);
    }
    assert_eq!(blockchain.chain.len(), 13);

    // Persist every block, then replay the records as a bytewise-ordered
    // store would iterate them: sorted by key, regardless of insertion
    // order.
    let mut records: Vec<(Vec<u8>, Vec<u8>)> =
        blockchain.chain.iter().map(block_record).collect();
    records.reverse();
    records.sort();

    let mut reloaded = Blockchain::new();
    reloaded.load_chain(&records).unwrap();
    assert_eq!(reloaded.chain.len(), blockchain.chain.len());
    for (a, b) in blockchain.chain.iter().zip(reloaded.chain.iter()) {
        assert_blocks_equal(a, b);
    }
}

#[test]
fn corrupt_record_aborts_load() {
    let mut blockchain = Blockchain::new();
    blockchain.load_chain(&Vec::new()).unwrap();
    blockchain.append_block(Vec::new());

    let mut records: Vec<(Vec<u8>, Vec<u8>)> =
        blockchain.chain.iter().map(block_record).collect();
    records[1].1.truncate(4);

    let mut reloaded = Blockchain::new();
    assert_eq!(
        reloaded.load_chain(&records).unwrap_err(),
        LedgerError::ChainCorrupt
    );
    assert!(reloaded.chain.is_empty());
}

#[test]
fn digest_matches_known_vectors() {
    // SHA3-256 of the empty string.
    assert_eq!(
        hex_encode(&sha3_256(b"")),
        "a7ffc6f8bf1ed76651c14756a061d662f580ff4de43b49fa82d80a4b80f8434a"
    );
    assert_eq!(hex_encode(&[0x0f, 0xa0]), "0fa0");
    assert_eq!(hex_encode(&[]), "");
}
