use moon::codec::{decode_chain, decode_tx, encode_chain, encode_tx};
use moon::consensus::{mine_next, Config, MineOutcome};
use moon::model::{Block, Tx, TxIn, TxOut};

type OutT = (String, u64);
type InT = (String, u64, Vec<u8>);
type TxT = (Vec<InT>, Vec<OutT>);
type BlockT = (u64, u64, String, String, u64, u32, Vec<TxT>, OutT);

fn sample_tx() -> Tx {
    Tx {
        inputs: vec![TxIn { prev_tx_hash: "ab".to_string(), prev_out_index: 3, signature: vec![1, 2, 3] }],
        outputs: vec![
            TxOut { to: "you".to_string(), amount: 50 },
            TxOut { to: "mé".to_string(), amount: 70 },
        ],
    }
}

fn sample_block(index: u64) -> Block {
    Block {
        index,
        timestamp: 1764614400 + index,
        prev_hash: "00ff".to_string(),
        hash: "0000abcd".to_string(),
        nonce: 123456,
        difficulty: 4,
        txs: vec![sample_tx()],
        coinbase: TxOut { to: "miner".to_string(), amount: 50 },
    }
}

fn tx_tuple(t: &Tx) -> TxT {
    (
        t.inputs.iter().map(|i| (i.prev_tx_hash.clone(), i.prev_out_index, i.signature.clone())).collect(),
        t.outputs.iter().map(|o| (o.to.clone(), o.amount)).collect(),
    )
}

fn block_tuple(b: &Block) -> BlockT {
    (
        b.index,
        b.timestamp,
        b.prev_hash.clone(),
        b.hash.clone(),
        b.nonce,
        b.difficulty,
        b.txs.iter().map(tx_tuple).collect(),
        (b.coinbase.to.clone(), b.coinbase.amount),
    )
}

#[test]
fn tx_layout_matches_bincode() {
    let t = sample_tx();
    assert_eq!(encode_tx(&t), bincode::serialize(&tx_tuple(&t)).unwrap());
}

#[test]
fn chain_layout_matches_bincode() {
    let chain = vec![sample_block(0), sample_block(1)];
    let tuples: Vec<BlockT> = chain.iter().map(block_tuple).collect();
    assert_eq!(encode_chain(&chain), bincode::serialize(&tuples).unwrap());
}

#[test]
fn empty_chain_is_a_zero_count() {
    assert_eq!(encode_chain(&[]), vec![0u8; 8]);
    assert_eq!(decode_chain(&[0u8; 8]).unwrap().len(), 0);
}

#[test]
fn save_after_load_reproduces_the_bytes() {
    let chain = vec![sample_block(0), sample_block(1)];
    let bytes = encode_chain(&chain);
    let loaded = decode_chain(&bytes).unwrap();
    assert_eq!(loaded.len(), 2);
    assert_eq!(loaded[1].timestamp, chain[1].timestamp);
    assert_eq!(loaded[0].txs[0].outputs[1].to, "mé");
    assert_eq!(encode_chain(&loaded), bytes);
}

#[test]
fn corrupt_bytes_load_as_nothing() {
    let bytes = encode_chain(&[sample_block(0)]);
    assert!(decode_chain(&bytes[..bytes.len() - 1]).is_none());
    let mut longer = bytes.clone();
    longer.push(0);
    assert!(decode_chain(&longer).is_none());
    assert!(decode_chain(&[]).is_none());
    assert!(decode_chain(&[1, 0, 0, 0, 0, 0, 0, 0]).is_none());
    let mut bad_utf8 = encode_chain(&[sample_block(0)]);
    // The first byte of the previous hash's text.
    bad_utf8[8 + 8 + 8 + 8] = 0xff;
    assert!(decode_chain(&bad_utf8).is_none());
}

#[test]
fn tx_round_trip() {
    let t = sample_tx();
    let bytes = encode_tx(&t);
    let back = decode_tx(&bytes).unwrap();
    assert_eq!(encode_tx(&back), bytes);
    assert_eq!(back.inputs[0].signature, vec![1, 2, 3]);
    assert!(decode_tx(&bytes[..5]).is_none());
}

#[test]
fn snapshots_grow_with_the_chain() {
    let mut cfg = Config::standard();
    cfg.initial_difficulty = 1;
    let mut chain = Vec::new();
    if let MineOutcome::Mined(b) = mine_next(&chain, &cfg, 0, vec![]) {
        chain.push(b);
    }
    let first = encode_chain(&chain);
    let second = encode_chain(&chain);
    assert_eq!(first, second);
    if let MineOutcome::Mined(b) = mine_next(&chain, &cfg, 10, vec![]) {
        chain.push(b);
    }
    let third = encode_chain(&chain);
    assert!(third.len() > first.len());
}
