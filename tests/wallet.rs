use moon::codec::encode_tx;
use moon::ledger::{get_balance, get_utxos};
use moon::model::{Block, Tx, TxOut};
use moon::wallet::{build_spend, plan_spend, SpendError};

fn coinbase_block(index: u64, hash: &str, to: &str, amount: u64) -> Block {
    Block {
        index,
        timestamp: 0,
        prev_hash: String::new(),
        hash: hash.to_string(),
        nonce: 0,
        difficulty: 0,
        txs: vec![],
        coinbase: TxOut { to: to.to_string(), amount },
    }
}

fn key() -> [u8; 32] {
    [7u8; 32]
}

fn sender_chain() -> Vec<Block> {
    vec![coinbase_block(0, "a", "me", 20), coinbase_block(1, "b", "me", 100)]
}

#[test]
fn spend_of_fifty_from_one_hundred_twenty() {
    let chain = sender_chain();
    assert_eq!(get_balance(&chain, "me"), 120);
    let tx: Tx = build_spend(&chain, "me", &key(), "you", 50).unwrap();
    assert_eq!(tx.inputs.len(), 2);
    assert_eq!(tx.inputs[0].prev_tx_hash, "a");
    assert_eq!(tx.inputs[1].prev_tx_hash, "b");
    assert_eq!(tx.outputs.len(), 2);
    assert_eq!(tx.outputs[0].to, "you");
    assert_eq!(tx.outputs[0].amount, 50);
    assert_eq!(tx.outputs[1].to, "me");
    assert_eq!(tx.outputs[1].amount, 70);
    for input in &tx.inputs {
        assert_eq!(input.signature.len(), 64);
        assert!(input.signature.iter().any(|b| *b != 0));
    }
    // The signature is over the digest of the transaction with empty signatures.
    let mut unsigned = tx.clone();
    for input in unsigned.inputs.iter_mut() {
        input.signature.clear();
    }
    let digest = sha2::Digest::finalize(sha2::Digest::chain_update(
        <sha2::Sha256 as sha2::Digest>::new(),
        encode_tx(&unsigned),
    ));
    let secp = secp256k1::Secp256k1::new();
    let sk = secp256k1::SecretKey::from_slice(&key()).unwrap();
    let pk = secp256k1::PublicKey::from_secret_key(&secp, &sk);
    let msg = secp256k1::Message::from_digest_slice(&digest).unwrap();
    let sig = secp256k1::ecdsa::Signature::from_compact(&tx.inputs[0].signature).unwrap();
    assert!(secp.verify_ecdsa(&msg, &sig, &pk).is_ok());
}

#[test]
fn invalid_key_bytes_are_refused() {
    let chain = sender_chain();
    assert_eq!(build_spend(&chain, "me", &[0u8; 32], "you", 50).unwrap_err(), SpendError::InvalidKey);
    assert_eq!(build_spend(&chain, "me", &[1u8; 5], "you", 50).unwrap_err(), SpendError::InvalidKey);
}

#[test]
fn selection_stops_at_the_first_sufficient_prefix() {
    let chain = sender_chain();
    let utxos = get_utxos(&chain, "me");
    let tx = plan_spend(&utxos, "me", "you", 20).unwrap();
    assert_eq!(tx.inputs.len(), 1);
    assert_eq!(tx.outputs.len(), 1);
    assert_eq!(tx.outputs[0].amount, 20);
    assert!(tx.inputs[0].signature.is_empty());
    let tx = plan_spend(&utxos, "me", "you", 21).unwrap();
    assert_eq!(tx.inputs.len(), 2);
    assert_eq!(tx.outputs[1].amount, 99);
    let tx = plan_spend(&utxos, "me", "you", 0).unwrap();
    assert_eq!(tx.inputs.len(), 0);
    assert_eq!(tx.outputs.len(), 1);
    assert_eq!(tx.outputs[0].amount, 0);
}

#[test]
fn exact_amount_has_no_change() {
    let chain = sender_chain();
    let tx = build_spend(&chain, "me", &key(), "you", 120).unwrap();
    assert_eq!(tx.inputs.len(), 2);
    assert_eq!(tx.outputs.len(), 1);
}

#[test]
fn overspend_is_insufficient_funds() {
    let chain = sender_chain();
    let before = chain.clone();
    assert_eq!(build_spend(&chain, "me", &key(), "you", 121).unwrap_err(), SpendError::InsufficientFunds);
    assert_eq!(build_spend(&chain, "nobody", &key(), "you", 1).unwrap_err(), SpendError::InsufficientFunds);
    assert_eq!(chain.len(), before.len());
    assert_eq!(get_balance(&chain, "me"), 120);
}

#[test]
fn mined_spend_moves_the_funds() {
    let mut chain = sender_chain();
    let tx = build_spend(&chain, "me", &key(), "you", 50).unwrap();
    let h = moon::ledger::tx_hash(&tx);
    let mut b = coinbase_block(2, "c", "miner", 50);
    b.txs = vec![tx];
    chain.push(b);
    let mine = get_utxos(&chain, "me");
    assert_eq!(mine.len(), 1);
    assert_eq!(mine[0].0.tx_hash, h);
    assert_eq!(mine[0].0.index, 1);
    assert_eq!(mine[0].1.amount, 70);
    let yours = get_utxos(&chain, "you");
    assert_eq!(yours.len(), 1);
    assert_eq!(yours[0].0.index, 0);
    assert_eq!(yours[0].1.amount, 50);
    assert_eq!(get_balance(&chain, "me"), 70);
}

#[test]
fn key_validity_follows_the_group_order() {
    let chain = sender_chain();
    let order: [u8; 32] = [
        0xFF, 0xFF, 0xFF, 0xFF, 0xFF, 0xFF, 0xFF, 0xFF, 0xFF, 0xFF, 0xFF, 0xFF, 0xFF, 0xFF, 0xFF, 0xFE,
        0xBA, 0xAE, 0xDC, 0xE6, 0xAF, 0x48, 0xA0, 0x3B, 0xBF, 0xD2, 0x5E, 0x8C, 0xD0, 0x36, 0x41, 0x41,
    ];
    assert_eq!(build_spend(&chain, "me", &order, "you", 50).unwrap_err(), SpendError::InvalidKey);
    let mut below = order;
    below[31] = 0x40;
    assert!(build_spend(&chain, "me", &below, "you", 50).is_ok());
    let mut one = [0u8; 32];
    one[31] = 1;
    assert!(build_spend(&chain, "me", &one, "you", 50).is_ok());
    // Too little money is reported before the key is looked at.
    assert_eq!(build_spend(&chain, "me", &[0u8; 32], "you", 500).unwrap_err(), SpendError::InsufficientFunds);
}

#[test]
fn decoded_tx_matches_the_built_one() {
    let chain = sender_chain();
    let tx = build_spend(&chain, "me", &key(), "you", 50).unwrap();
    let back = moon::codec::decode_tx(&encode_tx(&tx)).unwrap();
    assert_eq!(back.inputs.len(), tx.inputs.len());
    assert_eq!(back.inputs[1].signature, tx.inputs[1].signature);
    assert_eq!(back.outputs[1].to, "me");
    assert_eq!(back.outputs[1].amount, 70);
}
