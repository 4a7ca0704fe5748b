use moon::ledger::{get_balance, get_utxos, tx_hash};
use moon::model::{Block, Tx, TxIn, TxOut};

fn out(to: &str, amount: u64) -> TxOut {
    TxOut { to: to.to_string(), amount }
}

fn block(index: u64, hash: &str, coinbase: TxOut, txs: Vec<Tx>) -> Block {
    Block {
        index,
        timestamp: 0,
        prev_hash: String::new(),
        hash: hash.to_string(),
        nonce: 0,
        difficulty: 0,
        txs,
        coinbase,
    }
}

fn spend(hash: &str, index: u64) -> TxIn {
    TxIn { prev_tx_hash: hash.to_string(), prev_out_index: index, signature: vec![] }
}

#[test]
fn tx_hash_is_sha256_of_the_encoding() {
    let empty = Tx { inputs: vec![], outputs: vec![] };
    assert_eq!(
        tx_hash(&empty),
        "374708fff7719dd5979ec875d56cd2286f6d3cf7ec317a3b25632aab28ec37bb"
    );
}

#[test]
fn coinbase_outputs_are_keyed_by_block_hash() {
    let chain = vec![block(0, "h0", out("alice", 50), vec![]), block(1, "h1", out("bob", 50), vec![])];
    let u = get_utxos(&chain, "alice");
    assert_eq!(u.len(), 1);
    assert_eq!(u[0].0.tx_hash, "h0");
    assert_eq!(u[0].0.index, 0);
    assert_eq!(u[0].1.amount, 50);
    assert_eq!(get_balance(&chain, "alice"), 50);
    assert_eq!(get_balance(&chain, "bob"), 50);
    assert_eq!(get_balance(&chain, "carol"), 0);
    assert_eq!(get_balance(&[], "alice"), 0);
}

#[test]
fn spent_outputs_leave_the_balance() {
    let pay = Tx { inputs: vec![spend("h0", 0)], outputs: vec![out("bob", 30), out("alice", 20)] };
    let h = tx_hash(&pay);
    let chain = vec![
        block(0, "h0", out("alice", 50), vec![]),
        block(1, "h1", out("alice", 50), vec![pay]),
    ];
    assert_eq!(get_balance(&chain, "alice"), 70);
    assert_eq!(get_balance(&chain, "bob"), 30);
    let u = get_utxos(&chain, "alice");
    assert_eq!(u.len(), 2);
    assert_eq!(u[0].0.tx_hash, "h1");
    assert_eq!(u[1].0.tx_hash, h);
    assert_eq!(u[1].0.index, 1);
    assert_eq!(u[1].1.amount, 20);
}

#[test]
fn inputs_spend_whoever_owns_the_output_and_earlier_references_count() {
    // An input in the first block names an output produced later: the
    // output is still treated as spent.
    let early = Tx { inputs: vec![spend("h1", 0)], outputs: vec![] };
    let chain = vec![
        block(0, "h0", out("alice", 5), vec![early]),
        block(1, "h1", out("alice", 7), vec![]),
    ];
    assert_eq!(get_balance(&chain, "alice"), 5);
}

#[test]
fn a_repeated_key_counts_once() {
    let chain = vec![block(0, "same", out("alice", 5), vec![]), block(1, "same", out("alice", 9), vec![])];
    let u = get_utxos(&chain, "alice");
    assert_eq!(u.len(), 1);
    assert_eq!(u[0].1.amount, 9);
    assert_eq!(get_balance(&chain, "alice"), 9);
}

#[test]
fn balance_does_not_overflow() {
    let chain = vec![block(0, "a", out("x", u64::MAX), vec![]), block(1, "b", out("x", u64::MAX), vec![])];
    assert_eq!(get_balance(&chain, "x"), 2 * (u64::MAX as u128));
}
