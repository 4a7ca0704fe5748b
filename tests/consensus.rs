use moon::consensus::{
    digest_meets, header, mine_next, next_difficulty, reward, search_nonce, Config, MineOutcome,
    GENESIS_PREV_HASH, GENESIS_TIMESTAMP,
};
use moon::hashing::{hex_string, push_decimal};
use moon::ledger::get_balance;
use moon::model::{Block, TxOut};
use sha2::Digest;

fn plain_block(index: u64, timestamp: u64, difficulty: u32) -> Block {
    Block {
        index,
        timestamp,
        prev_hash: String::new(),
        hash: String::new(),
        nonce: 0,
        difficulty,
        txs: vec![],
        coinbase: TxOut { to: "x".to_string(), amount: 1 },
    }
}

fn small_config() -> Config {
    let mut cfg = Config::standard();
    cfg.initial_difficulty = 2;
    cfg
}

#[test]
fn decimal_rendering() {
    let mut out = Vec::new();
    push_decimal(&mut out, 0);
    push_decimal(&mut out, 1234);
    push_decimal(&mut out, u64::MAX);
    assert_eq!(out, b"0123418446744073709551615".to_vec());
}

#[test]
fn header_concatenates_fields() {
    assert_eq!(header(1, "ab", 5, 0, 4), b"1ab504".to_vec());
    assert_eq!(header(12, "", 1764614400, 77, 10), b"1217646144007710".to_vec());
}

#[test]
fn hex_is_lowercase_two_digits_per_byte() {
    assert_eq!(hex_string(&[10, 20, 30]), "0a141e");
    assert_eq!(hex_string(&[0, 255, 171]), "00ffab");
    assert_eq!(hex_string(&[]), "");
}

#[test]
fn digest_meets_counts_leading_zero_digits() {
    assert!(digest_meets(&[0x00, 0x0f, 0xff], 3));
    assert!(!digest_meets(&[0x00, 0x0f, 0xff], 4));
    assert!(digest_meets(&[0x00, 0x0f, 0xff], 0));
    assert!(!digest_meets(&[0x10], 1));
    assert!(digest_meets(&[0x00], 2));
    assert!(!digest_meets(&[0x00], 3));
}

#[test]
fn reward_halves_per_interval() {
    let cfg = Config::standard();
    assert_eq!(reward(&cfg, 0), 50);
    assert_eq!(reward(&cfg, 209_999), 50);
    assert_eq!(reward(&cfg, 210_000), 25);
    assert_eq!(reward(&cfg, 420_000), 12);
    assert_eq!(reward(&cfg, 5 * 210_000), 1);
    assert_eq!(reward(&cfg, 6 * 210_000), 0);
}

#[test]
fn reward_reaches_zero_at_the_width_of_the_reward() {
    let mut cfg = Config::standard();
    cfg.base_reward = u64::MAX;
    cfg.halving_interval = 10;
    assert_eq!(reward(&cfg, 0), u64::MAX);
    assert_eq!(reward(&cfg, 10), u64::MAX >> 1);
    assert_eq!(reward(&cfg, 639), 1);
    assert_eq!(reward(&cfg, 640), 0);
    assert_eq!(reward(&cfg, u64::MAX), 0);
}

#[test]
fn mining_halts_when_the_reward_is_zero() {
    let mut cfg = small_config();
    cfg.base_reward = 1;
    cfg.halving_interval = 1;
    let chain = vec![plain_block(0, 0, 1)];
    assert!(matches!(mine_next(&chain, &cfg, 5, vec![]), MineOutcome::SupplyExhausted));
}

#[test]
fn difficulty_carries_over_before_the_window_closes() {
    let cfg = Config::standard();
    let chain: Vec<Block> = (0..2015).map(|i| plain_block(i, i, 7)).collect();
    assert_eq!(next_difficulty(&chain, &cfg), 7);
}

#[test]
fn difficulty_retargets_when_the_window_closes() {
    let cfg = Config::standard();
    // 2016 blocks one second apart: far faster than 60 s each.
    let fast: Vec<Block> = (0..2016).map(|i| plain_block(i, i, 7)).collect();
    assert_eq!(next_difficulty(&fast, &cfg), 8);
    // Far slower than double the expected time.
    let slow: Vec<Block> = (0..2016).map(|i| plain_block(i, i * 1000, 7)).collect();
    assert_eq!(next_difficulty(&slow, &cfg), 6);
    // On target.
    let even: Vec<Block> = (0..2016).map(|i| plain_block(i, i * 60, 7)).collect();
    assert_eq!(next_difficulty(&even, &cfg), 7);
    // Slow, but already at the minimum.
    let floor: Vec<Block> = (0..2016).map(|i| plain_block(i, i * 1000, 1)).collect();
    assert_eq!(next_difficulty(&floor, &cfg), 1);
    // There is no ceiling but the width of the difficulty.
    let high: Vec<Block> = (0..2016).map(|i| plain_block(i, i, 64)).collect();
    assert_eq!(next_difficulty(&high, &cfg), 65);
    let top: Vec<Block> = (0..2016).map(|i| plain_block(i, i, u32::MAX)).collect();
    assert_eq!(next_difficulty(&top, &cfg), u32::MAX);
    // One block after the window the difficulty is carried again.
    let mut after = fast.clone();
    after.push(plain_block(2016, 2016, 8));
    assert_eq!(next_difficulty(&after, &cfg), 8);
}

#[test]
fn retarget_reads_only_the_window_boundaries() {
    let cfg = Config::standard();
    let a: Vec<Block> = (0..2016).map(|i| plain_block(i, i, 7)).collect();
    let mut b = a.clone();
    for blk in b.iter_mut().take(2015).skip(1) {
        blk.timestamp = 999_999;
    }
    assert_eq!(next_difficulty(&a, &cfg), next_difficulty(&b, &cfg));
}

#[test]
fn empty_chain_difficulty_is_initial() {
    let cfg = Config::standard();
    assert_eq!(next_difficulty(&[], &cfg), 4);
}

#[test]
fn genesis_is_mined_at_the_fixed_timestamp() {
    let cfg = Config::standard();
    let b = match mine_next(&[], &cfg, 42, vec![]) {
        MineOutcome::Mined(b) => b,
        _ => panic!("no block"),
    };
    assert_eq!(b.index, 0);
    assert_eq!(b.timestamp, GENESIS_TIMESTAMP);
    assert_eq!(b.difficulty, 4);
    assert_eq!(b.prev_hash, GENESIS_PREV_HASH);
    assert!(b.hash.starts_with("0000"));
    assert_eq!(b.coinbase.amount, 50);
    assert_eq!(b.coinbase.to, "MC7GUBTOENK3BFW5GGHIDN7R5UQ3MF37Q");
    let chain = vec![b];
    assert_eq!(get_balance(&chain, "MC7GUBTOENK3BFW5GGHIDN7R5UQ3MF37Q"), 50);
}

#[test]
fn mined_hash_is_the_digest_of_the_header_and_meets_difficulty() {
    let cfg = small_config();
    let mut chain = Vec::new();
    for now in [100u64, 200, 300] {
        let b = match mine_next(&chain, &cfg, now, vec![]) {
            MineOutcome::Mined(b) => b,
            _ => panic!("no block"),
        };
        let pre = format!("{}{}{}{}{}", b.index, b.prev_hash, b.timestamp, b.nonce, b.difficulty);
        let expected = format!("{:x}", sha2::Sha256::digest(pre.as_bytes()));
        assert_eq!(b.hash, expected);
        assert!(b.hash.starts_with(&"0".repeat(b.difficulty as usize)));
        assert_eq!(b.hash.len(), 64);
        assert!(b.hash.chars().all(|c| c.is_ascii_digit() || ('a'..='f').contains(&c)));
        assert_eq!(b.index as usize, chain.len());
        if let Some(last) = chain.last() {
            let last: &Block = last;
            assert_eq!(b.prev_hash, last.hash);
            assert_eq!(b.timestamp, now);
        }
        chain.push(b);
    }
}

#[test]
fn nonce_search_finds_the_first_nonce() {
    let (nonce, hash) = search_nonce(3, "abc", 1000, 2).unwrap();
    assert!(hash.starts_with("00"));
    for m in 0..nonce {
        let pre = format!("3abc1000{}2", m);
        let h = format!("{:x}", sha2::Sha256::digest(pre.as_bytes()));
        assert!(!h.starts_with("00"));
    }
    let (zero, _) = search_nonce(3, "abc", 1000, 0).unwrap();
    assert_eq!(zero, 0);
}

#[test]
fn balance_grows_by_the_reward_of_each_mined_block() {
    let mut cfg = small_config();
    cfg.base_reward = 8;
    cfg.halving_interval = 1;
    let mut chain: Vec<Block> = Vec::new();
    let mut balances = vec![get_balance(&chain, &cfg.address)];
    loop {
        match mine_next(&chain, &cfg, 100 + chain.len() as u64, vec![]) {
            MineOutcome::Mined(b) => chain.push(b),
            MineOutcome::SupplyExhausted => break,
            MineOutcome::NonceSpaceExhausted => panic!("no nonce"),
        }
        balances.push(get_balance(&chain, &cfg.address));
    }
    assert_eq!(balances, vec![0, 8, 12, 14, 15]);
    assert_eq!(chain.len(), 4);
}
