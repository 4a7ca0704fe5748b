//! Proof of work: the reward schedule, difficulty retargeting, the block
//! hash and the nonce search, and the assembly of the next block.

use crate::hashing::{decimal, hex_bytes, hex_of, is_lower_hex, push_bytes, push_decimal, sha256, sha256_of};
use crate::model::{Block, Tx, TxOut};
use vstd::prelude::*;
use vstd::utf8::*;

verus! {

/// The timestamp of every genesis block.
pub const GENESIS_TIMESTAMP: u64 = 1764614400;

/// The previous-block hash that a genesis block carries.
pub const GENESIS_PREV_HASH: &'static str = "0000000000000000000000000000000000000000000000000000000000000000";

/// The constants that shape the chain.
#[derive(Clone, Debug)]
pub struct Config {
    /// Who the coinbase of every mined block pays.
    pub address: String,
    /// The reward before the first halving.
    pub base_reward: u64,
    /// Blocks between two halvings of the reward.
    pub halving_interval: u64,
    /// Blocks per retarget window.
    pub window: u64,
    /// The intended seconds between two blocks.
    pub target_block_time: u64,
    /// Difficulty is never lowered below this.
    pub min_difficulty: u32,
    /// The difficulty of the genesis block.
    pub initial_difficulty: u32,
}

impl Config {
    pub open spec fn valid(&self) -> bool {
        self.halving_interval > 0 && self.window > 0
    }

    /// The constants of the main chain.
    pub fn standard() -> (r: Config)
        ensures
            r.valid(),
            r.address@ == "MC7GUBTOENK3BFW5GGHIDN7R5UQ3MF37Q"@,
            r.base_reward == 50,
            r.halving_interval == 210000,
            r.window == 2016,
            r.target_block_time == 60,
            r.min_difficulty == 1,
            r.initial_difficulty == 4,
    {
        Config {
            address: "MC7GUBTOENK3BFW5GGHIDN7R5UQ3MF37Q".to_owned(),
            base_reward: 50,
            halving_interval: 210000,
            window: 2016,
            target_block_time: 60,
            min_difficulty: 1,
            initial_difficulty: 4,
        }
    }
}

/// The reward of a block at `height`: `base` halved once per completed
/// interval, and zero once the shift reaches the width of the reward.
pub open spec fn reward_at(base: u64, interval: u64, height: u64) -> u64
    recommends
        interval > 0,
{
    let shift = height / interval;
    if shift >= 64 {
        0
    } else {
        base >> shift
    }
}

/// The coinbase amount of the block at `height`.
pub fn reward(cfg: &Config, height: u64) -> (r: u64)
    requires
        cfg.valid(),
    ensures
        r == reward_at(cfg.base_reward, cfg.halving_interval, height),
{
    let shift = height / cfg.halving_interval;
    if shift >= 64 {
        0
    } else {
        cfg.base_reward >> shift
    }
}

/// One halving interval later, the reward is half of what it was (rounded
/// down), and so it reaches zero and stays there.
pub proof fn lemma_reward_halves(base: u64, interval: u64, height: u64)
    requires
        interval > 0,
        height + interval <= u64::MAX,
    ensures
        reward_at(base, interval, (height + interval) as u64) == reward_at(base, interval, height)
            / 2,
        height / interval >= 64 ==> reward_at(base, interval, height) == 0,
{
    let s = height / interval;
    vstd::arithmetic::div_mod::lemma_div_plus_one(height as int, interval as int);
    assert((interval + height) / (interval as int) == s + 1);
    assert(((height + interval) as u64) / interval == s + 1);
    if s < 63 {
        let s64 = s as u64;
        assert((base >> s64) / 2 == base >> ((s64 + 1) as u64)) by (bit_vector)
            requires
                s64 < 63,
        ;
    } else if s == 63 {
        let s64 = s as u64;
        assert((base >> s64) / 2 == 0) by (bit_vector)
            requires
                s64 == 63,
        ;
    }
}

/// The reward never grows with height: once it is zero it stays zero.
pub proof fn lemma_reward_never_grows(base: u64, interval: u64, h1: u64, h2: u64)
    requires
        interval > 0,
        h1 <= h2,
    ensures
        reward_at(base, interval, h2) <= reward_at(base, interval, h1),
{
    let s1 = h1 / interval;
    let s2 = h2 / interval;
    vstd::arithmetic::div_mod::lemma_div_is_ordered(h1 as int, h2 as int, interval as int);
    if s2 < 64 {
        let a = s1 as u64;
        let c = s2 as u64;
        assert(base >> c <= base >> a) by (bit_vector)
            requires
                a <= c,
                c < 64,
        ;
    }
}

/// One retarget step: up by one when the window took under half the
/// expected time (as far as a `u32` reaches), down by one when it took over double and the floor
/// allows, else unchanged.
pub open spec fn retarget(d: u32, actual: int, expected: int, min: u32) -> u32 {
    if 2 * actual < expected {
        if d < u32::MAX {
            (d + 1) as u32
        } else {
            d
        }
    } else if actual > 2 * expected && d > min {
        (d - 1) as u32
    } else {
        d
    }
}

/// The difficulty of the block that would follow `chain`: the initial
/// difficulty for a genesis block, a retarget over the last window when the
/// chain's length closes one, else the last block's difficulty.
pub open spec fn next_difficulty_of(chain: Seq<Block>, cfg: Config) -> u32
    recommends
        cfg.valid(),
{
    let n = chain.len();
    if n == 0 {
        cfg.initial_difficulty
    } else if n % (cfg.window as nat) == 0 {
        retarget(
            chain[n - 1].difficulty,
            chain[n - 1].timestamp - chain[n - cfg.window].timestamp,
            cfg.window * cfg.target_block_time,
            cfg.min_difficulty,
        )
    } else {
        chain[n - 1].difficulty
    }
}

/// The difficulty of the next block.
pub fn next_difficulty(chain: &[Block], cfg: &Config) -> (r: u32)
    requires
        cfg.valid(),
    ensures
        r == next_difficulty_of(chain@, *cfg),
{
    let n = chain.len();
    if n == 0 {
        return cfg.initial_difficulty;
    }
    let last = &chain[n - 1];
    if (n as u64) % cfg.window != 0 {
        return last.difficulty;
    }
    proof {
        if (n as u64) < cfg.window {
            vstd::arithmetic::div_mod::lemma_small_mod(n as nat, cfg.window as nat);
        }
    }
    let first = &chain[n - cfg.window as usize];
    proof {
        let w = cfg.window as u128;
        let t = cfg.target_block_time as u128;
        assert(w * t <= u64::MAX * u64::MAX) by (nonlinear_arith)
            requires
                w <= u64::MAX,
                t <= u64::MAX,
        ;
    }
    let expected: u128 = cfg.window as u128 * cfg.target_block_time as u128;
    let d = last.difficulty;
    let faster = if last.timestamp < first.timestamp {
        true
    } else {
        2 * ((last.timestamp - first.timestamp) as u128) < expected
    };
    let slower = if last.timestamp < first.timestamp {
        false
    } else {
        expected <= u64::MAX as u128 && (last.timestamp - first.timestamp) as u128 > 2 * expected
    };
    if faster {
        if d < u32::MAX {
            d + 1
        } else {
            d
        }
    } else if slower && d > cfg.min_difficulty {
        d - 1
    } else {
        d
    }
}

/// The difficulty that follows a chain depends on nothing but its length,
/// its last difficulty and, where a window closes, the timestamps of the
/// window's first and last blocks.
pub proof fn lemma_retarget_reads_boundaries(a: Seq<Block>, b: Seq<Block>, cfg: Config)
    requires
        cfg.valid(),
        a.len() == b.len(),
        a.len() > 0 ==> a.last().difficulty == b.last().difficulty,
        a.len() > 0 && a.len() % (cfg.window as nat) == 0 ==> a.last().timestamp
            == b.last().timestamp && a[a.len() - cfg.window].timestamp == b[b.len()
            - cfg.window].timestamp,
    ensures
        next_difficulty_of(a, cfg) == next_difficulty_of(b, cfg),
{
}

/// What the block hash is computed over: height, previous hash, timestamp,
/// nonce and difficulty, each in decimal but the hash, one after another.
pub open spec fn header_bytes(index: u64, prev: Seq<char>, ts: u64, nonce: u64, d: u32) -> Seq<
    u8,
> {
    decimal(index as nat) + encode_utf8(prev) + decimal(ts as nat) + decimal(nonce as nat)
        + decimal(d as nat)
}

/// The hash of a block with these header fields.
pub open spec fn block_hash_of(index: u64, prev: Seq<char>, ts: u64, nonce: u64, d: u32) -> Seq<
    char,
> {
    hex_of(sha256_of(header_bytes(index, prev, ts, nonce, d)))
}

/// Whether a hash starts with at least `d` zero characters.
pub open spec fn meets_difficulty(hash: Seq<char>, d: nat) -> bool {
    d <= hash.len() && forall|i: int| 0 <= i < d ==> hash[i] == '0'
}

/// The bytes that the hash of a block with these header fields digests.
pub fn header(index: u64, prev: &str, ts: u64, nonce: u64, d: u32) -> (r: Vec<u8>)
    ensures
        r@ == header_bytes(index, prev@, ts, nonce, d),
{
    let mut out: Vec<u8> = Vec::new();
    push_decimal(&mut out, index);
    push_bytes(&mut out, prev.as_bytes());
    push_decimal(&mut out, ts);
    push_decimal(&mut out, nonce);
    push_decimal(&mut out, d as u64);
    proof {
        assert(out@ =~= header_bytes(index, prev@, ts, nonce, d));
    }
    out
}

/// Whether the hex rendering of `digest` starts with at least `d` zeros.
pub fn digest_meets(digest: &[u8], d: u32) -> (r: bool)
    ensures
        r == meets_difficulty(hex_of(digest@), d as nat),
{
    proof {
        crate::hashing::lemma_hex_bytes_len(digest@);
    }
    let dd = d as usize;
    if dd / 2 + dd % 2 > digest.len() {
        return false;
    }
    let mut i: usize = 0;
    while i < dd
        invariant
            dd == d,
            d <= 2 * digest@.len(),
            hex_bytes(digest@).len() == 2 * digest@.len(),
            i <= d,
            forall|j: int| 0 <= j < i ==> hex_of(digest@)[j] == '0',
        decreases d - i,
    {
        let b = digest[i / 2];
        let nibble = if i % 2 == 0 {
            b / 16
        } else {
            b % 16
        };
        proof {
            crate::hashing::lemma_hex_bytes_ascii(digest@, i as int);
            assert(hex_of(digest@)[i as int] == hex_bytes(digest@)[i as int] as char);
        }
        if nibble != 0 {
            return false;
        }
        i = i + 1;
    }
    true
}

/// Searches nonces upward from zero for the first whose block hash meets
/// difficulty `d`.
pub fn search_nonce(index: u64, prev: &str, ts: u64, d: u32) -> (r: Option<(u64, String)>)
    ensures
        r matches Some((n, h)) ==> {
            &&& h@ == block_hash_of(index, prev@, ts, n, d)
            &&& h@.len() == 64
            &&& is_lower_hex(h@)
            &&& meets_difficulty(h@, d as nat)
            &&& forall|m: u64|
                m < n ==> !meets_difficulty(#[trigger] block_hash_of(index, prev@, ts, m, d), d as nat)
        },
        r is None ==> forall|m: u64|
            !meets_difficulty(#[trigger] block_hash_of(index, prev@, ts, m, d), d as nat),
{
    let mut nonce: u64 = 0;
    loop
        invariant
            forall|m: u64|
                m < nonce ==> !meets_difficulty(#[trigger] block_hash_of(index, prev@, ts, m, d), d as nat),
        decreases u64::MAX - nonce,
    {
        let digest = sha256(header(index, prev, ts, nonce, d).as_slice());
        if digest_meets(digest.as_slice(), d) {
            let h = crate::hashing::hex_string(digest.as_slice());
            return Some((nonce, h));
        }
        if nonce == u64::MAX {
            return None;
        }
        nonce = nonce + 1;
    }
}

/// A block whose hash is the hash of its header fields and meets its
/// difficulty.
pub open spec fn block_is_sound(b: Block) -> bool {
    &&& b.hash@ == block_hash_of(b.index, b.prev_hash@, b.timestamp, b.nonce, b.difficulty)
    &&& meets_difficulty(b.hash@, b.difficulty as nat)
}

/// A chain of sound blocks, each at its own height and linked to the one
/// before it (the first to the genesis sentinel).
pub open spec fn chain_is_sound(c: Seq<Block>) -> bool {
    forall|i: int|
        0 <= i < c.len() ==> {
            &&& block_is_sound(#[trigger] c[i])
            &&& c[i].index == i
            &&& c[i].prev_hash@ == (if i == 0 {
                GENESIS_PREV_HASH@
            } else {
                c[i - 1].hash@
            })
        }
}

/// The empty chain is sound, and every block of a sound chain has a hash
/// with at least as many leading zeros as its difficulty. With the
/// soundness that `mine_next` keeps, this holds of every chain grown from
/// nothing by mining cycles.
pub proof fn lemma_sound_chains_meet_difficulty(c: Seq<Block>)
    ensures
        chain_is_sound(Seq::<Block>::empty()),
        chain_is_sound(c) ==> forall|i: int|
            0 <= i < c.len() ==> meets_difficulty(
                (#[trigger] c[i]).hash@,
                c[i].difficulty as nat,
            ),
{
    if chain_is_sound(c) {
        assert forall|i: int| 0 <= i < c.len() implies meets_difficulty(
            (#[trigger] c[i]).hash@,
            c[i].difficulty as nat,
        ) by {
            assert(block_is_sound(c[i]));
        }
    }
}

/// The previous-block hash of the block that follows `chain`.
pub open spec fn prev_hash_after(chain: Seq<Block>) -> Seq<char> {
    if chain.len() == 0 {
        GENESIS_PREV_HASH@
    } else {
        chain.last().hash@
    }
}

/// The timestamp of the block that follows `chain`, mined at time `now`.
pub open spec fn timestamp_after(chain: Seq<Block>, now: u64) -> u64 {
    if chain.len() == 0 {
        GENESIS_TIMESTAMP
    } else {
        now
    }
}

/// What one mining cycle comes to.
#[derive(Clone, Debug)]
pub enum MineOutcome {
    /// The next block, ready to append.
    Mined(Block),
    /// The reward at the next height is zero: mining is over.
    SupplyExhausted,
    /// No nonce at all gives a hash that meets the difficulty.
    NonceSpaceExhausted,
}

/// One mining cycle: the next block after `chain`, mined at time `now`,
/// holding the `pending` transactions and a coinbase that pays the
/// configured address the reward at its height.
pub fn mine_next(chain: &[Block], cfg: &Config, now: u64, pending: Vec<Tx>) -> (r: MineOutcome)
    requires
        cfg.valid(),
    ensures
        (reward_at(cfg.base_reward, cfg.halving_interval, chain@.len() as u64) == 0) <==> (r
            is SupplyExhausted),
        r matches MineOutcome::Mined(b) ==> {
            &&& b.index == chain@.len()
            &&& b.timestamp == timestamp_after(chain@, now)
            &&& b.prev_hash@ == prev_hash_after(chain@)
            &&& b.difficulty == next_difficulty_of(chain@, *cfg)
            &&& block_is_sound(b)
            &&& b.hash@.len() == 64
            &&& is_lower_hex(b.hash@)
            &&& forall|m: u64|
                m < b.nonce ==> !meets_difficulty(
                    #[trigger] block_hash_of(b.index, b.prev_hash@, b.timestamp, m, b.difficulty),
                    b.difficulty as nat,
                )
            &&& b.txs@ == pending@
            &&& b.coinbase.to@ == cfg.address@
            &&& b.coinbase.amount == reward_at(cfg.base_reward, cfg.halving_interval, b.index)
            &&& chain_is_sound(chain@) ==> chain_is_sound(chain@.push(b))
        },
        r is NonceSpaceExhausted ==> forall|m: u64|
            !meets_difficulty(
                #[trigger] block_hash_of(
                    chain@.len() as u64,
                    prev_hash_after(chain@),
                    timestamp_after(chain@, now),
                    m,
                    next_difficulty_of(chain@, *cfg),
                ),
                next_difficulty_of(chain@, *cfg) as nat,
            ),
{
    let height = chain.len() as u64;
    let amount = reward(cfg, height);
    if amount == 0 {
        return MineOutcome::SupplyExhausted;
    }
    let d = next_difficulty(chain, cfg);
    let (prev, ts) = if chain.len() == 0 {
        (GENESIS_PREV_HASH.to_owned(), GENESIS_TIMESTAMP)
    } else {
        (chain[chain.len() - 1].hash.clone(), now)
    };
    match search_nonce(height, prev.as_str(), ts, d) {
        None => MineOutcome::NonceSpaceExhausted,
        Some((nonce, hash)) => {
            let b = Block {
                index: height,
                timestamp: ts,
                prev_hash: prev,
                hash,
                nonce,
                difficulty: d,
                txs: pending,
                coinbase: TxOut { to: cfg.address.clone(), amount },
            };
            proof {
                let c = chain@.push(b);
                if chain_is_sound(chain@) {
                    assert forall|i: int| 0 <= i < c.len() implies {
                        &&& block_is_sound(#[trigger] c[i])
                        &&& c[i].index == i
                        &&& c[i].prev_hash@ == (if i == 0 {
                            GENESIS_PREV_HASH@
                        } else {
                            c[i - 1].hash@
                        })
                    } by {
                        if i < chain@.len() {
                            assert(c[i] == chain@[i]);
                        }
                    }
                }
            }
            MineOutcome::Mined(b)
        },
    }
}

} // verus!
