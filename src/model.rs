//! Blocks, transactions and unspent-output keys.

use vstd::prelude::*;
use vstd::utf8::*;

verus! {

/// An output: an amount paid to an address.
#[derive(Clone, Debug)]
pub struct TxOut {
    pub to: String,
    pub amount: u64,
}

/// An input: a reference to an earlier output, with a signature.
#[derive(Clone, Debug)]
pub struct TxIn {
    pub prev_tx_hash: String,
    pub prev_out_index: u64,
    pub signature: Vec<u8>,
}

/// A transaction. Its hash is computed on demand from its encoding.
#[derive(Clone, Debug)]
pub struct Tx {
    pub inputs: Vec<TxIn>,
    pub outputs: Vec<TxOut>,
}

/// A block: its height (`index`), header fields, transactions and the
/// coinbase output that it issues.
#[derive(Clone, Debug)]
pub struct Block {
    pub index: u64,
    pub timestamp: u64,
    pub prev_hash: String,
    pub hash: String,
    pub nonce: u64,
    pub difficulty: u32,
    pub txs: Vec<Tx>,
    pub coinbase: TxOut,
}

/// The key of an unspent output: the producing transaction's hash (or, for
/// a coinbase, the block's hash) and the output's position.
#[derive(Clone, Debug)]
pub struct UtxoKey {
    pub tx_hash: String,
    pub index: u64,
}

/// Whether two strings hold the same characters.
pub fn str_eq(a: &str, b: &str) -> (r: bool)
    ensures
        r == (a@ == b@),
{
    let x = a.as_bytes();
    let y = b.as_bytes();
    proof {
        encode_utf8_decode_utf8(a@);
        encode_utf8_decode_utf8(b@);
        assert(x@ == encode_utf8(a@));
        assert(y@ == encode_utf8(b@));
    }
    if x.len() != y.len() {
        return false;
    }
    let mut i: usize = 0;
    while i < x.len()
        invariant
            x@.len() == y@.len(),
            x@ == encode_utf8(a@),
            y@ == encode_utf8(b@),
            i <= x@.len(),
            forall|j: int| 0 <= j < i ==> x@[j] == y@[j],
        decreases x@.len() - i,
    {
        if x[i] != y[i] {
            proof {
                assert(x@ != y@);
            }
            return false;
        }
        i = i + 1;
    }
    proof {
        assert(x@ =~= y@);
    }
    true
}

/// The mathematical value of a key.
pub open spec fn key_of(k: &UtxoKey) -> (Seq<char>, u64) {
    (k.tx_hash@, k.index)
}

impl UtxoKey {
    /// Whether two keys name the same output.
    pub fn same_as(&self, other: &UtxoKey) -> (r: bool)
        ensures
            r == (key_of(self) == key_of(other)),
    {
        self.index == other.index && self.tx_hash == other.tx_hash
    }
}

} // verus!
