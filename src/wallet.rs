//! Spending: choosing inputs among the unspent outputs, paying the
//! recipient and the change, and signing.

use crate::codec::{enc_bytes, enc_in, enc_ins, enc_outs, enc_str, enc_tx, enc_u64, encode_tx};
use crate::hashing::sha256_of;
use crate::hashing::{push_bytes, sha256};
use crate::ledger::{balance_of, entries_of, get_utxos, total, utxos_of, Coin, OutKey};
use crate::model::{Block, Tx, TxIn, TxOut, UtxoKey};
use vstd::prelude::*;

verus! {

/// The value of a byte string read most significant byte first.
pub open spec fn be_value(s: Seq<u8>) -> nat
    decreases s.len(),
{
    if s.len() == 0 {
        0
    } else {
        be_value(s.drop_last()) * 256 + s.last() as nat
    }
}

/// The order of the secp256k1 group.
pub open spec fn curve_order() -> nat {
    0xFFFF_FFFF_FFFF_FFFF_FFFF_FFFF_FFFF_FFFE * (0x1_0000_0000_0000_0000 * 0x1_0000_0000_0000_0000)
        + 0xBAAE_DCE6_AF48_A03B_BFD2_5E8C_D036_4141
}

/// The bytes of a secp256k1 secret key: 32 of them, whose value is neither
/// zero nor below the group order.
pub open spec fn valid_secret_key(secret: Seq<u8>) -> bool {
    secret.len() == 32 && 0 < be_value(secret) < curve_order()
}

/// The compact ECDSA signature (RFC 6979 nonces, so a function of its
/// arguments) of a 32-byte digest under the secret key with these bytes.
pub uninterp spec fn ecdsa_signature_of(digest: Seq<u8>, secret: Seq<u8>) -> Seq<u8>;

/// Relies on secp256k1: `SecretKey::from_slice` (succeeds exactly on 32
/// bytes whose value is nonzero and below the group order, as
/// `secp256k1_ec_seckey_verify` documents), `Message::from_digest_slice` (accepts exactly 32 bytes),
/// `Secp256k1::sign_ecdsa` and `Signature::serialize_compact` (64 bytes).
#[verifier::external_body]
fn sign_digest(digest: &[u8], secret: &[u8]) -> (r: Option<Vec<u8>>)
    requires
        digest@.len() == 32,
    ensures
        r is Some <==> valid_secret_key(secret@),
        r matches Some(sig) ==> sig@ == ecdsa_signature_of(digest@, secret@) && sig@.len() == 64,
{
    let key = secp256k1::SecretKey::from_slice(secret).ok()?;
    let msg = secp256k1::Message::from_digest_slice(digest).unwrap();
    Some(secp256k1::Secp256k1::signing_only().sign_ecdsa(&msg, &key).serialize_compact().to_vec())
}

/// Why a spend cannot be built.
#[derive(Clone, Copy, Debug, PartialEq, Eq)]
pub enum SpendError {
    /// The sender's unspent outputs sum to less than the amount.
    InsufficientFunds,
    /// The secret bytes are not a valid signing key.
    InvalidKey,
}

/// `n` is where the running total of `l` first reaches `amount`: the first
/// `n` entries sum to at least `amount`, and no shorter prefix does.
pub open spec fn covers_first(l: Seq<(OutKey, Coin)>, amount: nat, n: int) -> bool {
    &&& 0 <= n <= l.len()
    &&& total(l.subrange(0, n)) >= amount
    &&& forall|m: int| 0 <= m < n ==> total(#[trigger] l.subrange(0, m)) < amount
}

/// `tx` spends the first entries of `l` up to where their total reaches
/// `amount`, pays `amount` to `to`, and returns what exceeds it to `from`
/// when anything does.
pub open spec fn spends(
    l: Seq<(OutKey, Coin)>,
    from: Seq<char>,
    to: Seq<char>,
    amount: u64,
    tx: Tx,
) -> bool {
    let n = tx.inputs@.len() as int;
    let change = total(l.subrange(0, n)) - amount;
    &&& covers_first(l, amount as nat, n)
    &&& forall|i: int|
        0 <= i < n ==> ((#[trigger] tx.inputs@[i]).prev_tx_hash@, tx.inputs@[i].prev_out_index)
            == l[i].0
    &&& tx.outputs@.len() == (if change > 0 {
        2int
    } else {
        1int
    })
    &&& tx.outputs@[0].to@ == to
    &&& tx.outputs@[0].amount == amount
    &&& change > 0 ==> tx.outputs@[1].to@ == from && tx.outputs@[1].amount == change
}

/// Every input of `tx` carries a signature of `len` bytes.
pub open spec fn signed_with_len(tx: Tx, len: nat) -> bool {
    forall|i: int| 0 <= i < tx.inputs@.len() ==> (#[trigger] tx.inputs@[i]).signature@.len() == len
}

/// The encoding of `i` with an empty signature.
pub open spec fn enc_in_unsigned(i: TxIn) -> Seq<u8> {
    enc_str(i.prev_tx_hash@) + enc_u64(i.prev_out_index as nat) + enc_bytes(Seq::empty())
}

pub open spec fn enc_ins_unsigned(s: Seq<TxIn>) -> Seq<u8>
    decreases s.len(),
{
    if s.len() == 0 {
        Seq::empty()
    } else {
        enc_ins_unsigned(s.drop_last()) + enc_in_unsigned(s.last())
    }
}

/// The encoding of `t` with every signature emptied: what is signed.
pub open spec fn enc_tx_unsigned(t: Tx) -> Seq<u8> {
    enc_u64(t.inputs@.len()) + enc_ins_unsigned(t.inputs@) + enc_u64(t.outputs@.len()) + enc_outs(
        t.outputs@,
    )
}

/// Inputs that agree but for their signatures encode alike once unsigned,
/// and inputs without signatures encode as they are.
proof fn lemma_ins_unsigned(a: Seq<TxIn>, c: Seq<TxIn>)
    requires
        a.len() == c.len(),
        forall|i: int|
            0 <= i < a.len() ==> (#[trigger] a[i]).prev_tx_hash@ == c[i].prev_tx_hash@
                && a[i].prev_out_index == c[i].prev_out_index,
    ensures
        enc_ins_unsigned(a) == enc_ins_unsigned(c),
        (forall|i: int| 0 <= i < a.len() ==> (#[trigger] a[i]).signature@.len() == 0)
            ==> enc_ins_unsigned(a) == enc_ins(a),
    decreases a.len(),
{
    if a.len() > 0 {
        lemma_ins_unsigned(a.drop_last(), c.drop_last());
        if forall|i: int| 0 <= i < a.len() ==> (#[trigger] a[i]).signature@.len() == 0 {
            assert(a.last().signature@ =~= Seq::<u8>::empty());
        }
    }
}

proof fn lemma_prefix_step(l: Seq<(OutKey, Coin)>, i: int)
    requires
        0 <= i < l.len(),
    ensures
        total(l.subrange(0, i + 1)) == total(l.subrange(0, i)) + l[i].1.1,
{
    assert(l.subrange(0, i + 1).drop_last() =~= l.subrange(0, i));
}

/// The unsigned spend of `amount` from `from` to `to` over the unspent
/// outputs `utxos`, taken in order until their total reaches the amount.
pub fn plan_spend(utxos: &Vec<(UtxoKey, TxOut)>, from: &str, to: &str, amount: u64) -> (r: Result<
    Tx,
    SpendError,
>)
    ensures
        r is Err <==> total(entries_of(utxos@)) < amount,
        r matches Ok(tx) ==> spends(entries_of(utxos@), from@, to@, amount, tx) && signed_with_len(
            tx,
            0,
        ),
{
    let ghost l = entries_of(utxos@);
    let mut sum: u128 = 0;
    let mut inputs: Vec<TxIn> = Vec::new();
    let mut i: usize = 0;
    while i < utxos.len() && sum < amount as u128
        invariant
            l == entries_of(utxos@),
            i <= utxos@.len(),
            inputs@.len() == i,
            sum == total(l.subrange(0, i as int)),
            forall|m: int| 0 <= m < i ==> total(#[trigger] l.subrange(0, m)) < amount,
            forall|m: int|
                0 <= m < i ==> ((#[trigger] inputs@[m]).prev_tx_hash@, inputs@[m].prev_out_index)
                    == l[m].0 && inputs@[m].signature@.len() == 0,
        decreases utxos@.len() - i,
    {
        proof {
            lemma_prefix_step(l, i as int);
        }
        let e = &utxos[i];
        sum = sum + e.1.amount as u128;
        inputs.push(TxIn { prev_tx_hash: e.0.tx_hash.clone(), prev_out_index: e.0.index, signature: Vec::new() });
        i = i + 1;
    }
    if sum < amount as u128 {
        proof {
            assert(l.subrange(0, l.len() as int) =~= l);
        }
        return Err(SpendError::InsufficientFunds);
    }
    proof {
        if i > 0 {
            lemma_prefix_step(l, i - 1);
            assert(total(l.subrange(0, i - 1)) < amount);
        }
        if total(l) < amount {
            lemma_prefix_monotone(l, i as int);
        }
    }
    let change = (sum - amount as u128) as u64;
    let mut outputs: Vec<TxOut> = Vec::new();
    outputs.push(TxOut { to: to.to_owned(), amount });
    if change > 0 {
        outputs.push(TxOut { to: from.to_owned(), amount: change });
    }
    Ok(Tx { inputs, outputs })
}

proof fn lemma_prefix_monotone(l: Seq<(OutKey, Coin)>, n: int)
    requires
        0 <= n <= l.len(),
    ensures
        total(l.subrange(0, n)) <= total(l),
    decreases l.len() - n,
{
    if n < l.len() {
        lemma_prefix_step(l, n);
        lemma_prefix_monotone(l, n + 1);
    } else {
        assert(l.subrange(0, n) =~= l);
    }
}

/// Builds and signs a spend of `amount` from `from` to `to` over the
/// outputs that `from` may spend after `chain`, with the key whose secret
/// bytes are `secret`. It fails with `InsufficientFunds` exactly when the
/// balance of `from` is below the amount, else with `InvalidKey` exactly
/// when `secret` is no valid key, and succeeds otherwise. Each input carries the signature
/// of the digest of the transaction's encoding with signatures emptied.
pub fn build_spend(chain: &[Block], from: &str, secret: &[u8], to: &str, amount: u64) -> (r: Result<
    Tx,
    SpendError,
>)
    ensures
        (r == Err::<Tx, SpendError>(SpendError::InsufficientFunds)) <==> balance_of(chain@, from@)
            < amount,
        (r == Err::<Tx, SpendError>(SpendError::InvalidKey)) <==> balance_of(chain@, from@)
            >= amount && !valid_secret_key(secret@),
        r is Ok <==> balance_of(chain@, from@) >= amount && valid_secret_key(secret@),
        r matches Ok(tx) ==> {
            &&& spends(utxos_of(chain@, from@), from@, to@, amount, tx)
            &&& forall|i: int|
                0 <= i < tx.inputs@.len() ==> (#[trigger] tx.inputs@[i]).signature@
                    == ecdsa_signature_of(sha256_of(enc_tx_unsigned(tx)), secret@)
            &&& signed_with_len(tx, 64)
        },
{
    let utxos = get_utxos(chain, from);
    let unsigned = match plan_spend(&utxos, from, to, amount) {
        Ok(tx) => tx,
        Err(_) => {
            return Err(SpendError::InsufficientFunds);
        },
    };
    let digest = sha256(encode_tx(&unsigned).as_slice());
    let sig = match sign_digest(digest.as_slice(), secret) {
        Some(s) => s,
        None => {
            return Err(SpendError::InvalidKey);
        },
    };
    let mut inputs: Vec<TxIn> = Vec::new();
    let mut i: usize = 0;
    while i < unsigned.inputs.len()
        invariant
            i <= unsigned.inputs@.len(),
            inputs@.len() == i,
            sig@.len() == 64,
            forall|m: int|
                0 <= m < i ==> (#[trigger] inputs@[m]).prev_tx_hash@
                    == unsigned.inputs@[m].prev_tx_hash@ && inputs@[m].prev_out_index
                    == unsigned.inputs@[m].prev_out_index && inputs@[m].signature@ == sig@,
        decreases unsigned.inputs@.len() - i,
    {
        let mut signature: Vec<u8> = Vec::new();
        push_bytes(&mut signature, sig.as_slice());
        let input = &unsigned.inputs[i];
        inputs.push(TxIn { prev_tx_hash: input.prev_tx_hash.clone(), prev_out_index: input.prev_out_index, signature });
        i = i + 1;
    }
    let tx = Tx { inputs, outputs: unsigned.outputs };
    proof {
        lemma_ins_unsigned(tx.inputs@, unsigned.inputs@);
        lemma_ins_unsigned(unsigned.inputs@, unsigned.inputs@);
        assert(enc_tx_unsigned(tx) == enc_tx(unsigned));
    }
    Ok(tx)
}

} // verus!
