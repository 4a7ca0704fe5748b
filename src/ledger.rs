//! The unspent-output index: which outputs an address may still spend,
//! derived by replaying the chain.

use crate::codec::{enc_tx, encode_tx};
use crate::consensus::reward_at;
use crate::hashing::{hex_of, hex_string, sha256, sha256_of};
use crate::model::{key_of, str_eq, Block, Tx, TxIn, TxOut, UtxoKey};
use vstd::prelude::*;

verus! {

/// An output's key: the producing hash and the output's position.
pub type OutKey = (Seq<char>, u64);

/// An output's value: recipient and amount.
pub type Coin = (Seq<char>, u64);

pub open spec fn entry_of(e: (UtxoKey, TxOut)) -> (OutKey, Coin) {
    (key_of(&e.0), (e.1.to@, e.1.amount))
}

pub open spec fn entries_of(v: Seq<(UtxoKey, TxOut)>) -> Seq<(OutKey, Coin)> {
    v.map_values(|e: (UtxoKey, TxOut)| entry_of(e))
}

pub open spec fn keys_of(v: Seq<UtxoKey>) -> Seq<OutKey> {
    v.map_values(|k: UtxoKey| key_of(&k))
}

proof fn lemma_keys_push(v: Seq<UtxoKey>, x: UtxoKey)
    ensures
        keys_of(v.push(x)) == keys_of(v).push(key_of(&x)),
{
    assert(keys_of(v.push(x)) =~= keys_of(v).push(key_of(&x)));
}

proof fn lemma_entries_push(v: Seq<(UtxoKey, TxOut)>, x: (UtxoKey, TxOut))
    ensures
        entries_of(v.push(x)) == entries_of(v).push(entry_of(x)),
{
    assert(entries_of(v.push(x)) =~= entries_of(v).push(entry_of(x)));
}

/// The hash of a transaction: the hex digest of its encoding.
pub open spec fn tx_hash_of(t: Tx) -> Seq<char> {
    hex_of(sha256_of(enc_tx(t)))
}

/// The outputs among `outs` that pay `addr`, keyed by `h` and position.
pub open spec fn outs_to(h: Seq<char>, outs: Seq<TxOut>, addr: Seq<char>) -> Seq<(OutKey, Coin)>
    decreases outs.len(),
{
    if outs.len() == 0 {
        Seq::empty()
    } else {
        let rest = outs_to(h, outs.drop_last(), addr);
        let o = outs.last();
        if o.to@ == addr {
            rest.push(((h, (outs.len() - 1) as u64), (o.to@, o.amount)))
        } else {
            rest
        }
    }
}

/// The outputs of the transactions `txs` that pay `addr`, in order.
pub open spec fn txs_to(txs: Seq<Tx>, addr: Seq<char>) -> Seq<(OutKey, Coin)>
    decreases txs.len(),
{
    if txs.len() == 0 {
        Seq::empty()
    } else {
        txs_to(txs.drop_last(), addr) + outs_to(tx_hash_of(txs.last()), txs.last().outputs@, addr)
    }
}

/// What a block pays `addr`: its coinbase, keyed by the block's hash and
/// position zero, then its transactions' outputs.
pub open spec fn block_to(b: Block, addr: Seq<char>) -> Seq<(OutKey, Coin)> {
    (if b.coinbase.to@ == addr {
        seq![((b.hash@, 0u64), (b.coinbase.to@, b.coinbase.amount))]
    } else {
        Seq::empty()
    }) + txs_to(b.txs@, addr)
}

/// Every output that the chain pays `addr`, in chain order.
pub open spec fn produced_to(c: Seq<Block>, addr: Seq<char>) -> Seq<(OutKey, Coin)>
    decreases c.len(),
{
    if c.len() == 0 {
        Seq::empty()
    } else {
        produced_to(c.drop_last(), addr) + block_to(c.last(), addr)
    }
}

pub open spec fn ins_keys(ins: Seq<TxIn>) -> Seq<OutKey>
    decreases ins.len(),
{
    if ins.len() == 0 {
        Seq::empty()
    } else {
        ins_keys(ins.drop_last()).push((ins.last().prev_tx_hash@, ins.last().prev_out_index))
    }
}

pub open spec fn txs_keys(txs: Seq<Tx>) -> Seq<OutKey>
    decreases txs.len(),
{
    if txs.len() == 0 {
        Seq::empty()
    } else {
        txs_keys(txs.drop_last()) + ins_keys(txs.last().inputs@)
    }
}

/// Every output key that some input of the chain refers to.
pub open spec fn spent_keys(c: Seq<Block>) -> Seq<OutKey>
    decreases c.len(),
{
    if c.len() == 0 {
        Seq::empty()
    } else {
        spent_keys(c.drop_last()) + txs_keys(c.last().txs@)
    }
}

pub open spec fn has_key(l: Seq<(OutKey, Coin)>, k: OutKey) -> bool {
    exists|j: int| 0 <= j < l.len() && (#[trigger] l[j]).0 == k
}

pub open spec fn keys_unique(l: Seq<(OutKey, Coin)>) -> bool {
    forall|i: int, j: int| 0 <= i < j < l.len() ==> (#[trigger] l[i]).0 != (#[trigger] l[j]).0
}

/// Records `e`: in place of the entry with its key, or at the end.
pub open spec fn upsert(l: Seq<(OutKey, Coin)>, e: (OutKey, Coin)) -> Seq<(OutKey, Coin)> {
    if has_key(l, e.0) {
        l.map_values(|x: (OutKey, Coin)| if x.0 == e.0 { e } else { x })
    } else {
        l.push(e)
    }
}

/// One entry per key, in the order keys first appear, with the value that
/// came last.
pub open spec fn collect(s: Seq<(OutKey, Coin)>) -> Seq<(OutKey, Coin)>
    decreases s.len(),
{
    if s.len() == 0 {
        Seq::empty()
    } else {
        upsert(collect(s.drop_last()), s.last())
    }
}

/// The entries of `l` whose key is not in `spent`, in order.
pub open spec fn unspent(l: Seq<(OutKey, Coin)>, spent: Seq<OutKey>) -> Seq<(OutKey, Coin)>
    decreases l.len(),
{
    if l.len() == 0 {
        Seq::empty()
    } else if spent.contains(l.last().0) {
        unspent(l.drop_last(), spent)
    } else {
        unspent(l.drop_last(), spent).push(l.last())
    }
}

/// The outputs that `addr` may spend after the chain `c`.
pub open spec fn utxos_of(c: Seq<Block>, addr: Seq<char>) -> Seq<(OutKey, Coin)> {
    unspent(collect(produced_to(c, addr)), spent_keys(c))
}

/// The sum of the amounts of `l`.
pub open spec fn total(l: Seq<(OutKey, Coin)>) -> nat
    decreases l.len(),
{
    if l.len() == 0 {
        0
    } else {
        total(l.drop_last()) + l.last().1.1 as nat
    }
}

/// The balance of `addr` after the chain `c`.
pub open spec fn balance_of(c: Seq<Block>, addr: Seq<char>) -> nat {
    total(utxos_of(c, addr))
}

/// The hash of a transaction.
pub fn tx_hash(t: &Tx) -> (r: String)
    ensures
        r@ == tx_hash_of(*t),
{
    let bytes = encode_tx(t);
    let digest = sha256(bytes.as_slice());
    hex_string(digest.as_slice())
}

fn copy_out(o: &TxOut) -> (r: TxOut)
    ensures
        r.to@ == o.to@,
        r.amount == o.amount,
{
    TxOut { to: o.to.clone(), amount: o.amount }
}

/// The outputs of a block that pay `addr`, in order.
fn block_entries(b: &Block, addr: &str) -> (r: Vec<(UtxoKey, TxOut)>)
    ensures
        entries_of(r@) == block_to(*b, addr@),
{
    let mut out: Vec<(UtxoKey, TxOut)> = Vec::new();
    if str_eq(b.coinbase.to.as_str(), addr) {
        out.push((UtxoKey { tx_hash: b.hash.clone(), index: 0 }, copy_out(&b.coinbase)));
    }
    let ghost head = entries_of(out@);
    proof {
        assert(head =~= (if b.coinbase.to@ == addr@ {
            seq![((b.hash@, 0u64), (b.coinbase.to@, b.coinbase.amount))]
        } else {
            Seq::empty()
        }));
    }
    let mut j: usize = 0;
    while j < b.txs.len()
        invariant
            j <= b.txs@.len(),
            entries_of(out@) == head + txs_to(b.txs@.subrange(0, j as int), addr@),
        decreases b.txs@.len() - j,
    {
        let tx = &b.txs[j];
        let h = tx_hash(tx);
        let ghost before = entries_of(out@);
        let mut k: usize = 0;
        while k < tx.outputs.len()
            invariant
                k <= tx.outputs@.len(),
                entries_of(out@) == before + outs_to(h@, tx.outputs@.subrange(0, k as int), addr@),
            decreases tx.outputs@.len() - k,
        {
            let o = &tx.outputs[k];
            proof {
                assert(tx.outputs@.subrange(0, k + 1).drop_last() =~= tx.outputs@.subrange(0, k as int));
                assert(tx.outputs@.subrange(0, k + 1).last() == tx.outputs@[k as int]);
            }
            let ghost sub = tx.outputs@.subrange(0, k + 1);
            if str_eq(o.to.as_str(), addr) {
                let e = (UtxoKey { tx_hash: h.clone(), index: k as u64 }, copy_out(o));
                proof {
                    assert(entry_of(e) == ((h@, (sub.len() - 1) as u64), (sub.last().to@, sub.last().amount)));
                    lemma_entries_push(out@, e);
                }
                out.push(e);
            }
            proof {
                assert(outs_to(h@, sub, addr@) == (if sub.last().to@ == addr@ {
                    outs_to(h@, sub.drop_last(), addr@).push(((h@, (sub.len() - 1) as u64), (sub.last().to@, sub.last().amount)))
                } else {
                    outs_to(h@, sub.drop_last(), addr@)
                }));
            }
            k = k + 1;
            proof {
                assert(entries_of(out@) =~= before + outs_to(h@, tx.outputs@.subrange(0, k as int), addr@));
            }
        }
        proof {
            assert(tx.outputs@.subrange(0, tx.outputs@.len() as int) =~= tx.outputs@);
            assert(b.txs@.subrange(0, j + 1).drop_last() =~= b.txs@.subrange(0, j as int));
        }
        j = j + 1;
        proof {
            assert(entries_of(out@) =~= head + txs_to(b.txs@.subrange(0, j as int), addr@));
        }
    }
    proof {
        assert(b.txs@.subrange(0, b.txs@.len() as int) =~= b.txs@);
    }
    out
}

/// Appends the keys that the inputs of a block refer to.
fn push_block_spends(spent: &mut Vec<UtxoKey>, b: &Block)
    ensures
        keys_of(final(spent)@) == keys_of(old(spent)@) + txs_keys(b.txs@),
{
    let ghost start = keys_of(spent@);
    let mut j: usize = 0;
    while j < b.txs.len()
        invariant
            j <= b.txs@.len(),
            start == keys_of(old(spent)@),
            keys_of(spent@) == start + txs_keys(b.txs@.subrange(0, j as int)),
        decreases b.txs@.len() - j,
    {
        let tx = &b.txs[j];
        let ghost before = keys_of(spent@);
        let mut k: usize = 0;
        while k < tx.inputs.len()
            invariant
                k <= tx.inputs@.len(),
                keys_of(spent@) == before + ins_keys(tx.inputs@.subrange(0, k as int)),
            decreases tx.inputs@.len() - k,
        {
            let i = &tx.inputs[k];
            let key = UtxoKey { tx_hash: i.prev_tx_hash.clone(), index: i.prev_out_index };
            proof {
                assert(key_of(&key) == (i.prev_tx_hash@, i.prev_out_index));
            }
            let ghost prev = spent@;
            spent.push(key);
            proof {
                lemma_keys_push(prev, key);
                assert(keys_of(spent@) =~= before + ins_keys(tx.inputs@.subrange(0, k as int)).push(key_of(&key)));
            }
            proof {
                assert(tx.inputs@.subrange(0, k + 1).drop_last() =~= tx.inputs@.subrange(0, k as int));
                assert(tx.inputs@.subrange(0, k + 1).last() == tx.inputs@[k as int]);
            }
            k = k + 1;
            proof {
                assert(keys_of(spent@) =~= before + ins_keys(tx.inputs@.subrange(0, k as int)));
            }
        }
        proof {
            assert(tx.inputs@.subrange(0, tx.inputs@.len() as int) =~= tx.inputs@);
            assert(b.txs@.subrange(0, j + 1).drop_last() =~= b.txs@.subrange(0, j as int));
        }
        j = j + 1;
        proof {
            assert(keys_of(spent@) =~= start + txs_keys(b.txs@.subrange(0, j as int)));
        }
    }
    proof {
        assert(b.txs@.subrange(0, b.txs@.len() as int) =~= b.txs@);
    }
}

proof fn lemma_upsert_unique(l: Seq<(OutKey, Coin)>, e: (OutKey, Coin))
    requires
        keys_unique(l),
    ensures
        keys_unique(upsert(l, e)),
{
}

proof fn lemma_collect_unique(s: Seq<(OutKey, Coin)>)
    ensures
        keys_unique(collect(s)),
    decreases s.len(),
{
    if s.len() > 0 {
        lemma_collect_unique(s.drop_last());
        lemma_upsert_unique(collect(s.drop_last()), s.last());
    }
}

/// Records `e` among `utxos`, in place of the entry with the same key.
fn upsert_entry(utxos: &mut Vec<(UtxoKey, TxOut)>, e: (UtxoKey, TxOut))
    requires
        keys_unique(entries_of(old(utxos)@)),
    ensures
        entries_of(final(utxos)@) == upsert(entries_of(old(utxos)@), entry_of(e)),
{
    let ghost l = entries_of(utxos@);
    let mut i: usize = 0;
    while i < utxos.len()
        invariant
            i <= utxos@.len(),
            l == entries_of(utxos@),
            utxos@ == old(utxos)@,
            keys_unique(l),
            forall|t: int| 0 <= t < i ==> (#[trigger] l[t]).0 != key_of(&e.0),
        decreases utxos@.len() - i,
    {
        if utxos[i].0.same_as(&e.0) {
            utxos[i] = e;
            proof {
                assert(l[i as int].0 == entry_of(e).0);
                assert(has_key(l, entry_of(e).0));
                let u = upsert(l, entry_of(e));
                assert forall|t: int| 0 <= t < l.len() implies #[trigger] entries_of(utxos@)[t] == u[t] by {
                    if t < i {
                        assert(l[t].0 != l[i as int].0);
                    } else if t > i {
                        assert(l[i as int].0 != l[t].0);
                    }
                }
                assert(entries_of(utxos@) =~= u);
            }
            return;
        }
        i = i + 1;
    }
    utxos.push(e);
    proof {
        assert(!has_key(l, entry_of(e).0));
        assert(entries_of(utxos@) =~= upsert(l, entry_of(e)));
    }
}

/// Records each entry of `fresh` in turn.
fn absorb(utxos: &mut Vec<(UtxoKey, TxOut)>, fresh: &Vec<(UtxoKey, TxOut)>, Ghost(base): Ghost<Seq<(OutKey, Coin)>>)
    requires
        entries_of(old(utxos)@) == collect(base),
    ensures
        entries_of(final(utxos)@) == collect(base + entries_of(fresh@)),
{
    let mut k: usize = 0;
    proof {
        assert(base + entries_of(fresh@).subrange(0, 0) =~= base);
    }
    while k < fresh.len()
        invariant
            k <= fresh@.len(),
            entries_of(utxos@) == collect(base + entries_of(fresh@).subrange(0, k as int)),
        decreases fresh@.len() - k,
    {
        let e = &fresh[k];
        let copy = (UtxoKey { tx_hash: e.0.tx_hash.clone(), index: e.0.index }, copy_out(&e.1));
        proof {
            lemma_collect_unique(base + entries_of(fresh@).subrange(0, k as int));
            let s = base + entries_of(fresh@).subrange(0, k + 1);
            assert(s.drop_last() =~= base + entries_of(fresh@).subrange(0, k as int));
            assert(s.last() == entry_of(copy));
        }
        upsert_entry(utxos, copy);
        k = k + 1;
    }
    proof {
        assert(entries_of(fresh@).subrange(0, fresh@.len() as int) =~= entries_of(fresh@));
    }
}

/// Whether some key of `spent` is `k`.
fn is_spent(spent: &Vec<UtxoKey>, k: &UtxoKey) -> (r: bool)
    ensures
        r == keys_of(spent@).contains(key_of(k)),
{
    let mut i: usize = 0;
    while i < spent.len()
        invariant
            i <= spent@.len(),
            forall|t: int| 0 <= t < i ==> (#[trigger] keys_of(spent@)[t]) != key_of(k),
        decreases spent@.len() - i,
    {
        if spent[i].same_as(k) {
            proof {
                assert(keys_of(spent@)[i as int] == key_of(k));
            }
            return true;
        }
        i = i + 1;
    }
    false
}

/// The outputs that `address` may spend after `chain`: each output paid to
/// it, once per key in the order keys first appear, that no input of the
/// chain refers to.
pub fn get_utxos(chain: &[Block], address: &str) -> (r: Vec<(UtxoKey, TxOut)>)
    ensures
        entries_of(r@) == utxos_of(chain@, address@),
{
    let mut utxos: Vec<(UtxoKey, TxOut)> = Vec::new();
    let mut spent: Vec<UtxoKey> = Vec::new();
    let mut i: usize = 0;
    proof {
        assert(entries_of(utxos@) =~= Seq::<(OutKey, Coin)>::empty());
        assert(keys_of(spent@) =~= Seq::<OutKey>::empty());
    }
    while i < chain.len()
        invariant
            i <= chain@.len(),
            entries_of(utxos@) == collect(produced_to(chain@.subrange(0, i as int), address@)),
            keys_of(spent@) == spent_keys(chain@.subrange(0, i as int)),
        decreases chain@.len() - i,
    {
        let b = &chain[i];
        let fresh = block_entries(b, address);
        let ghost base = produced_to(chain@.subrange(0, i as int), address@);
        absorb(&mut utxos, &fresh, Ghost(base));
        push_block_spends(&mut spent, b);
        proof {
            let c = chain@.subrange(0, i + 1);
            assert(c.drop_last() =~= chain@.subrange(0, i as int));
            assert(c.last() == chain@[i as int]);
        }
        i = i + 1;
    }
    proof {
        assert(chain@.subrange(0, chain@.len() as int) =~= chain@);
    }
    let ghost all = entries_of(utxos@);
    let mut result: Vec<(UtxoKey, TxOut)> = Vec::new();
    let mut j: usize = 0;
    proof {
        assert(entries_of(result@) =~= Seq::<(OutKey, Coin)>::empty());
    }
    while j < utxos.len()
        invariant
            j <= utxos@.len(),
            all == entries_of(utxos@),
            entries_of(result@) == unspent(all.subrange(0, j as int), keys_of(spent@)),
        decreases utxos@.len() - j,
    {
        let e = &utxos[j];
        proof {
            assert(all.subrange(0, j + 1).drop_last() =~= all.subrange(0, j as int));
        }
        if !is_spent(&spent, &e.0) {
            result.push((UtxoKey { tx_hash: e.0.tx_hash.clone(), index: e.0.index }, copy_out(&e.1)));
            proof {
                assert(entries_of(result@) =~= unspent(all.subrange(0, j + 1), keys_of(spent@)));
            }
        }
        j = j + 1;
    }
    proof {
        assert(all.subrange(0, all.len() as int) =~= all);
    }
    result
}

proof fn lemma_total_bound(l: Seq<(OutKey, Coin)>)
    ensures
        total(l) <= l.len() * (u64::MAX as nat),
    decreases l.len(),
{
    if l.len() > 0 {
        lemma_total_bound(l.drop_last());
        assert(total(l) <= l.len() * (u64::MAX as nat)) by (nonlinear_arith)
            requires
                total(l) == total(l.drop_last()) + l.last().1.1 as nat,
                total(l.drop_last()) <= l.drop_last().len() * (u64::MAX as nat),
                l.drop_last().len() + 1 == l.len(),
                l.last().1.1 <= u64::MAX,
        ;
    }
}

/// The balance of `address` after `chain`: the sum of the amounts of its
/// unspent outputs.
pub fn get_balance(chain: &[Block], address: &str) -> (r: u128)
    ensures
        r == balance_of(chain@, address@),
{
    let utxos = get_utxos(chain, address);
    let ghost l = entries_of(utxos@);
    let mut sum: u128 = 0;
    let mut i: usize = 0;
    while i < utxos.len()
        invariant
            i <= utxos@.len(),
            l == entries_of(utxos@),
            l == utxos_of(chain@, address@),
            sum == total(l.subrange(0, i as int)),
        decreases utxos@.len() - i,
    {
        proof {
            let s = l.subrange(0, i + 1);
            assert(s.drop_last() =~= l.subrange(0, i as int));
            lemma_total_bound(s);
            assert(s.len() * (u64::MAX as nat) < u128::MAX) by (nonlinear_arith)
                requires
                    s.len() <= usize::MAX,
            ;
        }
        sum = sum + utxos[i].1.amount as u128;
        i = i + 1;
    }
    proof {
        assert(l.subrange(0, l.len() as int) =~= l);
    }
    sum
}

proof fn lemma_collect_from(s: Seq<(OutKey, Coin)>)
    ensures
        forall|e: (OutKey, Coin)| #[trigger] collect(s).contains(e) ==> s.contains(e),
        forall|j: int| 0 <= j < s.len() ==> has_key(collect(s), (#[trigger] s[j]).0),
    decreases s.len(),
{
    if s.len() > 0 {
        let p = s.drop_last();
        let c = collect(p);
        let e = s.last();
        lemma_collect_from(p);
        assert forall|x: (OutKey, Coin)| #[trigger] collect(s).contains(x) implies s.contains(x) by {
            let k = choose|k: int| 0 <= k < collect(s).len() && collect(s)[k] == x;
            if x != e {
                if has_key(c, e.0) {
                    assert(c.contains(x)) by {
                        assert(c[k] == x);
                    }
                } else {
                    assert(c.contains(x)) by {
                        assert(c[k] == x);
                    }
                }
                let m = choose|m: int| 0 <= m < p.len() && p[m] == x;
                assert(s[m] == x);
            } else {
                assert(s[s.len() - 1] == x);
            }
        }
        assert forall|j: int| 0 <= j < s.len() implies has_key(collect(s), (#[trigger] s[j]).0) by {
            if j < p.len() {
                assert(p[j] == s[j]);
                let w = choose|w: int| 0 <= w < c.len() && (#[trigger] c[w]).0 == s[j].0;
                assert(collect(s)[w].0 == s[j].0);
            } else {
                if has_key(c, e.0) {
                    let w = choose|w: int| 0 <= w < c.len() && (#[trigger] c[w]).0 == e.0;
                    assert(collect(s)[w].0 == e.0);
                } else {
                    assert(collect(s)[c.len() as int] == e);
                }
            }
        }
    }
}

proof fn lemma_unspent(l: Seq<(OutKey, Coin)>, spent: Seq<OutKey>)
    ensures
        forall|e: (OutKey, Coin)| #[trigger] unspent(l, spent).contains(e) ==> l.contains(e) && !spent.contains(e.0),
        forall|j: int| 0 <= j < l.len() && !spent.contains((#[trigger] l[j]).0) ==> unspent(l, spent).contains(l[j]),
        keys_unique(l) ==> keys_unique(unspent(l, spent)),
    decreases l.len(),
{
    if l.len() > 0 {
        let p = l.drop_last();
        let u = unspent(p, spent);
        lemma_unspent(p, spent);
        assert forall|e: (OutKey, Coin)| #[trigger] unspent(l, spent).contains(e) implies l.contains(e) && !spent.contains(e.0) by {
            let k = choose|k: int| 0 <= k < unspent(l, spent).len() && unspent(l, spent)[k] == e;
            if k < u.len() {
                assert(u[k] == e);
                assert(u.contains(e));
                let m = choose|m: int| 0 <= m < p.len() && p[m] == e;
                assert(l[m] == e);
            } else {
                assert(l[l.len() - 1] == e);
            }
        }
        assert forall|j: int| 0 <= j < l.len() && !spent.contains((#[trigger] l[j]).0) implies unspent(l, spent).contains(l[j]) by {
            if j < p.len() {
                assert(p[j] == l[j]);
                let w = choose|w: int| 0 <= w < u.len() && u[w] == l[j];
                assert(unspent(l, spent)[w] == l[j]);
            } else {
                assert(unspent(l, spent)[u.len() as int] == l[j]);
            }
        }
        if keys_unique(l) {
            assert(keys_unique(p));
            if !spent.contains(l.last().0) {
                let r = unspent(l, spent);
                assert forall|i: int, j: int| 0 <= i < j < r.len() implies (#[trigger] r[i]).0 != (#[trigger] r[j]).0 by {
                    if j == u.len() {
                        assert(u.contains(r[i])) by {
                            assert(u[i] == r[i]);
                        }
                        let m = choose|m: int| 0 <= m < p.len() && p[m] == r[i];
                        assert(l[m] == r[i]);
                    } else {
                        assert(u[i] == r[i] && u[j] == r[j]);
                    }
                }
            }
        }
    }
}

/// The balance of an address is the sum of the amounts of its unspent
/// outputs, one per key: the entries summed have distinct keys, each is an
/// output that the chain pays the address whose key no input refers to, and
/// every such output's key is among them.
pub proof fn lemma_balance_counts_unspent(c: Seq<Block>, addr: Seq<char>)
    ensures
        balance_of(c, addr) == total(utxos_of(c, addr)),
        keys_unique(utxos_of(c, addr)),
        forall|e: (OutKey, Coin)| #[trigger]
            utxos_of(c, addr).contains(e) ==> produced_to(c, addr).contains(e) && !spent_keys(
                c,
            ).contains(e.0),
        forall|j: int|
            0 <= j < produced_to(c, addr).len() && !spent_keys(c).contains(
                (#[trigger] produced_to(c, addr)[j]).0,
            ) ==> has_key(utxos_of(c, addr), produced_to(c, addr)[j].0),
{
    let s = produced_to(c, addr);
    let sp = spent_keys(c);
    lemma_collect_unique(s);
    lemma_collect_from(s);
    lemma_unspent(collect(s), sp);
    assert forall|j: int| 0 <= j < s.len() && !sp.contains((#[trigger] s[j]).0) implies has_key(
        utxos_of(c, addr),
        s[j].0,
    ) by {
        let w = choose|w: int| 0 <= w < collect(s).len() && (#[trigger] collect(s)[w]).0 == s[j].0;
        assert(unspent(collect(s), sp).contains(collect(s)[w]));
        let v = choose|v: int| 0 <= v < utxos_of(c, addr).len() && utxos_of(c, addr)[v] == collect(s)[w];
        assert(utxos_of(c, addr)[v].0 == s[j].0);
    }
}

/// A block without transactions, whose coinbase pays `addr` under a key
/// that the chain has neither produced for `addr` nor spent, raises the
/// balance of `addr` by exactly the coinbase amount.
pub proof fn lemma_coinbase_raises_balance(c: Seq<Block>, b: Block, addr: Seq<char>)
    requires
        b.txs@.len() == 0,
        b.coinbase.to@ == addr,
        forall|j: int|
            0 <= j < produced_to(c, addr).len() ==> (#[trigger] produced_to(c, addr)[j]).0 != (
                b.hash@,
                0u64,
            ),
        !spent_keys(c).contains((b.hash@, 0u64)),
    ensures
        balance_of(c.push(b), addr) == balance_of(c, addr) + b.coinbase.amount,
{
    let e = ((b.hash@, 0u64), (b.coinbase.to@, b.coinbase.amount));
    let s = produced_to(c, addr);
    let c2 = c.push(b);
    assert(c2.drop_last() =~= c);
    assert(txs_to(b.txs@, addr) =~= Seq::<(OutKey, Coin)>::empty());
    assert(txs_keys(b.txs@) =~= Seq::<OutKey>::empty());
    assert(block_to(b, addr) =~= seq![e]);
    assert(produced_to(c2, addr) =~= s.push(e));
    assert(spent_keys(c2) =~= spent_keys(c));
    lemma_collect_from(s);
    if has_key(collect(s), e.0) {
        let w = choose|w: int| 0 <= w < collect(s).len() && (#[trigger] collect(s)[w]).0 == e.0;
        assert(collect(s).contains(collect(s)[w]));
    }
    assert(s.push(e).drop_last() =~= s);
    assert(collect(s.push(e)) == collect(s).push(e));
    let l = collect(s).push(e);
    assert(l.drop_last() =~= collect(s));
    assert(unspent(l, spent_keys(c)) == unspent(collect(s), spent_keys(c)).push(e));
    let u = unspent(collect(s), spent_keys(c));
    assert(u.push(e).drop_last() =~= u);
}

proof fn lemma_ins_keys_has(ins: Seq<TxIn>, m: int)
    requires
        0 <= m < ins.len(),
    ensures
        ins_keys(ins).contains((ins[m].prev_tx_hash@, ins[m].prev_out_index)),
    decreases ins.len(),
{
    let k = (ins[m].prev_tx_hash@, ins[m].prev_out_index);
    if m == ins.len() - 1 {
        assert(ins_keys(ins)[ins_keys(ins).len() - 1] == k);
    } else {
        assert(ins.drop_last()[m] == ins[m]);
        lemma_ins_keys_has(ins.drop_last(), m);
        let w = choose|w: int| 0 <= w < ins_keys(ins.drop_last()).len() && ins_keys(ins.drop_last())[w] == k;
        assert(ins_keys(ins)[w] == k);
    }
}

proof fn lemma_txs_keys_has(txs: Seq<Tx>, j: int, m: int)
    requires
        0 <= j < txs.len(),
        0 <= m < txs[j].inputs@.len(),
    ensures
        txs_keys(txs).contains((txs[j].inputs@[m].prev_tx_hash@, txs[j].inputs@[m].prev_out_index)),
    decreases txs.len(),
{
    let k = (txs[j].inputs@[m].prev_tx_hash@, txs[j].inputs@[m].prev_out_index);
    let p = txs_keys(txs.drop_last());
    let q = ins_keys(txs.last().inputs@);
    if j == txs.len() - 1 {
        lemma_ins_keys_has(txs.last().inputs@, m);
        let w = choose|w: int| 0 <= w < q.len() && q[w] == k;
        assert((p + q)[p.len() + w] == k);
    } else {
        assert(txs.drop_last()[j] == txs[j]);
        lemma_txs_keys_has(txs.drop_last(), j, m);
        let w = choose|w: int| 0 <= w < p.len() && p[w] == k;
        assert((p + q)[w] == k);
    }
}

/// Once a block holding a transaction is appended, no address can spend
/// an output that one of the transaction's inputs names.
pub proof fn lemma_spent_outputs_leave(c: Seq<Block>, b: Block, addr: Seq<char>, j: int, m: int)
    requires
        0 <= j < b.txs@.len(),
        0 <= m < b.txs@[j].inputs@.len(),
    ensures
        !has_key(
            utxos_of(c.push(b), addr),
            (b.txs@[j].inputs@[m].prev_tx_hash@, b.txs@[j].inputs@[m].prev_out_index),
        ),
{
    let c2 = c.push(b);
    let k = (b.txs@[j].inputs@[m].prev_tx_hash@, b.txs@[j].inputs@[m].prev_out_index);
    assert(c2.drop_last() =~= c);
    lemma_txs_keys_has(b.txs@, j, m);
    let sp = spent_keys(c2);
    let p = spent_keys(c);
    let q = txs_keys(b.txs@);
    let w = choose|w: int| 0 <= w < q.len() && q[w] == k;
    assert(sp[p.len() + w] == k);
    assert(sp.contains(k));
    lemma_unspent(collect(produced_to(c2, addr)), sp);
    let u = utxos_of(c2, addr);
    if has_key(u, k) {
        let v = choose|v: int| 0 <= v < u.len() && (#[trigger] u[v]).0 == k;
        assert(u.contains(u[v]));
    }
}

/// Mining adds the reward at the new height to the miner's balance: a block
/// that follows `c` without transactions and whose coinbase pays `addr` the
/// reward at its height, under a key the chain has neither produced for
/// `addr` nor spent, raises that balance by exactly that reward.
pub proof fn lemma_mined_reward_adds_to_balance(
    c: Seq<Block>,
    b: Block,
    addr: Seq<char>,
    base: u64,
    interval: u64,
)
    requires
        b.index == c.len(),
        b.txs@.len() == 0,
        b.coinbase.to@ == addr,
        b.coinbase.amount == reward_at(base, interval, b.index),
        forall|j: int|
            0 <= j < produced_to(c, addr).len() ==> (#[trigger] produced_to(c, addr)[j]).0 != (
                b.hash@,
                0u64,
            ),
        !spent_keys(c).contains((b.hash@, 0u64)),
    ensures
        balance_of(c.push(b), addr) == balance_of(c, addr) + reward_at(base, interval, c.len() as u64),
{
    lemma_coinbase_raises_balance(c, b, addr);
}

} // verus!
