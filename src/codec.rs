//! The binary chain format: fixed-width little-endian integers, and
//! sequences and strings prefixed by their length as a 64-bit integer.

use crate::hashing::string_from_utf8;
use crate::model::{Block, Tx, TxIn, TxOut};
use vstd::prelude::*;
use vstd::utf8::*;

verus! {

/// The `n` low bytes of `v`, least significant first.
pub open spec fn le_bytes(v: nat, n: nat) -> Seq<u8>
    decreases n,
{
    if n == 0 {
        Seq::empty()
    } else {
        seq![(v % 256) as u8] + le_bytes(v / 256, (n - 1) as nat)
    }
}

pub open spec fn enc_u64(v: nat) -> Seq<u8> {
    le_bytes(v, 8)
}

pub open spec fn enc_bytes(b: Seq<u8>) -> Seq<u8> {
    enc_u64(b.len()) + b
}

pub open spec fn enc_str(s: Seq<char>) -> Seq<u8> {
    enc_bytes(encode_utf8(s))
}

pub open spec fn enc_out(o: TxOut) -> Seq<u8> {
    enc_str(o.to@) + enc_u64(o.amount as nat)
}

pub open spec fn enc_in(i: TxIn) -> Seq<u8> {
    enc_str(i.prev_tx_hash@) + enc_u64(i.prev_out_index as nat) + enc_bytes(i.signature@)
}

pub open spec fn enc_outs(s: Seq<TxOut>) -> Seq<u8>
    decreases s.len(),
{
    if s.len() == 0 {
        Seq::empty()
    } else {
        enc_outs(s.drop_last()) + enc_out(s.last())
    }
}

pub open spec fn enc_ins(s: Seq<TxIn>) -> Seq<u8>
    decreases s.len(),
{
    if s.len() == 0 {
        Seq::empty()
    } else {
        enc_ins(s.drop_last()) + enc_in(s.last())
    }
}

/// The encoding of a transaction.
pub open spec fn enc_tx(t: Tx) -> Seq<u8> {
    enc_u64(t.inputs@.len()) + enc_ins(t.inputs@) + enc_u64(t.outputs@.len()) + enc_outs(
        t.outputs@,
    )
}

pub open spec fn enc_txs(s: Seq<Tx>) -> Seq<u8>
    decreases s.len(),
{
    if s.len() == 0 {
        Seq::empty()
    } else {
        enc_txs(s.drop_last()) + enc_tx(s.last())
    }
}

/// The encoding of a block.
pub open spec fn enc_block(b: Block) -> Seq<u8> {
    enc_u64(b.index as nat) + enc_u64(b.timestamp as nat) + enc_str(b.prev_hash@) + enc_str(
        b.hash@,
    ) + enc_u64(b.nonce as nat) + le_bytes(b.difficulty as nat, 4) + enc_u64(b.txs@.len())
        + enc_txs(b.txs@) + enc_out(b.coinbase)
}

pub open spec fn enc_blocks(s: Seq<Block>) -> Seq<u8>
    decreases s.len(),
{
    if s.len() == 0 {
        Seq::empty()
    } else {
        enc_blocks(s.drop_last()) + enc_block(s.last())
    }
}

/// The encoding of a whole chain.
pub open spec fn enc_chain(c: Seq<Block>) -> Seq<u8> {
    enc_u64(c.len()) + enc_blocks(c)
}

fn push_le(out: &mut Vec<u8>, v: u64, n: u8)
    ensures
        final(out)@ == old(out)@ + le_bytes(v as nat, n as nat),
    decreases n,
{
    if n > 0 {
        out.push((v % 256) as u8);
        push_le(out, v / 256, n - 1);
        proof {
            assert(final(out)@ =~= old(out)@ + le_bytes(v as nat, n as nat));
        }
    } else {
        proof {
            assert(final(out)@ =~= old(out)@ + le_bytes(v as nat, n as nat));
        }
    }
}

fn push_u64(out: &mut Vec<u8>, v: u64)
    ensures
        final(out)@ == old(out)@ + enc_u64(v as nat),
{
    push_le(out, v, 8);
}

fn push_len(out: &mut Vec<u8>, n: usize)
    ensures
        final(out)@ == old(out)@ + enc_u64(n as nat),
{
    push_u64(out, n as u64);
}

fn push_byte_string(out: &mut Vec<u8>, b: &[u8])
    ensures
        final(out)@ == old(out)@ + enc_bytes(b@),
{
    push_len(out, b.len());
    crate::hashing::push_bytes(out, b);
    proof {
        assert(final(out)@ =~= old(out)@ + enc_bytes(b@));
    }
}

fn push_str(out: &mut Vec<u8>, s: &str)
    ensures
        final(out)@ == old(out)@ + enc_str(s@),
{
    push_byte_string(out, s.as_bytes());
}

fn push_out(out: &mut Vec<u8>, o: &TxOut)
    ensures
        final(out)@ == old(out)@ + enc_out(*o),
{
    push_str(out, o.to.as_str());
    push_u64(out, o.amount);
    proof {
        assert(final(out)@ =~= old(out)@ + enc_out(*o));
    }
}

fn push_in(out: &mut Vec<u8>, i: &TxIn)
    ensures
        final(out)@ == old(out)@ + enc_in(*i),
{
    push_str(out, i.prev_tx_hash.as_str());
    push_u64(out, i.prev_out_index);
    push_byte_string(out, i.signature.as_slice());
    proof {
        assert(final(out)@ =~= old(out)@ + enc_in(*i));
    }
}

fn push_tx(out: &mut Vec<u8>, t: &Tx)
    ensures
        final(out)@ == old(out)@ + enc_tx(*t),
{
    push_len(out, t.inputs.len());
    let mut i: usize = 0;
    while i < t.inputs.len()
        invariant
            i <= t.inputs@.len(),
            out@ == old(out)@ + enc_u64(t.inputs@.len()) + enc_ins(t.inputs@.subrange(0, i as int)),
        decreases t.inputs@.len() - i,
    {
        push_in(out, &t.inputs[i]);
        proof {
            let s = t.inputs@.subrange(0, i + 1);
            assert(s.drop_last() =~= t.inputs@.subrange(0, i as int));
        }
        i = i + 1;
        proof {
            assert(out@ =~= old(out)@ + enc_u64(t.inputs@.len()) + enc_ins(t.inputs@.subrange(0, i as int)));
        }
    }
    let ghost mid = out@;
    assert(t.inputs@.subrange(0, t.inputs@.len() as int) =~= t.inputs@);
    push_len(out, t.outputs.len());
    let mut j: usize = 0;
    while j < t.outputs.len()
        invariant
            j <= t.outputs@.len(),
            out@ == mid + enc_u64(t.outputs@.len()) + enc_outs(t.outputs@.subrange(0, j as int)),
        decreases t.outputs@.len() - j,
    {
        push_out(out, &t.outputs[j]);
        proof {
            let s = t.outputs@.subrange(0, j + 1);
            assert(s.drop_last() =~= t.outputs@.subrange(0, j as int));
        }
        j = j + 1;
        proof {
            assert(out@ =~= mid + enc_u64(t.outputs@.len()) + enc_outs(t.outputs@.subrange(0, j as int)));
        }
    }
    proof {
        assert(t.outputs@.subrange(0, t.outputs@.len() as int) =~= t.outputs@);
        assert(final(out)@ =~= old(out)@ + enc_tx(*t));
    }
}

fn push_block(out: &mut Vec<u8>, b: &Block)
    ensures
        final(out)@ == old(out)@ + enc_block(*b),
{
    push_u64(out, b.index);
    push_u64(out, b.timestamp);
    push_str(out, b.prev_hash.as_str());
    push_str(out, b.hash.as_str());
    push_u64(out, b.nonce);
    push_le(out, b.difficulty as u64, 4);
    push_len(out, b.txs.len());
    let ghost mid = out@;
    let mut i: usize = 0;
    while i < b.txs.len()
        invariant
            i <= b.txs@.len(),
            out@ == mid + enc_txs(b.txs@.subrange(0, i as int)),
        decreases b.txs@.len() - i,
    {
        push_tx(out, &b.txs[i]);
        proof {
            let s = b.txs@.subrange(0, i + 1);
            assert(s.drop_last() =~= b.txs@.subrange(0, i as int));
        }
        i = i + 1;
        proof {
            assert(out@ =~= mid + enc_txs(b.txs@.subrange(0, i as int)));
        }
    }
    push_out(out, &b.coinbase);
    proof {
        assert(b.txs@.subrange(0, b.txs@.len() as int) =~= b.txs@);
        assert(final(out)@ =~= old(out)@ + enc_block(*b));
    }
}

/// The encoding of a transaction, over which its hash and its signature are
/// computed.
pub fn encode_tx(t: &Tx) -> (r: Vec<u8>)
    ensures
        r@ == enc_tx(*t),
{
    let mut out: Vec<u8> = Vec::new();
    push_tx(&mut out, t);
    proof {
        assert(out@ =~= enc_tx(*t));
    }
    out
}

/// The encoding of a whole chain: what is persisted and what is served to
/// peers.
pub fn encode_chain(chain: &[Block]) -> (r: Vec<u8>)
    ensures
        r@ == enc_chain(chain@),
{
    let mut out: Vec<u8> = Vec::new();
    push_len(&mut out, chain.len());
    let ghost mid = out@;
    let mut i: usize = 0;
    while i < chain.len()
        invariant
            i <= chain@.len(),
            mid == enc_u64(chain@.len()),
            out@ == mid + enc_blocks(chain@.subrange(0, i as int)),
        decreases chain@.len() - i,
    {
        push_block(&mut out, &chain[i]);
        proof {
            let s = chain@.subrange(0, i + 1);
            assert(s.drop_last() =~= chain@.subrange(0, i as int));
        }
        i = i + 1;
        proof {
            assert(out@ =~= mid + enc_blocks(chain@.subrange(0, i as int)));
        }
    }
    proof {
        assert(chain@.subrange(0, chain@.len() as int) =~= chain@);
    }
    out
}

/// `256` to the power `n`.
pub open spec fn pow256(n: nat) -> nat
    decreases n,
{
    if n == 0 {
        1
    } else {
        256 * pow256((n - 1) as nat)
    }
}

/// Reads `n` little-endian bytes at `pos`.
fn read_le(b: &[u8], pos: usize, n: usize) -> (r: u64)
    requires
        n <= 8,
        pos + n <= b@.len(),
    ensures
        (r as nat) < pow256(n as nat),
        le_bytes(r as nat, n as nat) == b@.subrange(pos as int, pos + n),
    decreases n,
{
    if n == 0 {
        proof {
            assert(b@.subrange(pos as int, pos as int) =~= Seq::<u8>::empty());
        }
        0
    } else {
        let len = b.len();
        assert(pos < len);
        let rest = read_le(b, pos + 1, n - 1);
        proof {
            lemma_pow256_values();
            lemma_pow256_mono((n - 1) as nat, 7);
            assert(256 * (rest as nat) + 255 < 0x1_0000_0000_0000_0000) by (nonlinear_arith)
                requires
                    (rest as nat) < pow256((n - 1) as nat),
                    pow256((n - 1) as nat) <= pow256(7),
                    256 * pow256(7) == 0x1_0000_0000_0000_0000,
            ;
        }
        let r = b[pos] as u64 + 256 * rest;
        proof {
            assert(r as nat % 256 == b@[pos as int]);
            assert(r as nat / 256 == rest);
            assert(b@.subrange(pos as int, pos + n) =~= seq![b@[pos as int]] + b@.subrange(
                pos + 1,
                pos + n,
            ));
        }
        r
    }
}

proof fn lemma_pow256_values()
    ensures
        pow256(4) == 0x1_0000_0000,
        pow256(7) == 0x100_0000_0000_0000,
        pow256(8) == 0x1_0000_0000_0000_0000,
{
    reveal_with_fuel(pow256, 9);
}

proof fn lemma_pow256_mono(m: nat, n: nat)
    requires
        m <= n,
    ensures
        pow256(m) <= pow256(n),
    decreases n,
{
    if m < n {
        lemma_pow256_mono(m, (n - 1) as nat);
    }
}

/// Reads a 64-bit integer at `pos`.
fn read_u64(b: &[u8], pos: usize) -> (r: Option<(u64, usize)>)
    requires
        pos <= b@.len(),
    ensures
        r is None <==> b@.len() < pos + 8,
        r matches Some((v, p)) ==> p == pos + 8 && b@.subrange(pos as int, p as int) == enc_u64(
            v as nat,
        ),
{
    if b.len() - pos < 8 {
        None
    } else {
        Some((read_le(b, pos, 8), pos + 8))
    }
}

pub open spec fn has_bytes_at(s: Seq<u8>, pos: int) -> bool {
    exists|v: Seq<u8>| #[trigger] is_at(s, pos, enc_bytes(v))
}

pub open spec fn has_str_at(s: Seq<u8>, pos: int) -> bool {
    exists|t: Seq<char>| #[trigger] is_at(s, pos, enc_str(t))
}

pub open spec fn has_out_at(s: Seq<u8>, pos: int) -> bool {
    exists|o: TxOut| #[trigger] is_at(s, pos, enc_out(o))
}

pub open spec fn has_in_at(s: Seq<u8>, pos: int) -> bool {
    exists|i: TxIn| #[trigger] is_at(s, pos, enc_in(i))
}

pub open spec fn has_tx_at(s: Seq<u8>, pos: int) -> bool {
    exists|t: Tx| #[trigger] is_at(s, pos, enc_tx(t))
}

pub open spec fn has_block_at(s: Seq<u8>, pos: int) -> bool {
    exists|b: Block| #[trigger] is_at(s, pos, enc_block(b))
}

/// Reads a length-prefixed byte string at `pos`.
fn read_bytes(b: &[u8], pos: usize) -> (r: Option<(Vec<u8>, usize)>)
    requires
        pos <= b@.len(),
    ensures
        r matches Some((v, p)) ==> pos <= p <= b@.len() && b@.subrange(pos as int, p as int)
            == enc_bytes(v@),
        has_bytes_at(b@, pos as int) ==> r is Some,
{
    let len = b.len();
    let ghost ok = has_bytes_at(b@, pos as int);
    let ghost w = choose|v: Seq<u8>| is_at(b@, pos as int, enc_bytes(v));
    proof {
        if ok {
            lemma_at_split(b@, pos as int, enc_u64(w.len()), w);
            lemma_le_len(w.len(), 8);
            lemma_len_bound(b@, pos as int, enc_bytes(w), w.len());
        }
    }
    let (n, start) = match read_u64(b, pos) {
        Some(x) => x,
        None => {
            return None;
        },
    };
    proof {
        if ok {
            lemma_le_len(n as nat, 8);
            lemma_pow256_values();
            lemma_u64_at(b@, pos as int, n as nat, w.len());
        }
    }
    if n > (len - start) as u64 {
        return None;
    }
    let end = start + n as usize;
    let mut v: Vec<u8> = Vec::new();
    let mut i: usize = start;
    while i < end
        invariant
            start <= i <= end <= b@.len(),
            v@ == b@.subrange(start as int, i as int),
        decreases end - i,
    {
        v.push(b[i]);
        i = i + 1;
        proof {
            assert(v@ =~= b@.subrange(start as int, i as int));
        }
    }
    proof {
        assert(b@.subrange(pos as int, end as int) =~= b@.subrange(pos as int, start as int) + v@);
    }
    Some((v, end))
}

/// Reads a length-prefixed UTF-8 string at `pos`.
fn read_str(b: &[u8], pos: usize) -> (r: Option<(String, usize)>)
    requires
        pos <= b@.len(),
    ensures
        r matches Some((s, p)) ==> pos <= p <= b@.len() && b@.subrange(pos as int, p as int)
            == enc_str(s@),
        has_str_at(b@, pos as int) ==> r is Some,
{
    let len = b.len();
    let ghost ok = has_str_at(b@, pos as int);
    let ghost w = choose|t: Seq<char>| is_at(b@, pos as int, enc_str(t));
    proof {
        if ok {
            assert(is_at(b@, pos as int, enc_bytes(encode_utf8(w))));
            assert(has_bytes_at(b@, pos as int));
        }
    }
    let (v, p) = match read_bytes(b, pos) {
        Some(x) => x,
        None => {
            return None;
        },
    };
    let ghost bytes = v@;
    proof {
        if ok {
            assert(is_at(b@, pos as int, enc_bytes(bytes)));
            lemma_le_len(bytes.len(), 8);
            lemma_le_len(encode_utf8(w).len(), 8);
            lemma_len_bound(b@, pos as int, enc_bytes(bytes), bytes.len());
            lemma_len_bound(b@, pos as int, enc_bytes(encode_utf8(w)), encode_utf8(w).len());
            lemma_unique_bytes(b@, pos as int, bytes, encode_utf8(w));
            encode_utf8_valid_utf8(w);
        }
    }
    match string_from_utf8(v) {
        Some(s) => {
            proof {
                decode_utf8_encode_utf8(bytes);
            }
            Some((s, p))
        },
        None => None,
    }
}

fn read_out(b: &[u8], pos: usize) -> (r: Option<(TxOut, usize)>)
    requires
        pos <= b@.len(),
    ensures
        r matches Some((o, p)) ==> pos <= p <= b@.len() && b@.subrange(pos as int, p as int)
            == enc_out(o),
        has_out_at(b@, pos as int) ==> r is Some,
{
    let len = b.len();
    let ghost ok = has_out_at(b@, pos as int);
    let ghost w = choose|o: TxOut| is_at(b@, pos as int, enc_out(o));
    proof {
        if ok {
            lemma_at_split(b@, pos as int, enc_str(w.to@), enc_u64(w.amount as nat));
            assert(has_str_at(b@, pos as int));
        }
    }
    let (to, at1) = match read_str(b, pos) {
        Some(x) => x,
        None => {
            return None;
        },
    };
    proof {
        if ok {
            assert(is_at(b@, pos as int, enc_str(to@)));
            lemma_unique_str(b@, pos as int, to@, w.to@);
            lemma_le_len(w.amount as nat, 8);
        }
    }
    let (amount, at2) = match read_u64(b, at1) {
        Some(x) => x,
        None => {
            return None;
        },
    };
    let o = TxOut { to, amount };
    proof {
        assert(b@.subrange(pos as int, at2 as int) =~= b@.subrange(pos as int, at1 as int) + b@.subrange(
            at1 as int,
            at2 as int,
        ));
    }
    Some((o, at2))
}

fn read_in(b: &[u8], pos: usize) -> (r: Option<(TxIn, usize)>)
    requires
        pos <= b@.len(),
    ensures
        r matches Some((i, p)) ==> pos <= p <= b@.len() && b@.subrange(pos as int, p as int)
            == enc_in(i),
        has_in_at(b@, pos as int) ==> r is Some,
{
    let len = b.len();
    let ghost ok = has_in_at(b@, pos as int);
    let ghost w = choose|i: TxIn| is_at(b@, pos as int, enc_in(i));
    let ghost wh = enc_str(w.prev_tx_hash@);
    let ghost wi = enc_u64(w.prev_out_index as nat);
    proof {
        if ok {
            lemma_at_split(b@, pos as int, wh + wi, enc_bytes(w.signature@));
            lemma_at_split(b@, pos as int, wh, wi);
            assert(has_str_at(b@, pos as int));
            lemma_le_len(w.prev_out_index as nat, 8);
        }
    }
    let (prev_tx_hash, at1) = match read_str(b, pos) {
        Some(x) => x,
        None => {
            return None;
        },
    };
    proof {
        if ok {
            assert(is_at(b@, pos as int, enc_str(prev_tx_hash@)));
            lemma_unique_str(b@, pos as int, prev_tx_hash@, w.prev_tx_hash@);
        }
    }
    let (prev_out_index, at2) = match read_u64(b, at1) {
        Some(x) => x,
        None => {
            return None;
        },
    };
    proof {
        if ok {
            assert(has_bytes_at(b@, at2 as int));
        }
    }
    let (signature, at3) = match read_bytes(b, at2) {
        Some(x) => x,
        None => {
            return None;
        },
    };
    let i = TxIn { prev_tx_hash, prev_out_index, signature };
    proof {
        assert(b@.subrange(pos as int, at3 as int) =~= b@.subrange(pos as int, at1 as int) + b@.subrange(
            at1 as int,
            at2 as int,
        ) + b@.subrange(at2 as int, at3 as int));
    }
    Some((i, at3))
}

fn read_tx(b: &[u8], pos: usize) -> (r: Option<(Tx, usize)>)
    requires
        pos <= b@.len(),
    ensures
        r matches Some((t, p)) ==> pos <= p <= b@.len() && b@.subrange(pos as int, p as int)
            == enc_tx(t),
        has_tx_at(b@, pos as int) ==> r is Some,
{
    let len = b.len();
    let ghost ok = has_tx_at(b@, pos as int);
    let ghost w = choose|t: Tx| is_at(b@, pos as int, enc_tx(t));
    let ghost na = enc_u64(w.inputs@.len());
    let ghost ia = enc_ins(w.inputs@);
    let ghost ma = enc_u64(w.outputs@.len());
    let ghost oa = enc_outs(w.outputs@);
    proof {
        if ok {
            lemma_at_split(b@, pos as int, na + ia + ma, oa);
            lemma_at_split(b@, pos as int, na + ia, ma);
            lemma_at_split(b@, pos as int, na, ia);
            lemma_le_len(w.inputs@.len(), 8);
            lemma_le_len(w.outputs@.len(), 8);
            lemma_ins_len(w.inputs@);
            lemma_outs_len(w.outputs@);
            lemma_items_bound(w.inputs@.len(), ia.len(), b@);
            lemma_items_bound(w.outputs@.len(), oa.len(), b@);
        }
    }
    let (n_in, at1) = match read_u64(b, pos) {
        Some(x) => x,
        None => {
            return None;
        },
    };
    proof {
        if ok {
            lemma_le_len(n_in as nat, 8);
            lemma_pow256_values();
            lemma_u64_at(b@, pos as int, n_in as nat, w.inputs@.len());
        }
    }
    let mut inputs: Vec<TxIn> = Vec::new();
    let mut p: usize = at1;
    let mut k: u64 = 0;
    while k < n_in
        invariant
            len == b@.len(),
            at1 <= p <= b@.len(),
            inputs@.len() == k,
            k <= n_in,
            b@.subrange(at1 as int, p as int) == enc_ins(inputs@),
            ok == has_tx_at(b@, pos as int),
            ok ==> n_in == w.inputs@.len() && is_at(b@, at1 as int, enc_ins(w.inputs@)) && enc_ins(
                inputs@,
            ) == enc_ins(w.inputs@.subrange(0, k as int)),
        decreases n_in - k,
    {
        proof {
            if ok {
                lemma_ins_step(b@, at1 as int, w.inputs@, k as int);
                assert(has_in_at(b@, p as int));
            }
        }
        let (i, q) = match read_in(b, p) {
            Some(x) => x,
            None => {
                return None;
            },
        };
        proof {
            if ok {
                assert(is_at(b@, p as int, enc_in(i)));
                lemma_unique_in(b@, p as int, i, w.inputs@[k as int]);
            }
        }
        let ghost prev = inputs@;
        inputs.push(i);
        proof {
            assert(inputs@.drop_last() =~= prev);
            assert(b@.subrange(at1 as int, q as int) =~= b@.subrange(at1 as int, p as int) + b@.subrange(
                p as int,
                q as int,
            ));
        }
        p = q;
        k = k + 1;
    }
    proof {
        if ok {
            assert(w.inputs@.subrange(0, k as int) =~= w.inputs@);
        }
    }
    let (n_out, at2) = match read_u64(b, p) {
        Some(x) => x,
        None => {
            return None;
        },
    };
    proof {
        if ok {
            lemma_le_len(n_out as nat, 8);
            lemma_pow256_values();
            lemma_u64_at(b@, p as int, n_out as nat, w.outputs@.len());
        }
    }
    let mut outputs: Vec<TxOut> = Vec::new();
    let mut at3: usize = at2;
    let mut k: u64 = 0;
    while k < n_out
        invariant
            len == b@.len(),
            at2 <= at3 <= b@.len(),
            outputs@.len() == k,
            k <= n_out,
            b@.subrange(at2 as int, at3 as int) == enc_outs(outputs@),
            ok == has_tx_at(b@, pos as int),
            ok ==> n_out == w.outputs@.len() && is_at(b@, at2 as int, enc_outs(w.outputs@))
                && enc_outs(outputs@) == enc_outs(w.outputs@.subrange(0, k as int)),
        decreases n_out - k,
    {
        proof {
            if ok {
                lemma_outs_step(b@, at2 as int, w.outputs@, k as int);
                assert(has_out_at(b@, at3 as int));
            }
        }
        let (o, q) = match read_out(b, at3) {
            Some(x) => x,
            None => {
                return None;
            },
        };
        proof {
            if ok {
                assert(is_at(b@, at3 as int, enc_out(o)));
                lemma_unique_out(b@, at3 as int, o, w.outputs@[k as int]);
            }
        }
        let ghost prev = outputs@;
        outputs.push(o);
        proof {
            assert(outputs@.drop_last() =~= prev);
            assert(b@.subrange(at2 as int, q as int) =~= b@.subrange(at2 as int, at3 as int) + b@.subrange(
                at3 as int,
                q as int,
            ));
        }
        at3 = q;
        k = k + 1;
    }
    let t = Tx { inputs, outputs };
    proof {
        assert(b@.subrange(pos as int, at3 as int) =~= b@.subrange(pos as int, at1 as int) + b@.subrange(
            at1 as int,
            p as int,
        ) + b@.subrange(p as int, at2 as int) + b@.subrange(at2 as int, at3 as int));
    }
    Some((t, at3))
}

#[verifier::rlimit(100)]
#[verifier::spinoff_prover]
fn read_block(b: &[u8], pos: usize) -> (r: Option<(Block, usize)>)
    requires
        pos <= b@.len(),
    ensures
        r matches Some((blk, p)) ==> pos <= p <= b@.len() && b@.subrange(pos as int, p as int)
            == enc_block(blk),
        has_block_at(b@, pos as int) ==> r is Some,
{
    let len = b.len();
    let ghost ok = has_block_at(b@, pos as int);
    let ghost w = choose|x: Block| is_at(b@, pos as int, enc_block(x));
    let ghost l3 = enc_str(w.prev_hash@).len();
    let ghost l4 = enc_str(w.hash@).len();
    proof {
        lemma_pow256_values();
        if ok {
            lemma_block_split(b@, pos as int, w);
            assert(has_str_at(b@, pos + 16));
        }
    }
    let (index, at1) = match read_u64(b, pos) {
        Some(x) => x,
        None => {
            return None;
        },
    };
    let (timestamp, at2) = match read_u64(b, at1) {
        Some(x) => x,
        None => {
            return None;
        },
    };
    let (prev_hash, at3) = match read_str(b, at2) {
        Some(x) => x,
        None => {
            return None;
        },
    };
    proof {
        if ok {
            assert(is_at(b@, at2 as int, enc_str(prev_hash@)));
            lemma_unique_str(b@, at2 as int, prev_hash@, w.prev_hash@);
            assert(has_str_at(b@, pos + 16 + l3));
        }
    }
    let (hash, at4) = match read_str(b, at3) {
        Some(x) => x,
        None => {
            return None;
        },
    };
    proof {
        if ok {
            assert(is_at(b@, at3 as int, enc_str(hash@)));
            lemma_unique_str(b@, at3 as int, hash@, w.hash@);
        }
    }
    let (nonce, at5) = match read_u64(b, at4) {
        Some(x) => x,
        None => {
            return None;
        },
    };
    if b.len() - at5 < 4 {
        return None;
    }
    let difficulty = read_le(b, at5, 4) as u32;
    let at6 = at5 + 4;
    let (n_tx, at7) = match read_u64(b, at6) {
        Some(x) => x,
        None => {
            return None;
        },
    };
    proof {
        if ok {
            lemma_le_len(n_tx as nat, 8);
            lemma_txs_len(w.txs@);
            lemma_items_bound(w.txs@.len(), enc_txs(w.txs@).len(), b@);
            lemma_u64_at(b@, at6 as int, n_tx as nat, w.txs@.len());
        }
    }
    let mut txs: Vec<Tx> = Vec::new();
    let mut p: usize = at7;
    let mut k: u64 = 0;
    while k < n_tx
        invariant
            len == b@.len(),
            at7 <= p <= b@.len(),
            txs@.len() == k,
            k <= n_tx,
            b@.subrange(at7 as int, p as int) == enc_txs(txs@),
            ok == has_block_at(b@, pos as int),
            ok ==> n_tx == w.txs@.len() && is_at(b@, at7 as int, enc_txs(w.txs@)) && enc_txs(txs@)
                == enc_txs(w.txs@.subrange(0, k as int)),
        decreases n_tx - k,
    {
        proof {
            if ok {
                lemma_txs_step(b@, at7 as int, w.txs@, k as int);
                assert(has_tx_at(b@, p as int));
            }
        }
        let (t, q) = match read_tx(b, p) {
            Some(x) => x,
            None => {
                return None;
            },
        };
        proof {
            if ok {
                assert(is_at(b@, p as int, enc_tx(t)));
                lemma_unique_tx(b@, p as int, t, w.txs@[k as int]);
            }
        }
        let ghost prev = txs@;
        txs.push(t);
        proof {
            assert(txs@.drop_last() =~= prev);
            assert(b@.subrange(at7 as int, q as int) =~= b@.subrange(at7 as int, p as int) + b@.subrange(
                p as int,
                q as int,
            ));
        }
        p = q;
        k = k + 1;
    }
    proof {
        if ok {
            assert(w.txs@.subrange(0, k as int) =~= w.txs@);
            assert(has_out_at(b@, p as int));
        }
    }
    let (coinbase, at8) = match read_out(b, p) {
        Some(x) => x,
        None => {
            return None;
        },
    };
    let blk = Block { index, timestamp, prev_hash, hash, nonce, difficulty, txs, coinbase };
    proof {
        assert(b@.subrange(pos as int, at8 as int) =~= b@.subrange(pos as int, at1 as int) + b@.subrange(
            at1 as int,
            at2 as int,
        ) + b@.subrange(at2 as int, at3 as int) + b@.subrange(at3 as int, at4 as int) + b@.subrange(
            at4 as int,
            at5 as int,
        ) + b@.subrange(at5 as int, at6 as int) + b@.subrange(at6 as int, at7 as int) + b@.subrange(
            at7 as int,
            p as int,
        ) + b@.subrange(p as int, at8 as int));
    }
    Some((blk, at8))
}

/// Reads a whole chain. Bytes that are not exactly one encoded chain give
/// `None`; the encoding of every chain reads back as that same chain.
#[verifier::rlimit(50)]
pub fn decode_chain(b: &[u8]) -> (r: Option<Vec<Block>>)
    ensures
        r matches Some(c) ==> enc_chain(c@) == b@,
        (exists|c: Seq<Block>| enc_chain(c) == b@) ==> r is Some,
        forall|c: Seq<Block>|
            #[trigger] enc_chain(c) == b@ ==> (r matches Some(d) && same_chain(d@, c)),
{
    let len = b.len();
    let ghost ok = exists|c: Seq<Block>| enc_chain(c) == b@;
    let ghost w = choose|c: Seq<Block>| enc_chain(c) == b@;
    proof {
        lemma_pow256_values();
        if ok {
            assert(b@.subrange(0, b@.len() as int) =~= b@);
            assert(is_at(b@, 0, enc_chain(w)));
            lemma_at_split(b@, 0, enc_u64(w.len()), enc_blocks(w));
            lemma_le_len(w.len(), 8);
            lemma_blocks_len(w);
            lemma_items_bound(w.len(), enc_blocks(w).len(), b@);
        }
    }
    let (n, at1) = match read_u64(b, 0) {
        Some(x) => x,
        None => {
            return None;
        },
    };
    proof {
        if ok {
            lemma_le_len(n as nat, 8);
            lemma_u64_at(b@, 0, n as nat, w.len());
        }
    }
    let mut blocks: Vec<Block> = Vec::new();
    let mut p: usize = at1;
    let mut k: u64 = 0;
    while k < n
        invariant
            len == b@.len(),
            at1 <= p <= b@.len(),
            at1 == 8,
            blocks@.len() == k,
            k <= n,
            b@.subrange(at1 as int, p as int) == enc_blocks(blocks@),
            ok == (exists|c: Seq<Block>| enc_chain(c) == b@),
            ok ==> n == w.len() && is_at(b@, 8, enc_blocks(w)) && enc_blocks(blocks@) == enc_blocks(
                w.subrange(0, k as int),
            ) && b@.len() == 8 + enc_blocks(w).len(),
        decreases n - k,
    {
        proof {
            if ok {
                lemma_blocks_step(b@, 8, w, k as int);
                assert(has_block_at(b@, p as int));
            }
        }
        let (blk, q) = match read_block(b, p) {
            Some(x) => x,
            None => {
                return None;
            },
        };
        proof {
            if ok {
                assert(is_at(b@, p as int, enc_block(blk)));
                lemma_unique_block(b@, p as int, blk, w[k as int]);
            }
        }
        let ghost prev = blocks@;
        blocks.push(blk);
        proof {
            assert(blocks@.drop_last() =~= prev);
            assert(b@.subrange(at1 as int, q as int) =~= b@.subrange(at1 as int, p as int) + b@.subrange(
                p as int,
                q as int,
            ));
        }
        p = q;
        k = k + 1;
    }
    proof {
        if ok {
            assert(w.subrange(0, k as int) =~= w);
        }
    }
    if p != b.len() {
        return None;
    }
    proof {
        assert(b@ =~= b@.subrange(0, at1 as int) + b@.subrange(at1 as int, p as int));
        assert forall|c: Seq<Block>| #[trigger] enc_chain(c) == b@ implies same_chain(blocks@, c) by {
            lemma_enc_chain_injective(blocks@, c);
        }
    }
    Some(blocks)
}

/// A chain with one more block encodes to strictly more bytes, and its
/// encoding starts with the same blocks' encoding.
pub proof fn lemma_snapshot_grows(c: Seq<Block>, b: Block)
    ensures
        enc_chain(c.push(b)).len() > enc_chain(c).len(),
        enc_blocks(c.push(b)) == enc_blocks(c) + enc_block(b),
{
    assert(c.push(b).drop_last() =~= c);
    lemma_le_len(c.len(), 8);
    lemma_le_len(c.len() + 1, 8);
    lemma_le_len(b.index as nat, 8);
}

/// Reads one transaction. Bytes that are not exactly one encoded
/// transaction give `None`; the encoding of every transaction reads back as
/// that same transaction.
pub fn decode_tx(b: &[u8]) -> (r: Option<Tx>)
    ensures
        r matches Some(t) ==> enc_tx(t) == b@,
        (exists|t: Tx| enc_tx(t) == b@) ==> r is Some,
        forall|t: Tx| #[trigger] enc_tx(t) == b@ ==> (r matches Some(d) && same_tx(d, t)),
{
    let len = b.len();
    let ghost ok = exists|t: Tx| enc_tx(t) == b@;
    proof {
        if ok {
            let w = choose|t: Tx| enc_tx(t) == b@;
            assert(b@.subrange(0, b@.len() as int) =~= b@);
            assert(is_at(b@, 0, enc_tx(w)));
        }
    }
    match read_tx(b, 0) {
        Some((t, p)) => {
            if p == b.len() {
                proof {
                    assert(b@.subrange(0, p as int) =~= b@);
                    assert forall|c: Tx| #[trigger] enc_tx(c) == b@ implies same_tx(t, c) by {
                        assert(is_at(b@, 0, enc_tx(t)));
                        assert(is_at(b@, 0, enc_tx(c)));
                        lemma_same_tx(b@, 0, t, c);
                    }
                }
                Some(t)
            } else {
                proof {
                    if ok {
                        let w = choose|t: Tx| enc_tx(t) == b@;
                        assert(is_at(b@, 0, enc_tx(t)));
                        lemma_unique_tx(b@, 0, t, w);
                    }
                }
                None
            }
        },
        None => None,
    }
}

/// `e` stands in `s` at position `pos`.
pub open spec fn is_at(s: Seq<u8>, pos: int, e: Seq<u8>) -> bool {
    0 <= pos && pos + e.len() <= s.len() && s.subrange(pos, pos + e.len()) == e
}

proof fn lemma_at_split(s: Seq<u8>, pos: int, a: Seq<u8>, c: Seq<u8>)
    requires
        is_at(s, pos, a + c),
    ensures
        is_at(s, pos, a),
        is_at(s, pos + a.len(), c),
{
    let w = s.subrange(pos, pos + a.len() + c.len());
    assert(w == a + c);
    assert(s.subrange(pos, pos + a.len()) =~= w.subrange(0, a.len() as int));
    assert(w.subrange(0, a.len() as int) =~= a);
    assert(s.subrange(pos + a.len(), pos + a.len() + c.len()) =~= w.subrange(
        a.len() as int,
        w.len() as int,
    ));
    assert(w.subrange(a.len() as int, w.len() as int) =~= c);
}

proof fn lemma_le_inj(x: nat, y: nat, n: nat)
    requires
        x < pow256(n),
        y < pow256(n),
        le_bytes(x, n) == le_bytes(y, n),
    ensures
        x == y,
    decreases n,
{
    if n > 0 {
        let lx = le_bytes(x, n);
        let ly = le_bytes(y, n);
        assert(lx[0] == ly[0]);
        assert(le_bytes(x / 256, (n - 1) as nat) =~= lx.subrange(1, lx.len() as int));
        assert(le_bytes(y / 256, (n - 1) as nat) =~= ly.subrange(1, ly.len() as int));
        assert(x / 256 < pow256((n - 1) as nat));
        assert(y / 256 < pow256((n - 1) as nat));
        lemma_le_inj(x / 256, y / 256, (n - 1) as nat);
    }
}

proof fn lemma_le_len(x: nat, n: nat)
    ensures
        le_bytes(x, n).len() == n,
    decreases n,
{
    if n > 0 {
        lemma_le_len(x / 256, (n - 1) as nat);
    }
}

/// Two length prefixes at one place give the same length.
proof fn lemma_u64_at(s: Seq<u8>, pos: int, x: nat, y: nat)
    requires
        x < pow256(8),
        y < pow256(8),
        is_at(s, pos, enc_u64(x)),
        is_at(s, pos, enc_u64(y)),
    ensures
        x == y,
{
    lemma_le_len(x, 8);
    lemma_le_len(y, 8);
    lemma_le_inj(x, y, 8);
}

proof fn lemma_unique_bytes(s: Seq<u8>, pos: int, a: Seq<u8>, c: Seq<u8>)
    requires
        is_at(s, pos, enc_bytes(a)),
        is_at(s, pos, enc_bytes(c)),
        a.len() < pow256(8),
        c.len() < pow256(8),
    ensures
        a == c,
{
    lemma_at_split(s, pos, enc_u64(a.len()), a);
    lemma_at_split(s, pos, enc_u64(c.len()), c);
    lemma_u64_at(s, pos, a.len(), c.len());
    lemma_le_len(a.len(), 8);
}

proof fn lemma_len_bound(s: Seq<u8>, pos: int, e: Seq<u8>, n: nat)
    requires
        is_at(s, pos, e),
        n <= e.len(),
        s.len() <= usize::MAX,
    ensures
        n < pow256(8),
{
    lemma_pow256_values();
}

proof fn lemma_unique_str(s: Seq<u8>, pos: int, a: Seq<char>, c: Seq<char>)
    requires
        is_at(s, pos, enc_str(a)),
        is_at(s, pos, enc_str(c)),
        s.len() <= usize::MAX,
    ensures
        enc_str(a) == enc_str(c),
{
    lemma_at_split(s, pos, enc_u64(encode_utf8(a).len()), encode_utf8(a));
    lemma_at_split(s, pos, enc_u64(encode_utf8(c).len()), encode_utf8(c));
    lemma_len_bound(s, pos, enc_str(a), encode_utf8(a).len());
    lemma_len_bound(s, pos, enc_str(c), encode_utf8(c).len());
    lemma_unique_bytes(s, pos, encode_utf8(a), encode_utf8(c));
}

proof fn lemma_unique_out(s: Seq<u8>, pos: int, a: TxOut, c: TxOut)
    requires
        is_at(s, pos, enc_out(a)),
        is_at(s, pos, enc_out(c)),
        s.len() <= usize::MAX,
    ensures
        enc_out(a) == enc_out(c),
{
    lemma_at_split(s, pos, enc_str(a.to@), enc_u64(a.amount as nat));
    lemma_at_split(s, pos, enc_str(c.to@), enc_u64(c.amount as nat));
    lemma_unique_str(s, pos, a.to@, c.to@);
    lemma_pow256_values();
    lemma_u64_at(s, pos + enc_str(a.to@).len(), a.amount as nat, c.amount as nat);
}

proof fn lemma_unique_in(s: Seq<u8>, pos: int, a: TxIn, c: TxIn)
    requires
        is_at(s, pos, enc_in(a)),
        is_at(s, pos, enc_in(c)),
        s.len() <= usize::MAX,
    ensures
        enc_in(a) == enc_in(c),
{
    let ha = enc_str(a.prev_tx_hash@);
    let hc = enc_str(c.prev_tx_hash@);
    let ia = enc_u64(a.prev_out_index as nat);
    let ic = enc_u64(c.prev_out_index as nat);
    lemma_at_split(s, pos, ha + ia, enc_bytes(a.signature@));
    lemma_at_split(s, pos, hc + ic, enc_bytes(c.signature@));
    lemma_at_split(s, pos, ha, ia);
    lemma_at_split(s, pos, hc, ic);
    lemma_unique_str(s, pos, a.prev_tx_hash@, c.prev_tx_hash@);
    lemma_pow256_values();
    lemma_u64_at(s, pos + ha.len(), a.prev_out_index as nat, c.prev_out_index as nat);
    lemma_le_len(a.prev_out_index as nat, 8);
    let q = pos + ha.len() + 8;
    lemma_len_bound(s, q, enc_bytes(a.signature@), a.signature@.len());
    lemma_len_bound(s, q, enc_bytes(c.signature@), c.signature@.len());
    lemma_le_len(a.signature@.len(), 8);
    lemma_le_len(c.signature@.len(), 8);
    lemma_unique_bytes(s, q, a.signature@, c.signature@);
}

proof fn lemma_unique_ins(s: Seq<u8>, pos: int, a: Seq<TxIn>, c: Seq<TxIn>)
    requires
        a.len() == c.len(),
        is_at(s, pos, enc_ins(a)),
        is_at(s, pos, enc_ins(c)),
        s.len() <= usize::MAX,
    ensures
        enc_ins(a) == enc_ins(c),
    decreases a.len(),
{
    if a.len() > 0 {
        lemma_at_split(s, pos, enc_ins(a.drop_last()), enc_in(a.last()));
        lemma_at_split(s, pos, enc_ins(c.drop_last()), enc_in(c.last()));
        lemma_unique_ins(s, pos, a.drop_last(), c.drop_last());
        lemma_unique_in(s, pos + enc_ins(a.drop_last()).len(), a.last(), c.last());
    }
}

proof fn lemma_unique_outs(s: Seq<u8>, pos: int, a: Seq<TxOut>, c: Seq<TxOut>)
    requires
        a.len() == c.len(),
        is_at(s, pos, enc_outs(a)),
        is_at(s, pos, enc_outs(c)),
        s.len() <= usize::MAX,
    ensures
        enc_outs(a) == enc_outs(c),
    decreases a.len(),
{
    if a.len() > 0 {
        lemma_at_split(s, pos, enc_outs(a.drop_last()), enc_out(a.last()));
        lemma_at_split(s, pos, enc_outs(c.drop_last()), enc_out(c.last()));
        lemma_unique_outs(s, pos, a.drop_last(), c.drop_last());
        lemma_unique_out(s, pos + enc_outs(a.drop_last()).len(), a.last(), c.last());
    }
}

proof fn lemma_items_bound(n: nat, total: nat, s: Seq<u8>)
    requires
        n <= total,
        total <= s.len(),
        s.len() <= usize::MAX,
    ensures
        n < pow256(8),
{
    lemma_pow256_values();
}

proof fn lemma_ins_len(a: Seq<TxIn>)
    ensures
        enc_ins(a).len() >= a.len(),
    decreases a.len(),
{
    if a.len() > 0 {
        lemma_ins_len(a.drop_last());
        lemma_le_len(a.last().prev_out_index as nat, 8);
    }
}

proof fn lemma_outs_len(a: Seq<TxOut>)
    ensures
        enc_outs(a).len() >= a.len(),
    decreases a.len(),
{
    if a.len() > 0 {
        lemma_outs_len(a.drop_last());
        lemma_le_len(a.last().amount as nat, 8);
    }
}

proof fn lemma_txs_len(a: Seq<Tx>)
    ensures
        enc_txs(a).len() >= a.len(),
    decreases a.len(),
{
    if a.len() > 0 {
        lemma_txs_len(a.drop_last());
        lemma_le_len(a.last().inputs@.len(), 8);
    }
}

proof fn lemma_blocks_len(a: Seq<Block>)
    ensures
        enc_blocks(a).len() >= a.len(),
    decreases a.len(),
{
    if a.len() > 0 {
        lemma_blocks_len(a.drop_last());
        lemma_le_len(a.last().index as nat, 8);
    }
}

proof fn lemma_unique_tx(s: Seq<u8>, pos: int, a: Tx, c: Tx)
    requires
        is_at(s, pos, enc_tx(a)),
        is_at(s, pos, enc_tx(c)),
        s.len() <= usize::MAX,
    ensures
        enc_tx(a) == enc_tx(c),
{
    let na = enc_u64(a.inputs@.len());
    let nc = enc_u64(c.inputs@.len());
    let ma = enc_u64(a.outputs@.len());
    let mc = enc_u64(c.outputs@.len());
    let ia = enc_ins(a.inputs@);
    let ic = enc_ins(c.inputs@);
    let oa = enc_outs(a.outputs@);
    let oc = enc_outs(c.outputs@);
    lemma_at_split(s, pos, na + ia + ma, oa);
    lemma_at_split(s, pos, nc + ic + mc, oc);
    lemma_at_split(s, pos, na + ia, ma);
    lemma_at_split(s, pos, nc + ic, mc);
    lemma_at_split(s, pos, na, ia);
    lemma_at_split(s, pos, nc, ic);
    lemma_ins_len(a.inputs@);
    lemma_ins_len(c.inputs@);
    lemma_outs_len(a.outputs@);
    lemma_outs_len(c.outputs@);
    lemma_items_bound(a.inputs@.len(), ia.len(), s);
    lemma_items_bound(c.inputs@.len(), ic.len(), s);
    lemma_u64_at(s, pos, a.inputs@.len(), c.inputs@.len());
    lemma_le_len(a.inputs@.len(), 8);
    lemma_unique_ins(s, pos + 8, a.inputs@, c.inputs@);
    let q = pos + 8 + ia.len();
    lemma_items_bound(a.outputs@.len(), oa.len(), s);
    lemma_items_bound(c.outputs@.len(), oc.len(), s);
    lemma_u64_at(s, q, a.outputs@.len(), c.outputs@.len());
    lemma_le_len(a.outputs@.len(), 8);
    lemma_unique_outs(s, q + 8, a.outputs@, c.outputs@);
}

proof fn lemma_unique_txs(s: Seq<u8>, pos: int, a: Seq<Tx>, c: Seq<Tx>)
    requires
        a.len() == c.len(),
        is_at(s, pos, enc_txs(a)),
        is_at(s, pos, enc_txs(c)),
        s.len() <= usize::MAX,
    ensures
        enc_txs(a) == enc_txs(c),
    decreases a.len(),
{
    if a.len() > 0 {
        lemma_at_split(s, pos, enc_txs(a.drop_last()), enc_tx(a.last()));
        lemma_at_split(s, pos, enc_txs(c.drop_last()), enc_tx(c.last()));
        lemma_unique_txs(s, pos, a.drop_last(), c.drop_last());
        lemma_unique_tx(s, pos + enc_txs(a.drop_last()).len(), a.last(), c.last());
    }
}

proof fn lemma_block_split(s: Seq<u8>, pos: int, a: Block)
    requires
        is_at(s, pos, enc_block(a)),
    ensures
        ({
            let l3 = enc_str(a.prev_hash@).len();
            let l4 = enc_str(a.hash@).len();
            let l8 = enc_txs(a.txs@).len();
            &&& is_at(s, pos, enc_u64(a.index as nat))
            &&& is_at(s, pos + 8, enc_u64(a.timestamp as nat))
            &&& is_at(s, pos + 16, enc_str(a.prev_hash@))
            &&& is_at(s, pos + 16 + l3, enc_str(a.hash@))
            &&& is_at(s, pos + 16 + l3 + l4, enc_u64(a.nonce as nat))
            &&& is_at(s, pos + 24 + l3 + l4, le_bytes(a.difficulty as nat, 4))
            &&& is_at(s, pos + 28 + l3 + l4, enc_u64(a.txs@.len()))
            &&& is_at(s, pos + 36 + l3 + l4, enc_txs(a.txs@))
            &&& is_at(s, pos + 36 + l3 + l4 + l8, enc_out(a.coinbase))
            &&& enc_block(a).len() == 36 + l3 + l4 + l8 + enc_out(a.coinbase).len()
        }),
{
    let h1 = enc_u64(a.index as nat);
    let h2 = enc_u64(a.timestamp as nat);
    let h3 = enc_str(a.prev_hash@);
    let h4 = enc_str(a.hash@);
    let h5 = enc_u64(a.nonce as nat);
    let h6 = le_bytes(a.difficulty as nat, 4);
    let h7 = enc_u64(a.txs@.len());
    let h8 = enc_txs(a.txs@);
    let h9 = enc_out(a.coinbase);
    lemma_le_len(a.index as nat, 8);
    lemma_le_len(a.timestamp as nat, 8);
    lemma_le_len(a.nonce as nat, 8);
    lemma_le_len(a.difficulty as nat, 4);
    lemma_le_len(a.txs@.len(), 8);
    lemma_at_split(s, pos, h1 + h2 + h3 + h4 + h5 + h6 + h7 + h8, h9);
    lemma_at_split(s, pos, h1 + h2 + h3 + h4 + h5 + h6 + h7, h8);
    lemma_at_split(s, pos, h1 + h2 + h3 + h4 + h5 + h6, h7);
    lemma_at_split(s, pos, h1 + h2 + h3 + h4 + h5, h6);
    lemma_at_split(s, pos, h1 + h2 + h3 + h4, h5);
    lemma_at_split(s, pos, h1 + h2 + h3, h4);
    lemma_at_split(s, pos, h1 + h2, h3);
    lemma_at_split(s, pos, h1, h2);
}

proof fn lemma_same_at(s: Seq<u8>, pos: int, x: Seq<u8>, y: Seq<u8>)
    requires
        is_at(s, pos, x),
        is_at(s, pos, y),
        x.len() == y.len(),
    ensures
        x == y,
{
}

proof fn lemma_unique_block(s: Seq<u8>, pos: int, a: Block, c: Block)
    requires
        is_at(s, pos, enc_block(a)),
        is_at(s, pos, enc_block(c)),
        s.len() <= usize::MAX,
    ensures
        enc_block(a) == enc_block(c),
{
    lemma_block_split(s, pos, a);
    lemma_block_split(s, pos, c);
    lemma_pow256_values();
    lemma_le_len(a.index as nat, 8);
    lemma_le_len(c.index as nat, 8);
    lemma_le_len(a.timestamp as nat, 8);
    lemma_le_len(c.timestamp as nat, 8);
    lemma_le_len(a.nonce as nat, 8);
    lemma_le_len(c.nonce as nat, 8);
    lemma_le_len(a.difficulty as nat, 4);
    lemma_le_len(c.difficulty as nat, 4);
    lemma_le_len(a.txs@.len(), 8);
    lemma_le_len(c.txs@.len(), 8);
    lemma_same_at(s, pos, enc_u64(a.index as nat), enc_u64(c.index as nat));
    lemma_same_at(s, pos + 8, enc_u64(a.timestamp as nat), enc_u64(c.timestamp as nat));
    lemma_unique_str(s, pos + 16, a.prev_hash@, c.prev_hash@);
    let l3 = enc_str(a.prev_hash@).len();
    lemma_unique_str(s, pos + 16 + l3, a.hash@, c.hash@);
    let l4 = enc_str(a.hash@).len();
    lemma_same_at(s, pos + 16 + l3 + l4, enc_u64(a.nonce as nat), enc_u64(c.nonce as nat));
    lemma_same_at(s, pos + 24 + l3 + l4, le_bytes(a.difficulty as nat, 4), le_bytes(c.difficulty as nat, 4));
    lemma_txs_len(a.txs@);
    lemma_txs_len(c.txs@);
    lemma_items_bound(a.txs@.len(), enc_txs(a.txs@).len(), s);
    lemma_items_bound(c.txs@.len(), enc_txs(c.txs@).len(), s);
    lemma_u64_at(s, pos + 28 + l3 + l4, a.txs@.len(), c.txs@.len());
    lemma_unique_txs(s, pos + 36 + l3 + l4, a.txs@, c.txs@);
    let l8 = enc_txs(a.txs@).len();
    lemma_unique_out(s, pos + 36 + l3 + l4 + l8, a.coinbase, c.coinbase);
}

proof fn lemma_ins_step(s: Seq<u8>, pos: int, a: Seq<TxIn>, k: int)
    requires
        is_at(s, pos, enc_ins(a)),
        0 <= k < a.len(),
    ensures
        is_at(s, pos, enc_ins(a.subrange(0, k + 1))),
        is_at(s, pos + enc_ins(a.subrange(0, k)).len(), enc_in(a[k])),
        enc_ins(a.subrange(0, k + 1)) == enc_ins(a.subrange(0, k)) + enc_in(a[k]),
    decreases a.len() - k,
{
    let t = a.subrange(0, k + 1);
    assert(t.drop_last() =~= a.subrange(0, k));
    assert(t.last() == a[k]);
    if k + 1 == a.len() {
        assert(t =~= a);
    } else {
        lemma_ins_step(s, pos, a, k + 1);
        lemma_at_split(s, pos, enc_ins(t), enc_in(a[k + 1]));
    }
    lemma_at_split(s, pos, enc_ins(a.subrange(0, k)), enc_in(a[k]));
}

proof fn lemma_outs_step(s: Seq<u8>, pos: int, a: Seq<TxOut>, k: int)
    requires
        is_at(s, pos, enc_outs(a)),
        0 <= k < a.len(),
    ensures
        is_at(s, pos, enc_outs(a.subrange(0, k + 1))),
        is_at(s, pos + enc_outs(a.subrange(0, k)).len(), enc_out(a[k])),
        enc_outs(a.subrange(0, k + 1)) == enc_outs(a.subrange(0, k)) + enc_out(a[k]),
    decreases a.len() - k,
{
    let t = a.subrange(0, k + 1);
    assert(t.drop_last() =~= a.subrange(0, k));
    assert(t.last() == a[k]);
    if k + 1 == a.len() {
        assert(t =~= a);
    } else {
        lemma_outs_step(s, pos, a, k + 1);
        lemma_at_split(s, pos, enc_outs(t), enc_out(a[k + 1]));
    }
    lemma_at_split(s, pos, enc_outs(a.subrange(0, k)), enc_out(a[k]));
}

proof fn lemma_txs_step(s: Seq<u8>, pos: int, a: Seq<Tx>, k: int)
    requires
        is_at(s, pos, enc_txs(a)),
        0 <= k < a.len(),
    ensures
        is_at(s, pos, enc_txs(a.subrange(0, k + 1))),
        is_at(s, pos + enc_txs(a.subrange(0, k)).len(), enc_tx(a[k])),
        enc_txs(a.subrange(0, k + 1)) == enc_txs(a.subrange(0, k)) + enc_tx(a[k]),
    decreases a.len() - k,
{
    let t = a.subrange(0, k + 1);
    assert(t.drop_last() =~= a.subrange(0, k));
    assert(t.last() == a[k]);
    if k + 1 == a.len() {
        assert(t =~= a);
    } else {
        lemma_txs_step(s, pos, a, k + 1);
        lemma_at_split(s, pos, enc_txs(t), enc_tx(a[k + 1]));
    }
    lemma_at_split(s, pos, enc_txs(a.subrange(0, k)), enc_tx(a[k]));
}

proof fn lemma_blocks_step(s: Seq<u8>, pos: int, a: Seq<Block>, k: int)
    requires
        is_at(s, pos, enc_blocks(a)),
        0 <= k < a.len(),
    ensures
        is_at(s, pos, enc_blocks(a.subrange(0, k + 1))),
        is_at(s, pos + enc_blocks(a.subrange(0, k)).len(), enc_block(a[k])),
        enc_blocks(a.subrange(0, k + 1)) == enc_blocks(a.subrange(0, k)) + enc_block(a[k]),
    decreases a.len() - k,
{
    let t = a.subrange(0, k + 1);
    assert(t.drop_last() =~= a.subrange(0, k));
    assert(t.last() == a[k]);
    if k + 1 == a.len() {
        assert(t =~= a);
    } else {
        lemma_blocks_step(s, pos, a, k + 1);
        lemma_at_split(s, pos, enc_blocks(t), enc_block(a[k + 1]));
    }
    lemma_at_split(s, pos, enc_blocks(a.subrange(0, k)), enc_block(a[k]));
}

pub open spec fn same_out(a: TxOut, c: TxOut) -> bool {
    a.to@ == c.to@ && a.amount == c.amount
}

pub open spec fn same_in(a: TxIn, c: TxIn) -> bool {
    a.prev_tx_hash@ == c.prev_tx_hash@ && a.prev_out_index == c.prev_out_index && a.signature@
        == c.signature@
}

pub open spec fn same_tx(a: Tx, c: Tx) -> bool {
    &&& a.inputs@.len() == c.inputs@.len()
    &&& forall|i: int| 0 <= i < a.inputs@.len() ==> same_in(#[trigger] a.inputs@[i], c.inputs@[i])
    &&& a.outputs@.len() == c.outputs@.len()
    &&& forall|i: int|
        0 <= i < a.outputs@.len() ==> same_out(#[trigger] a.outputs@[i], c.outputs@[i])
}

/// Two blocks with equal fields, strings and sequences compared by content.
pub open spec fn same_block(a: Block, c: Block) -> bool {
    &&& a.index == c.index
    &&& a.timestamp == c.timestamp
    &&& a.prev_hash@ == c.prev_hash@
    &&& a.hash@ == c.hash@
    &&& a.nonce == c.nonce
    &&& a.difficulty == c.difficulty
    &&& a.txs@.len() == c.txs@.len()
    &&& forall|i: int| 0 <= i < a.txs@.len() ==> same_tx(#[trigger] a.txs@[i], c.txs@[i])
    &&& same_out(a.coinbase, c.coinbase)
}

/// Two chains with the same blocks in the same order.
pub open spec fn same_chain(a: Seq<Block>, c: Seq<Block>) -> bool {
    a.len() == c.len() && forall|i: int| 0 <= i < a.len() ==> same_block(#[trigger] a[i], c[i])
}

proof fn lemma_bytes_eq(s: Seq<u8>, pos: int, a: Seq<u8>, c: Seq<u8>)
    requires
        is_at(s, pos, enc_bytes(a)),
        is_at(s, pos, enc_bytes(c)),
        s.len() <= usize::MAX,
    ensures
        a == c,
{
    lemma_le_len(a.len(), 8);
    lemma_le_len(c.len(), 8);
    lemma_len_bound(s, pos, enc_bytes(a), a.len());
    lemma_len_bound(s, pos, enc_bytes(c), c.len());
    lemma_unique_bytes(s, pos, a, c);
}

proof fn lemma_str_eq(s: Seq<u8>, pos: int, a: Seq<char>, c: Seq<char>)
    requires
        is_at(s, pos, enc_str(a)),
        is_at(s, pos, enc_str(c)),
        s.len() <= usize::MAX,
    ensures
        a == c,
{
    lemma_bytes_eq(s, pos, encode_utf8(a), encode_utf8(c));
    encode_utf8_decode_utf8(a);
    encode_utf8_decode_utf8(c);
}

proof fn lemma_u64_eq(s: Seq<u8>, pos: int, x: u64, y: u64)
    requires
        is_at(s, pos, enc_u64(x as nat)),
        is_at(s, pos, enc_u64(y as nat)),
    ensures
        x == y,
{
    lemma_pow256_values();
    lemma_u64_at(s, pos, x as nat, y as nat);
}

proof fn lemma_same_out(s: Seq<u8>, pos: int, a: TxOut, c: TxOut)
    requires
        is_at(s, pos, enc_out(a)),
        is_at(s, pos, enc_out(c)),
        s.len() <= usize::MAX,
    ensures
        same_out(a, c),
{
    lemma_at_split(s, pos, enc_str(a.to@), enc_u64(a.amount as nat));
    lemma_at_split(s, pos, enc_str(c.to@), enc_u64(c.amount as nat));
    lemma_str_eq(s, pos, a.to@, c.to@);
    lemma_u64_eq(s, pos + enc_str(a.to@).len(), a.amount, c.amount);
}

proof fn lemma_same_in(s: Seq<u8>, pos: int, a: TxIn, c: TxIn)
    requires
        is_at(s, pos, enc_in(a)),
        is_at(s, pos, enc_in(c)),
        s.len() <= usize::MAX,
    ensures
        same_in(a, c),
{
    let ha = enc_str(a.prev_tx_hash@);
    let hc = enc_str(c.prev_tx_hash@);
    let ia = enc_u64(a.prev_out_index as nat);
    let ic = enc_u64(c.prev_out_index as nat);
    lemma_at_split(s, pos, ha + ia, enc_bytes(a.signature@));
    lemma_at_split(s, pos, hc + ic, enc_bytes(c.signature@));
    lemma_at_split(s, pos, ha, ia);
    lemma_at_split(s, pos, hc, ic);
    lemma_str_eq(s, pos, a.prev_tx_hash@, c.prev_tx_hash@);
    lemma_u64_eq(s, pos + ha.len(), a.prev_out_index, c.prev_out_index);
    lemma_le_len(a.prev_out_index as nat, 8);
    lemma_bytes_eq(s, pos + ha.len() + 8, a.signature@, c.signature@);
}

proof fn lemma_same_ins(s: Seq<u8>, pos: int, a: Seq<TxIn>, c: Seq<TxIn>)
    requires
        a.len() == c.len(),
        is_at(s, pos, enc_ins(a)),
        is_at(s, pos, enc_ins(c)),
        s.len() <= usize::MAX,
    ensures
        forall|i: int| 0 <= i < a.len() ==> same_in(#[trigger] a[i], c[i]),
    decreases a.len(),
{
    if a.len() > 0 {
        lemma_at_split(s, pos, enc_ins(a.drop_last()), enc_in(a.last()));
        lemma_at_split(s, pos, enc_ins(c.drop_last()), enc_in(c.last()));
        lemma_same_ins(s, pos, a.drop_last(), c.drop_last());
        lemma_unique_ins(s, pos, a.drop_last(), c.drop_last());
        lemma_same_in(s, pos + enc_ins(a.drop_last()).len(), a.last(), c.last());
        assert forall|i: int| 0 <= i < a.len() implies same_in(#[trigger] a[i], c[i]) by {
            if i < a.len() - 1 {
                assert(a.drop_last()[i] == a[i] && c.drop_last()[i] == c[i]);
            }
        }
    }
}

proof fn lemma_same_outs(s: Seq<u8>, pos: int, a: Seq<TxOut>, c: Seq<TxOut>)
    requires
        a.len() == c.len(),
        is_at(s, pos, enc_outs(a)),
        is_at(s, pos, enc_outs(c)),
        s.len() <= usize::MAX,
    ensures
        forall|i: int| 0 <= i < a.len() ==> same_out(#[trigger] a[i], c[i]),
    decreases a.len(),
{
    if a.len() > 0 {
        lemma_at_split(s, pos, enc_outs(a.drop_last()), enc_out(a.last()));
        lemma_at_split(s, pos, enc_outs(c.drop_last()), enc_out(c.last()));
        lemma_same_outs(s, pos, a.drop_last(), c.drop_last());
        lemma_unique_outs(s, pos, a.drop_last(), c.drop_last());
        lemma_same_out(s, pos + enc_outs(a.drop_last()).len(), a.last(), c.last());
        assert forall|i: int| 0 <= i < a.len() implies same_out(#[trigger] a[i], c[i]) by {
            if i < a.len() - 1 {
                assert(a.drop_last()[i] == a[i] && c.drop_last()[i] == c[i]);
            }
        }
    }
}

proof fn lemma_same_tx(s: Seq<u8>, pos: int, a: Tx, c: Tx)
    requires
        is_at(s, pos, enc_tx(a)),
        is_at(s, pos, enc_tx(c)),
        s.len() <= usize::MAX,
    ensures
        same_tx(a, c),
{
    let na = enc_u64(a.inputs@.len());
    let nc = enc_u64(c.inputs@.len());
    let ma = enc_u64(a.outputs@.len());
    let mc = enc_u64(c.outputs@.len());
    let ia = enc_ins(a.inputs@);
    let ic = enc_ins(c.inputs@);
    let oa = enc_outs(a.outputs@);
    let oc = enc_outs(c.outputs@);
    lemma_unique_tx(s, pos, a, c);
    lemma_at_split(s, pos, na + ia + ma, oa);
    lemma_at_split(s, pos, nc + ic + mc, oc);
    lemma_at_split(s, pos, na + ia, ma);
    lemma_at_split(s, pos, nc + ic, mc);
    lemma_at_split(s, pos, na, ia);
    lemma_at_split(s, pos, nc, ic);
    lemma_ins_len(a.inputs@);
    lemma_ins_len(c.inputs@);
    lemma_outs_len(a.outputs@);
    lemma_outs_len(c.outputs@);
    lemma_items_bound(a.inputs@.len(), ia.len(), s);
    lemma_items_bound(c.inputs@.len(), ic.len(), s);
    lemma_u64_at(s, pos, a.inputs@.len(), c.inputs@.len());
    lemma_le_len(a.inputs@.len(), 8);
    lemma_same_ins(s, pos + 8, a.inputs@, c.inputs@);
    lemma_unique_ins(s, pos + 8, a.inputs@, c.inputs@);
    let q = pos + 8 + ia.len();
    lemma_items_bound(a.outputs@.len(), oa.len(), s);
    lemma_items_bound(c.outputs@.len(), oc.len(), s);
    lemma_u64_at(s, q, a.outputs@.len(), c.outputs@.len());
    lemma_le_len(a.outputs@.len(), 8);
    lemma_same_outs(s, q + 8, a.outputs@, c.outputs@);
}

proof fn lemma_same_txs(s: Seq<u8>, pos: int, a: Seq<Tx>, c: Seq<Tx>)
    requires
        a.len() == c.len(),
        is_at(s, pos, enc_txs(a)),
        is_at(s, pos, enc_txs(c)),
        s.len() <= usize::MAX,
    ensures
        forall|i: int| 0 <= i < a.len() ==> same_tx(#[trigger] a[i], c[i]),
    decreases a.len(),
{
    if a.len() > 0 {
        lemma_at_split(s, pos, enc_txs(a.drop_last()), enc_tx(a.last()));
        lemma_at_split(s, pos, enc_txs(c.drop_last()), enc_tx(c.last()));
        lemma_same_txs(s, pos, a.drop_last(), c.drop_last());
        lemma_unique_txs(s, pos, a.drop_last(), c.drop_last());
        lemma_same_tx(s, pos + enc_txs(a.drop_last()).len(), a.last(), c.last());
        assert forall|i: int| 0 <= i < a.len() implies same_tx(#[trigger] a[i], c[i]) by {
            if i < a.len() - 1 {
                assert(a.drop_last()[i] == a[i] && c.drop_last()[i] == c[i]);
            }
        }
    }
}

#[verifier::rlimit(50)]
proof fn lemma_same_block(s: Seq<u8>, pos: int, a: Block, c: Block)
    requires
        is_at(s, pos, enc_block(a)),
        is_at(s, pos, enc_block(c)),
        s.len() <= usize::MAX,
    ensures
        same_block(a, c),
{
    lemma_block_split(s, pos, a);
    lemma_block_split(s, pos, c);
    lemma_pow256_values();
    lemma_u64_eq(s, pos, a.index, c.index);
    lemma_u64_eq(s, pos + 8, a.timestamp, c.timestamp);
    lemma_str_eq(s, pos + 16, a.prev_hash@, c.prev_hash@);
    let l3 = enc_str(a.prev_hash@).len();
    lemma_str_eq(s, pos + 16 + l3, a.hash@, c.hash@);
    let l4 = enc_str(a.hash@).len();
    lemma_u64_eq(s, pos + 16 + l3 + l4, a.nonce, c.nonce);
    lemma_le_len(a.difficulty as nat, 4);
    lemma_le_len(c.difficulty as nat, 4);
    lemma_same_at(s, pos + 24 + l3 + l4, le_bytes(a.difficulty as nat, 4), le_bytes(c.difficulty as nat, 4));
    lemma_le_inj(a.difficulty as nat, c.difficulty as nat, 4);
    lemma_txs_len(a.txs@);
    lemma_txs_len(c.txs@);
    lemma_items_bound(a.txs@.len(), enc_txs(a.txs@).len(), s);
    lemma_items_bound(c.txs@.len(), enc_txs(c.txs@).len(), s);
    lemma_u64_at(s, pos + 28 + l3 + l4, a.txs@.len(), c.txs@.len());
    lemma_same_txs(s, pos + 36 + l3 + l4, a.txs@, c.txs@);
    lemma_unique_txs(s, pos + 36 + l3 + l4, a.txs@, c.txs@);
    let l8 = enc_txs(a.txs@).len();
    lemma_same_out(s, pos + 36 + l3 + l4 + l8, a.coinbase, c.coinbase);
}

proof fn lemma_same_blocks(s: Seq<u8>, pos: int, a: Seq<Block>, c: Seq<Block>)
    requires
        a.len() == c.len(),
        is_at(s, pos, enc_blocks(a)),
        is_at(s, pos, enc_blocks(c)),
        s.len() <= usize::MAX,
    ensures
        forall|i: int| 0 <= i < a.len() ==> same_block(#[trigger] a[i], c[i]),
        enc_blocks(a) == enc_blocks(c),
    decreases a.len(),
{
    if a.len() > 0 {
        lemma_at_split(s, pos, enc_blocks(a.drop_last()), enc_block(a.last()));
        lemma_at_split(s, pos, enc_blocks(c.drop_last()), enc_block(c.last()));
        lemma_same_blocks(s, pos, a.drop_last(), c.drop_last());
        lemma_same_block(s, pos + enc_blocks(a.drop_last()).len(), a.last(), c.last());
        lemma_unique_block(s, pos + enc_blocks(a.drop_last()).len(), a.last(), c.last());
        assert forall|i: int| 0 <= i < a.len() implies same_block(#[trigger] a[i], c[i]) by {
            if i < a.len() - 1 {
                assert(a.drop_last()[i] == a[i] && c.drop_last()[i] == c[i]);
            }
        }
    }
}

/// Loading what was saved gives the saved chain back: two chains with the
/// same encoding (one that fits in memory) hold the same blocks, field for
/// field, in the same order.
pub proof fn lemma_enc_chain_injective(a: Seq<Block>, c: Seq<Block>)
    requires
        enc_chain(a) == enc_chain(c),
        enc_chain(a).len() <= usize::MAX,
    ensures
        same_chain(a, c),
{
    let s = enc_chain(a);
    assert(s.subrange(0, s.len() as int) =~= s);
    assert(is_at(s, 0, enc_chain(a)));
    lemma_at_split(s, 0, enc_u64(a.len()), enc_blocks(a));
    lemma_at_split(s, 0, enc_u64(c.len()), enc_blocks(c));
    lemma_blocks_len(a);
    lemma_blocks_len(c);
    lemma_items_bound(a.len(), enc_blocks(a).len(), s);
    lemma_items_bound(c.len(), enc_blocks(c).len(), s);
    lemma_u64_at(s, 0, a.len(), c.len());
    lemma_le_len(a.len(), 8);
    lemma_same_blocks(s, 8, a, c);
}

} // verus!
