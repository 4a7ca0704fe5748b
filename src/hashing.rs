//! Digests, their lowercase hex rendering, and decimal rendering of integers.

use sha2::Digest;
use vstd::prelude::*;
use vstd::utf8::*;

verus! {

/// The SHA-256 digest of a byte string.
pub uninterp spec fn sha256_of(data: Seq<u8>) -> Seq<u8>;

/// Relies on sha2's `Sha256::digest`, which returns the 32-byte digest of its input.
#[verifier::external_body]
pub(crate) fn sha256(data: &[u8]) -> (r: Vec<u8>)
    ensures
        r@ == sha256_of(data@),
        r@.len() == 32,
{
    sha2::Sha256::digest(data).to_vec()
}

/// Relies on std's `String::from_utf8`: it succeeds exactly on valid UTF-8,
/// and the string then holds the characters that the bytes encode.
#[verifier::external_body]
pub(crate) fn string_from_utf8(bytes: Vec<u8>) -> (r: Option<String>)
    ensures
        r is Some <==> valid_utf8(bytes@),
        r matches Some(s) ==> s@ == decode_utf8(bytes@),
{
    String::from_utf8(bytes).ok()
}

/// The ASCII code of the lowercase hex digit for `n < 16`.
pub open spec fn hex_digit(n: u8) -> u8 {
    if n < 10 {
        (48 + n) as u8
    } else {
        (87 + n) as u8
    }
}

/// Two lowercase hex digits per byte, high nibble first.
pub open spec fn hex_bytes(data: Seq<u8>) -> Seq<u8>
    decreases data.len(),
{
    if data.len() == 0 {
        Seq::empty()
    } else {
        seq![hex_digit(data[0] / 16), hex_digit(data[0] % 16)] + hex_bytes(data.drop_first())
    }
}

/// The characters of an ASCII byte string.
pub open spec fn ascii_chars(b: Seq<u8>) -> Seq<char> {
    Seq::new(b.len(), |i: int| b[i] as char)
}

/// Every character is a lowercase hex digit.
pub open spec fn is_lower_hex(s: Seq<char>) -> bool {
    forall|i: int| 0 <= i < s.len() ==> ('0' <= #[trigger] s[i] <= '9') || ('a' <= s[i] <= 'f')
}

/// The lowercase hex rendering of a byte string.
pub open spec fn hex_of(data: Seq<u8>) -> Seq<char> {
    ascii_chars(hex_bytes(data))
}

/// The decimal digits of `n`, in ASCII, with no leading zeros.
pub open spec fn decimal(n: nat) -> Seq<u8>
    decreases n,
{
    if n < 10 {
        seq![(48 + n) as u8]
    } else {
        decimal(n / 10).push((48 + n % 10) as u8)
    }
}

/// The hex rendering of a byte string followed by more bytes.
proof fn lemma_hex_bytes_push(data: Seq<u8>, b: u8)
    ensures
        hex_bytes(data.push(b)) == hex_bytes(data) + seq![hex_digit(b / 16), hex_digit(b % 16)],
    decreases data.len(),
{
    if data.len() == 0 {
        assert(data.push(b).drop_first() =~= Seq::<u8>::empty());
        assert(data.push(b)[0] == b);
        assert(hex_bytes(data.push(b).drop_first()) == Seq::<u8>::empty());
        assert(hex_bytes(data) == Seq::<u8>::empty());
        assert(hex_bytes(data.push(b)) =~= hex_bytes(data) + seq![hex_digit(b / 16), hex_digit(b % 16)]);
    } else {
        assert(data.push(b).drop_first() =~= data.drop_first().push(b));
        lemma_hex_bytes_push(data.drop_first(), b);
        assert(hex_bytes(data.push(b)) =~= hex_bytes(data) + seq![hex_digit(b / 16), hex_digit(b % 16)]);
    }
}

pub(crate) proof fn lemma_hex_bytes_len(data: Seq<u8>)
    ensures
        hex_bytes(data).len() == 2 * data.len(),
    decreases data.len(),
{
    if data.len() > 0 {
        lemma_hex_bytes_len(data.drop_first());
    }
}

/// Bytes below 128 decode, as UTF-8, to the characters with those codes.
proof fn lemma_ascii_utf8(b: Seq<u8>)
    requires
        forall|i: int| 0 <= i < b.len() ==> b[i] < 128,
    ensures
        valid_utf8(b),
        decode_utf8(b) == ascii_chars(b),
{
    let c = ascii_chars(b);
    assert(is_ascii_chars(c));
    is_ascii_chars_encode_utf8(c);
    assert(encode_utf8(c) =~= b);
    encode_utf8_valid_utf8(c);
    encode_utf8_decode_utf8(c);
}

/// The lowercase hex rendering of `data`, as ASCII bytes.
pub fn hex_encode(data: &[u8]) -> (r: Vec<u8>)
    ensures
        r@ == hex_bytes(data@),
        r@.len() == 2 * data@.len(),
{
    let mut out: Vec<u8> = Vec::new();
    let mut i: usize = 0;
    while i < data.len()
        invariant
            i <= data@.len(),
            out@ == hex_bytes(data@.subrange(0, i as int)),
        decreases data@.len() - i,
    {
        let b = data[i];
        proof {
            assert(data@.subrange(0, i + 1) =~= data@.subrange(0, i as int).push(b));
            lemma_hex_bytes_push(data@.subrange(0, i as int), b);
        }
        let hi = b / 16;
        let lo = b % 16;
        out.push(if hi < 10 { 48 + hi } else { 87 + hi });
        out.push(if lo < 10 { 48 + lo } else { 87 + lo });
        i = i + 1;
        proof {
            assert(out@ =~= hex_bytes(data@.subrange(0, i as int)));
        }
    }
    proof {
        assert(data@.subrange(0, data@.len() as int) =~= data@);
        lemma_hex_bytes_len(data@);
    }
    out
}

/// The lowercase hex rendering of `data` as a string.
pub fn hex_string(data: &[u8]) -> (r: String)
    ensures
        r@ == hex_of(data@),
        r@.len() == 2 * data@.len(),
        is_lower_hex(r@),
{
    let bytes = hex_encode(data);
    proof {
        assert forall|i: int| 0 <= i < bytes@.len() implies bytes@[i] < 128 by {
            lemma_hex_bytes_ascii(data@, i);
        }
        lemma_ascii_utf8(bytes@);
        assert forall|i: int| 0 <= i < hex_of(data@).len() implies ('0' <= #[trigger] hex_of(data@)[i] <= '9') || ('a' <= hex_of(data@)[i] <= 'f') by {
            lemma_hex_bytes_ascii(data@, i);
        }
    }
    match string_from_utf8(bytes) {
        Some(s) => s,
        None => String::new(),
    }
}

pub(crate) proof fn lemma_hex_bytes_ascii(data: Seq<u8>, i: int)
    requires
        0 <= i < hex_bytes(data).len(),
    ensures
        hex_bytes(data)[i] < 128,
        (48 <= hex_bytes(data)[i] <= 57) || (97 <= hex_bytes(data)[i] <= 102),
        hex_bytes(data)[i] == 48 <==> (i % 2 == 0 && data[i / 2] / 16 == 0) || (i % 2 == 1
            && data[i / 2] % 16 == 0),
    decreases data.len(),
{
    lemma_hex_bytes_len(data);
    lemma_hex_bytes_len(data.drop_first());
    if i >= 2 {
        lemma_hex_bytes_ascii(data.drop_first(), i - 2);
    }
}

/// Appends the decimal digits of `n` to `out`.
pub fn push_decimal(out: &mut Vec<u8>, n: u64)
    ensures
        final(out)@ == old(out)@ + decimal(n as nat),
    decreases n,
{
    if n >= 10 {
        push_decimal(out, n / 10);
    }
    out.push(48 + (n % 10) as u8);
    proof {
        assert(final(out)@ =~= old(out)@ + decimal(n as nat));
    }
}

/// Appends `data` to `out`.
pub fn push_bytes(out: &mut Vec<u8>, data: &[u8])
    ensures
        final(out)@ == old(out)@ + data@,
{
    let mut i: usize = 0;
    while i < data.len()
        invariant
            i <= data@.len(),
            out@ == old(out)@ + data@.subrange(0, i as int),
        decreases data@.len() - i,
    {
        out.push(data[i]);
        i = i + 1;
        proof {
            assert(out@ =~= old(out)@ + data@.subrange(0, i as int));
        }
    }
    proof {
        assert(data@.subrange(0, data@.len() as int) =~= data@);
    }
}

} // verus!
