//! The transaction envelope that carries a ballot through the consensus engine's mempool:
//! the election identifier as a string with an eight-byte little-endian length prefix,
//! followed by the ballot's own encoding.
use vstd::prelude::*;
use vstd::utf8::{encode_utf8, valid_utf8};
use crate::ballot::VoteError;

verus! {

broadcast use vstd::utf8::encode_utf8_valid_utf8;

/// A framed transaction: the election identifier and the encoded ballot.
pub struct Tx {
    pub id: String,
    pub ballot: Vec<u8>,
}

pub open spec fn pow256(k: nat) -> nat
    decreases k,
{
    if k == 0 {
        1
    } else {
        256 * pow256((k - 1) as nat)
    }
}

/// The `k` low-order bytes of `n`, least significant first.
pub open spec fn le_bytes(n: nat, k: nat) -> Seq<u8>
    decreases k,
{
    if k == 0 {
        Seq::empty()
    } else {
        seq![(n % 256) as u8] + le_bytes(n / 256, (k - 1) as nat)
    }
}

/// The number whose little-endian bytes are `b`.
pub open spec fn le_value(b: Seq<u8>) -> nat
    decreases b.len(),
{
    if b.len() == 0 {
        0
    } else {
        b[0] as nat + 256 * le_value(b.drop_first())
    }
}

/// The envelope of identifier `id` and encoded ballot `ballot`.
pub open spec fn tx_frame(id: Seq<char>, ballot: Seq<u8>) -> Seq<u8> {
    le_bytes(encode_utf8(id).len(), 8) + encode_utf8(id) + ballot
}

/// The identifier bytes and the ballot bytes of an envelope, if its framing is sound.
pub open spec fn tx_parse(b: Seq<u8>) -> Option<(Seq<u8>, Seq<u8>)> {
    if b.len() < 8 {
        None
    } else {
        let n = le_value(b.subrange(0, 8));
        if 8 + n > b.len() {
            None
        } else {
            Some((b.subrange(8, 8 + n as int), b.subrange(8 + n as int, b.len() as int)))
        }
    }
}

pub proof fn lemma_le_round_trip(n: nat, k: nat)
    requires
        n < pow256(k),
    ensures
        le_bytes(n, k).len() == k,
        le_value(le_bytes(n, k)) == n,
    decreases k,
{
    if k > 0 {
        assert(n / 256 < pow256((k - 1) as nat)) by (nonlinear_arith)
            requires
                n < 256 * pow256((k - 1) as nat),
        ;
        lemma_le_round_trip(n / 256, (k - 1) as nat);
        let b = le_bytes(n, k);
        assert(b.drop_first() =~= le_bytes(n / 256, (k - 1) as nat));
        assert(((n % 256) as u8) as nat == n % 256);
    }
}

pub proof fn lemma_le_value_bound(b: Seq<u8>)
    ensures
        le_value(b) < pow256(b.len()),
    decreases b.len(),
{
    if b.len() > 0 {
        lemma_le_value_bound(b.drop_first());
        let r = le_value(b.drop_first());
        let p = pow256(b.drop_first().len());
        assert(b[0] as nat + 256 * r < 256 * p) by (nonlinear_arith)
            requires
                r < p,
                b[0] < 256,
        ;
    }
}

/// Parsing an envelope gives back the identifier and ballot it was built from.
pub proof fn lemma_tx_round_trip(id: Seq<char>, ballot: Seq<u8>)
    requires
        encode_utf8(id).len() < pow256(8),
    ensures
        tx_parse(tx_frame(id, ballot)) == Some((encode_utf8(id), ballot)),
        valid_utf8(encode_utf8(id)),
{
    let ib = encode_utf8(id);
    lemma_le_round_trip(ib.len(), 8);
    let f = tx_frame(id, ballot);
    assert(f.subrange(0, 8) =~= le_bytes(ib.len(), 8));
    assert(f.subrange(8, 8 + ib.len() as int) =~= ib);
    assert(f.subrange(8 + ib.len() as int, f.len() as int) =~= ballot);
}

/// The bytes of `b` from `from` to `to`.
fn copy_range(b: &[u8], from: usize, to: usize) -> (r: Vec<u8>)
    requires
        from <= to <= b@.len(),
    ensures
        r@ == b@.subrange(from as int, to as int),
{
    let mut r: Vec<u8> = Vec::new();
    let mut i: usize = from;
    while i < to
        invariant
            from <= i <= to <= b@.len(),
            r@ == b@.subrange(from as int, i as int),
        decreases to - i,
    {
        r.push(b[i]);
        proof {
            assert(b@.subrange(from as int, i + 1) =~= b@.subrange(from as int, i as int).push(b@[i as int]));
        }
        i = i + 1;
    }
    r
}

/// Relies on `String::from_utf8`: it succeeds exactly on valid UTF-8, and the string's
/// encoding is the bytes it was made from.
#[verifier::external_body]
fn string_from_utf8(v: Vec<u8>) -> (r: Option<String>)
    ensures
        r is Some <==> valid_utf8(v@),
        r matches Some(s) ==> encode_utf8(s@) == v@,
{
    String::from_utf8(v).ok()
}

/// Frames identifier `id` and encoded ballot `ballot` into an envelope.
pub fn encode_tx(id: &String, ballot: &Vec<u8>) -> (r: Vec<u8>)
    ensures
        r@ == tx_frame(id@, ballot@),
{
    let ib: &[u8] = id.as_str().as_bytes();
    let mut out: Vec<u8> = Vec::new();
    let mut v: u64 = ib.len() as u64;
    let ghost n: nat = ib@.len();
    let mut i: usize = 0;
    proof {
        assert(ib@ == encode_utf8(id@));
        assert(le_bytes(n, 8) =~= out@ + le_bytes(v as nat, 8));
    }
    while i < 8
        invariant
            i <= 8,
            le_bytes(n, 8) == out@ + le_bytes(v as nat, (8 - i) as nat),
        decreases 8 - i,
    {
        let ghost before = out@;
        let ghost old_v: nat = v as nat;
        let ghost m: nat = (8 - i - 1) as nat;
        out.push((v % 256) as u8);
        v = v / 256;
        proof {
            assert(le_bytes(old_v, (m + 1) as nat) == seq![(old_v % 256) as u8] + le_bytes(old_v / 256, m));
            assert(out@ == before.push((old_v % 256) as u8));
            assert(out@ + le_bytes(v as nat, m) =~= before + (seq![(old_v % 256) as u8] + le_bytes(v as nat, m)));
        }
        i = i + 1;
    }
    let mut k: usize = 0;
    let ghost head = out@;
    while k < ib.len()
        invariant
            k <= ib@.len(),
            out@ == head + ib@.subrange(0, k as int),
        decreases ib@.len() - k,
    {
        out.push(ib[k]);
        proof {
            assert(ib@.subrange(0, k + 1) =~= ib@.subrange(0, k as int).push(ib@[k as int]));
        }
        k = k + 1;
    }
    let mut j: usize = 0;
    let ghost mid = out@;
    proof {
        assert(ib@.subrange(0, ib@.len() as int) =~= ib@);
    }
    while j < ballot.len()
        invariant
            j <= ballot@.len(),
            out@ == mid + ballot@.subrange(0, j as int),
        decreases ballot@.len() - j,
    {
        out.push(ballot[j]);
        proof {
            assert(ballot@.subrange(0, j + 1) =~= ballot@.subrange(0, j as int).push(ballot@[j as int]));
        }
        j = j + 1;
    }
    proof {
        assert(ballot@.subrange(0, ballot@.len() as int) =~= ballot@);
        assert(le_bytes(v as nat, 0) =~= Seq::<u8>::empty());
        assert(out@ =~= tx_frame(id@, ballot@));
    }
    out
}

/// Opens an envelope. Fails with `MalformedTx` when the length prefix runs past the end or
/// the identifier is not valid UTF-8.
pub fn decode_tx(bytes: &[u8]) -> (r: Result<Tx, VoteError>)
    ensures
        r is Ok <==> (tx_parse(bytes@) matches Some(p) && valid_utf8(p.0)),
        r matches Ok(tx) ==> (tx_parse(bytes@) matches Some(p) && encode_utf8(tx.id@) == p.0
            && tx.ballot@ == p.1),
        r is Err ==> r == Err::<Tx, VoteError>(VoteError::MalformedTx),
{
    let len: usize = bytes.len();
    if len < 8 {
        return Err(VoteError::MalformedTx);
    }
    let ghost head = bytes@.subrange(0, 8);
    let mut acc: u64 = 0;
    let mut i: usize = 8;
    proof {
        assert(head.subrange(8, 8).len() == 0);
    }
    while i > 0
        invariant
            i <= 8,
            len == bytes@.len(),
            len >= 8,
            head == bytes@.subrange(0, 8),
            acc as nat == le_value(head.subrange(i as int, 8)),
        decreases i,
    {
        let ghost tail = head.subrange(i as int, 8);
        let ghost ext = head.subrange(i - 1, 8);
        proof {
            assert(ext.drop_first() =~= tail);
            assert(ext[0] == bytes@[i - 1]);
            lemma_le_value_bound(tail);
            assert(pow256(tail.len()) <= pow256(7)) by {
                lemma_pow256_mono(tail.len(), 7);
            }
            assert(pow256(7) == 0x100_0000_0000_0000) by {
                reveal_with_fuel(pow256, 8);
            }
            assert(acc * 256 + 255 <= u64::MAX) by (nonlinear_arith)
                requires
                    acc < 0x100_0000_0000_0000,
            ;
        }
        acc = acc * 256 + bytes[i - 1] as u64;
        i = i - 1;
    }
    proof {
        assert(head.subrange(0, 8) =~= head);
    }
    let n: u64 = acc;
    assert(n as nat == le_value(bytes@.subrange(0, 8)));
    if n > (len - 8) as u64 {
        return Err(VoteError::MalformedTx);
    }
    let end: usize = 8 + n as usize;
    let id_bytes: Vec<u8> = copy_range(bytes, 8, end);
    let ballot: Vec<u8> = copy_range(bytes, end, len);
    match string_from_utf8(id_bytes) {
        None => Err(VoteError::MalformedTx),
        Some(id) => Ok(Tx { id, ballot }),
    }
}

proof fn lemma_pow256_mono(a: nat, b: nat)
    requires
        a <= b,
    ensures
        pow256(a) <= pow256(b),
    decreases b,
{
    if a < b {
        lemma_pow256_mono(a, (b - 1) as nat);
    }
}

} // verus!
