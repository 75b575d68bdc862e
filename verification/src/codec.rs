//! Byte layout of the persisted counter record.
//!
//! The record is laid out as: one byte holding the counter value in
//! two's complement; the record count as eight little-endian bytes;
//! each record as two length-prefixed byte strings, key then message;
//! and last the length-prefixed local account identifier. Every
//! length prefix is eight little-endian bytes.

use vstd::prelude::*;

use crate::state::{in_range, unique_keys, CounterState};

verus! {

/// Powers of two hundred and fifty-six: how many values k bytes can
/// tell apart.
pub open spec fn pow256(k: nat) -> nat
    decreases k,
{
    if k == 0 {
        1
    } else {
        256 * pow256((k - 1) as nat)
    }
}

/// The eighth power written out: the first count beyond a length
/// prefix.
pub proof fn lemma_pow256_8()
    ensures
        pow256(8) == 0x1_0000_0000_0000_0000,
{
    assert(pow256(0) == 1);
    assert(pow256(1) == 256);
    assert(pow256(2) == 0x1_0000);
    assert(pow256(3) == 0x100_0000);
    assert(pow256(4) == 0x1_0000_0000);
    assert(pow256(5) == 0x100_0000_0000);
    assert(pow256(6) == 0x1_0000_0000_0000);
    assert(pow256(7) == 0x100_0000_0000_0000);
}

/// More bytes tell at least as many values apart.
pub proof fn lemma_pow256_mono(a: nat, b: nat)
    requires
        a <= b,
    ensures
        pow256(a) <= pow256(b),
    decreases b,
{
    if a < b {
        lemma_pow256_mono(a, (b - 1) as nat);
    }
}

/// The k little-endian bytes of n.
pub open spec fn le_bytes(n: nat, k: nat) -> Seq<u8>
    decreases k,
{
    if k == 0 {
        Seq::empty()
    } else {
        seq![(n % 256) as u8] + le_bytes(n / 256, (k - 1) as nat)
    }
}

/// The number a little-endian byte string stands for.
pub open spec fn le_value(s: Seq<u8>) -> nat
    decreases s.len(),
{
    if s.len() == 0 {
        0
    } else {
        s[0] as nat + 256 * le_value(s.drop_first())
    }
}

/// A number always takes exactly k bytes.
pub proof fn lemma_le_bytes_len(n: nat, k: nat)
    ensures
        le_bytes(n, k).len() == k,
    decreases k,
{
    if k > 0 {
        lemma_le_bytes_len(n / 256, (k - 1) as nat);
    }
}

/// Reading back the little-endian bytes of a number below the k-th
/// power yields the number.
pub proof fn lemma_le_bytes_value(n: nat, k: nat)
    requires
        n < pow256(k),
    ensures
        le_value(le_bytes(n, k)) == n,
    decreases k,
{
    if k > 0 {
        let s = le_bytes(n, k);
        assert(s.drop_first() =~= le_bytes(n / 256, (k - 1) as nat));
        assert(n / 256 < pow256((k - 1) as nat)) by (nonlinear_arith)
            requires
                n < pow256(k),
                pow256(k) == 256 * pow256((k - 1) as nat),
        ;
        lemma_le_bytes_value(n / 256, (k - 1) as nat);
        assert(n % 256 + 256 * (n / 256) == n) by (nonlinear_arith);
    }
}

/// A byte string behind its eight-byte length prefix.
pub open spec fn encode_chunk(data: Seq<u8>) -> Seq<u8> {
    le_bytes(data.len(), 8) + data
}

/// Reads one length-prefixed byte string off the front, returning it
/// and the remainder.
pub open spec fn parse_chunk(b: Seq<u8>) -> Option<(Seq<u8>, Seq<u8>)> {
    if b.len() < 8 {
        None
    } else {
        let n = le_value(b.take(8));
        if b.len() < n + 8 {
            None
        } else {
            Some((b.subrange(8, n as int + 8), b.skip(n as int + 8)))
        }
    }
}

/// A chunk followed by anything parses back to its byte string and
/// the remainder.
pub proof fn lemma_chunk_round_trip(data: Seq<u8>, rest: Seq<u8>)
    requires
        data.len() < pow256(8),
    ensures
        parse_chunk(encode_chunk(data) + rest) == Some((data, rest)),
{
    let b = encode_chunk(data) + rest;
    lemma_le_bytes_len(data.len(), 8);
    assert(b.take(8) =~= le_bytes(data.len(), 8));
    lemma_le_bytes_value(data.len(), 8);
    assert(b.subrange(8, data.len() as int + 8) =~= data);
    assert(b.skip(data.len() as int + 8) =~= rest);
}

/// The records one after another, each as key chunk then message
/// chunk.
pub open spec fn encode_records(rs: Seq<(Seq<u8>, Seq<u8>)>) -> Seq<u8>
    decreases rs.len(),
{
    if rs.len() == 0 {
        Seq::empty()
    } else {
        encode_chunk(rs[0].0) + encode_chunk(rs[0].1) + encode_records(rs.drop_first())
    }
}

/// Reads k records off the front, returning them and the remainder.
pub open spec fn parse_records(b: Seq<u8>, k: nat) -> Option<(Seq<(Seq<u8>, Seq<u8>)>, Seq<u8>)>
    decreases k,
{
    if k == 0 {
        Some((Seq::empty(), b))
    } else {
        match parse_chunk(b) {
            Option::None => None,
            Option::Some((key, after_key)) => match parse_chunk(after_key) {
                Option::None => None,
                Option::Some((msg, after_msg)) => match parse_records(
                    after_msg,
                    (k - 1) as nat,
                ) {
                    Option::None => None,
                    Option::Some((recs, rest)) => Some((seq![(key, msg)] + recs, rest)),
                },
            },
        }
    }
}

/// Whether every record is short enough for its length prefixes.
pub open spec fn records_fit(rs: Seq<(Seq<u8>, Seq<u8>)>) -> bool {
    forall|i: int|
        0 <= i < rs.len() ==> (#[trigger] rs[i]).0.len() < pow256(8) && rs[i].1.len() < pow256(8)
}

/// Appending one record appends its two chunks.
pub proof fn lemma_encode_records_snoc(rs: Seq<(Seq<u8>, Seq<u8>)>, r: (Seq<u8>, Seq<u8>))
    ensures
        encode_records(rs.push(r)) == encode_records(rs) + encode_chunk(r.0) + encode_chunk(r.1),
    decreases rs.len(),
{
    if rs.len() == 0 {
        assert(rs.push(r).drop_first() =~= Seq::<(Seq<u8>, Seq<u8>)>::empty());
        assert(rs.push(r)[0] == r);
        assert(encode_records(rs.push(r)) == encode_chunk(rs.push(r)[0].0) + encode_chunk(
            rs.push(r)[0].1,
        ) + encode_records(rs.push(r).drop_first()));
        assert(encode_records(Seq::<(Seq<u8>, Seq<u8>)>::empty()) == Seq::<u8>::empty());
        assert(encode_records(rs.push(r)) =~= encode_chunk(r.0) + encode_chunk(r.1));
        assert(encode_records(rs) + encode_chunk(r.0) + encode_chunk(r.1) =~= encode_chunk(r.0)
            + encode_chunk(r.1));
    } else {
        assert(rs.push(r).drop_first() =~= rs.drop_first().push(r));
        lemma_encode_records_snoc(rs.drop_first(), r);
        assert(encode_records(rs.push(r)) =~= encode_records(rs) + encode_chunk(r.0)
            + encode_chunk(r.1));
    }
}

/// Records followed by anything parse back to themselves and the
/// remainder.
pub proof fn lemma_records_round_trip(rs: Seq<(Seq<u8>, Seq<u8>)>, rest: Seq<u8>)
    requires
        records_fit(rs),
    ensures
        parse_records(encode_records(rs) + rest, rs.len()) == Some((rs, rest)),
    decreases rs.len(),
{
    if rs.len() == 0 {
        assert(encode_records(rs) + rest =~= rest);
    } else {
        let key = rs[0].0;
        let msg = rs[0].1;
        let tail = rs.drop_first();
        let b = encode_records(rs) + rest;
        assert(b =~= encode_chunk(key) + (encode_chunk(msg) + (encode_records(tail) + rest)));
        lemma_chunk_round_trip(key, encode_chunk(msg) + (encode_records(tail) + rest));
        lemma_chunk_round_trip(msg, encode_records(tail) + rest);
        assert(records_fit(tail)) by {
            assert(forall|j: int|
                0 <= j < tail.len() ==> #[trigger] tail[j] == rs[j + 1]);
        }
        lemma_records_round_trip(tail, rest);
        assert(seq![(key, msg)] + tail =~= rs);
    }
}

/// The counter value as its two's-complement byte.
pub open spec fn byte_of_value(v: int) -> u8 {
    if v >= 0 {
        v as u8
    } else {
        (v + 256) as u8
    }
}

/// The counter value a byte stands for.
pub open spec fn value_of_byte(b: u8) -> int {
    if b < 128 {
        b as int
    } else {
        b as int - 256
    }
}

/// A representable value survives the trip through its byte.
pub proof fn lemma_value_byte_round_trip(v: int)
    requires
        in_range(v),
    ensures
        value_of_byte(byte_of_value(v)) == v,
{
}

/// Whether a state is small enough to lay out: every length fits its
/// eight-byte prefix.
pub open spec fn state_fits(s: CounterState) -> bool {
    &&& s.records.len() < pow256(8)
    &&& records_fit(s.records)
    &&& s.local_account_id.len() < pow256(8)
}

/// The whole persisted record.
pub open spec fn encode_state(s: CounterState) -> Seq<u8> {
    seq![byte_of_value(s.value)] + le_bytes(s.records.len(), 8) + encode_records(s.records)
        + encode_chunk(s.local_account_id)
}

/// Reads a whole persisted record back into a state. Rejects short
/// input, trailing bytes, a record count the data cannot honor, and
/// duplicate record keys.
pub open spec fn parse_state(b: Seq<u8>) -> Option<CounterState> {
    if b.len() < 9 {
        None
    } else {
        let v = value_of_byte(b[0]);
        let k = le_value(b.subrange(1, 9));
        match parse_records(b.skip(9), k) {
            Option::None => None,
            Option::Some((recs, rest)) => match parse_chunk(rest) {
                Option::None => None,
                Option::Some((lid, after)) => if after.len() == 0 && unique_keys(recs) {
                    Some(CounterState { value: v, records: recs, local_account_id: lid })
                } else {
                    None
                },
            },
        }
    }
}

/// Law: laying out a well-formed state and reading it back yields the
/// state unchanged.
pub proof fn lemma_state_round_trip(s: CounterState)
    requires
        s.wf(),
        state_fits(s),
    ensures
        parse_state(encode_state(s)) == Some(s),
{
    let b = encode_state(s);
    lemma_le_bytes_len(s.records.len(), 8);
    lemma_le_bytes_len(s.local_account_id.len(), 8);
    assert(b.len() >= 9);
    assert(b[0] == byte_of_value(s.value));
    lemma_value_byte_round_trip(s.value);
    assert(b.subrange(1, 9) =~= le_bytes(s.records.len(), 8));
    lemma_le_bytes_value(s.records.len(), 8);
    assert(b.skip(9) =~= encode_records(s.records) + encode_chunk(s.local_account_id));
    lemma_records_round_trip(s.records, encode_chunk(s.local_account_id));
    lemma_chunk_round_trip(s.local_account_id, Seq::empty());
    assert(encode_chunk(s.local_account_id) + Seq::<u8>::empty() =~= encode_chunk(
        s.local_account_id,
    ));
}

/// Appends the eight little-endian bytes of a number.
pub fn push_u64_le(out: &mut Vec<u8>, n: u64)
    ensures
        final(out)@ == old(out)@ + le_bytes(n as nat, 8),
{
    let ghost goal = old(out)@ + le_bytes(n as nat, 8);
    let mut m: u64 = n;
    let mut t: usize = 0;
    while t < 8
        invariant
            t <= 8,
            out@ + le_bytes(m as nat, (8 - t) as nat) == goal,
        decreases 8 - t,
    {
        let b: u8 = (m % 256) as u8;
        proof {
            assert(le_bytes(m as nat, (8 - t) as nat) == seq![b] + le_bytes(
                m as nat / 256,
                (7 - t) as nat,
            ));
        }
        out.push(b);
        m = m / 256;
        t = t + 1;
        proof {
            assert(out@ + le_bytes(m as nat, (8 - t) as nat) =~= goal);
        }
    }
    proof {
        assert(out@ =~= goal);
    }
}

/// Reads the number eight little-endian bytes stand for.
pub fn read_u64_le(bytes: &Vec<u8>, pos: usize) -> (n: u64)
    requires
        pos + 8 <= bytes@.len(),
    ensures
        n as nat == le_value(bytes@.subrange(pos as int, pos as int + 8)),
{
    let total = bytes.len();
    let mut n: u64 = 0;
    let mut t: usize = 8;
    while t > 0
        invariant
            t <= 8,
            total == bytes@.len(),
            pos + 8 <= bytes@.len(),
            n as nat == le_value(bytes@.subrange(pos as int + t, pos as int + 8)),
            (n as nat) < pow256((8 - t) as nat),
        decreases t,
    {
        t = t - 1;
        let b = bytes[pos + t];
        proof {
            lemma_pow256_8();
            lemma_pow256_mono((7 - t) as nat, 7);
            assert(pow256(7) == 0x100_0000_0000_0000);
            let s = bytes@.subrange(pos as int + t, pos as int + 8);
            assert(s[0] == b);
            assert(s.drop_first() =~= bytes@.subrange(pos as int + t + 1, pos as int + 8));
            assert(pow256((8 - t) as nat) == 256 * pow256((7 - t) as nat));
        }
        n = n * 256 + (b as u64);
    }
    proof {
        assert(bytes@.subrange(pos as int, pos as int + 8) == bytes@.subrange(
            pos as int + 0,
            pos as int + 8,
        ));
    }
    n
}

/// Appends a byte string behind its length prefix.
pub fn push_chunk(out: &mut Vec<u8>, data: &Vec<u8>)
    ensures
        final(out)@ == old(out)@ + encode_chunk(data@),
{
    push_u64_le(out, data.len() as u64);
    let n = data.len();
    let mut t: usize = 0;
    while t < n
        invariant
            t <= n,
            n == data@.len(),
            out@ == old(out)@ + le_bytes(data@.len(), 8) + data@.take(t as int),
        decreases n - t,
    {
        out.push(data[t]);
        t = t + 1;
        proof {
            assert(data@.take(t as int) =~= data@.take(t as int - 1).push(data@[t as int - 1]));
        }
    }
    proof {
        assert(data@.take(n as int) =~= data@);
        assert(out@ =~= old(out)@ + encode_chunk(data@));
    }
}

/// Reads one length-prefixed byte string, returning it and the
/// position just past it.
pub fn read_chunk(bytes: &Vec<u8>, pos: usize) -> (r: Option<(Vec<u8>, usize)>)
    requires
        pos <= bytes@.len(),
    ensures
        match r {
            Some(p) => {
                &&& parse_chunk(bytes@.skip(pos as int)) == Some((p.0@, bytes@.skip(p.1 as int)))
                &&& pos + 8 + p.0@.len() == p.1
                &&& pos < p.1 <= bytes@.len()
            },
            None => parse_chunk(bytes@.skip(pos as int)) is None,
        },
{
    let ghost b = bytes@.skip(pos as int);
    if bytes.len() - pos < 8 {
        return None;
    }
    let n64 = read_u64_le(bytes, pos);
    proof {
        assert(b.take(8) =~= bytes@.subrange(pos as int, pos as int + 8));
    }
    let remaining = bytes.len() - pos - 8;
    if n64 > remaining as u64 {
        proof {
            assert(b.len() < n64 as nat + 8);
        }
        return None;
    }
    let n = n64 as usize;
    let data = vstd::slice::slice_to_vec(vstd::slice::slice_subrange(
        bytes.as_slice(),
        pos + 8,
        pos + 8 + n,
    ));
    proof {
        assert(data@ =~= b.subrange(8, n64 as int + 8));
        assert(bytes@.skip(pos as int + 8 + n as int) =~= b.skip(n64 as int + 8));
    }
    Some((data, pos + 8 + n))
}

} // verus!
