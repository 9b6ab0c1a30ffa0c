//! Byte-level encodings used by the storage engine: fixed-width index keys
//! whose comparator order matches numeric order, the ballot record, and the
//! full durable image of a store (ballot plus all log entries).
#![allow(unused_imports)]
use vstd::prelude::*;
use vstd::bytes::{
    lemma_auto_spec_u64_to_from_le_bytes, spec_u64_from_le_bytes, spec_u64_to_le_bytes,
    u64_from_le_bytes, u64_to_le_bytes,
};
use vstd::slice::{slice_index_get, slice_subrange, slice_to_vec};
use core::cmp::Ordering;
use crate::storage::Ballot;

verus! {

// ---------------------------------------------------------------------------
// Index keys
// ---------------------------------------------------------------------------

/// The durable key under which the entry at index `i` is stored: the index
/// as a fixed-width little-endian byte string.
pub open spec fn spec_index_key(i: u64) -> Seq<u8> {
    spec_u64_to_le_bytes(i)
}

/// Encodes an index as its fixed-width durable key.
pub fn encode_index(i: u64) -> (r: Vec<u8>)
    ensures
        r@ == spec_index_key(i),
        r@.len() == 8,
{
    u64_to_le_bytes(i)
}

/// Reads an index back out of a durable key.
pub fn decode_index(s: &[u8]) -> (r: u64)
    requires
        s@.len() == 8,
    ensures
        r == spec_u64_from_le_bytes(s@),
        spec_index_key(r) == s@,
{
    proof {
        lemma_auto_spec_u64_to_from_le_bytes();
    }
    u64_from_le_bytes(s)
}

/// The order the comparator imposes on two well-formed keys: the numeric
/// order of the indexes they decode to.
pub open spec fn spec_key_cmp(x: Seq<u8>, y: Seq<u8>) -> Ordering {
    let a = spec_u64_from_le_bytes(x);
    let b = spec_u64_from_le_bytes(y);
    if a < b {
        Ordering::Less
    } else if a == b {
        Ordering::Equal
    } else {
        Ordering::Greater
    }
}

/// Key comparator for the entry region: orders raw encoded keys by the
/// numeric value of the index they encode, never by byte-lexicographic
/// order, so ordered scans of the store agree with index order.
pub fn comparator_fn(x: &[u8], y: &[u8]) -> (r: Ordering)
    requires
        x@.len() == 8,
        y@.len() == 8,
    ensures
        r == spec_key_cmp(x@, y@),
{
    let a = decode_index(x);
    let b = decode_index(y);
    if a < b {
        Ordering::Less
    } else if a == b {
        Ordering::Equal
    } else {
        Ordering::Greater
    }
}

/// Round trip: a key decodes back to the index it was made from.
pub proof fn lemma_index_key_roundtrip(i: u64)
    ensures
        spec_index_key(i).len() == 8,
        spec_u64_from_le_bytes(spec_index_key(i)) == i,
{
    lemma_auto_spec_u64_to_from_le_bytes();
}

// ---------------------------------------------------------------------------
// Ballot record
// ---------------------------------------------------------------------------

/// Byte layout of the single ballot record: the term, then a one-byte tag for
/// the vote (0 = none, 1 = voted), then the voted-for node id (0 when none).
pub open spec fn spec_ballot_bytes(b: Ballot) -> Seq<u8> {
    match b.voted_for {
        Option::None => spec_u64_to_le_bytes(b.cur_term) + seq![0u8] + spec_u64_to_le_bytes(0u64),
        Option::Some(n) => spec_u64_to_le_bytes(b.cur_term) + seq![1u8] + spec_u64_to_le_bytes(n),
    }
}

/// What a 17-byte ballot record parses to; `None` when the record is corrupt.
pub open spec fn spec_parse_ballot(s: Seq<u8>) -> Option<Ballot> {
    if s.len() != 17 {
        Option::None
    } else {
        let term = spec_u64_from_le_bytes(s.subrange(0, 8));
        let tag = s[8];
        let vote = spec_u64_from_le_bytes(s.subrange(9, 17));
        if tag == 0 && vote == 0 {
            Option::Some(Ballot { cur_term: term, voted_for: Option::None })
        } else if tag == 1 {
            Option::Some(Ballot { cur_term: term, voted_for: Option::Some(vote) })
        } else {
            Option::None
        }
    }
}

/// Encodes the ballot record.
pub fn encode_ballot(b: &Ballot) -> (r: Vec<u8>)
    ensures
        r@ == spec_ballot_bytes(*b),
        r@.len() == 17,
{
    let mut out = u64_to_le_bytes(b.cur_term);
    match b.voted_for {
        Option::None => {
            out.push(0u8);
            let mut vote = u64_to_le_bytes(0u64);
            out.append(&mut vote);
        },
        Option::Some(n) => {
            out.push(1u8);
            let mut vote = u64_to_le_bytes(n);
            out.append(&mut vote);
        },
    }
    proof {
        assert(out@ =~= spec_ballot_bytes(*b));
    }
    out
}

/// Parses a ballot record; `None` when corrupt.
pub fn parse_ballot(s: &[u8]) -> (r: Option<Ballot>)
    ensures
        r == spec_parse_ballot(s@),
{
    if s.len() != 17 {
        return Option::None;
    }
    let term = u64_from_le_bytes(slice_subrange(s, 0, 8));
    let tag = *slice_index_get(s, 8);
    let vote = u64_from_le_bytes(slice_subrange(s, 9, 17));
    if tag == 0 && vote == 0 {
        Option::Some(Ballot { cur_term: term, voted_for: Option::None })
    } else if tag == 1 {
        Option::Some(Ballot { cur_term: term, voted_for: Option::Some(vote) })
    } else {
        Option::None
    }
}

/// Round trip: an encoded ballot parses back to itself.
pub proof fn lemma_ballot_roundtrip(b: Ballot)
    ensures
        spec_ballot_bytes(b).len() == 17,
        spec_parse_ballot(spec_ballot_bytes(b)) == Option::Some(b),
{
    lemma_auto_spec_u64_to_from_le_bytes();
    let s = spec_ballot_bytes(b);
    match b.voted_for {
        Option::None => {
            assert(s.subrange(0, 8) =~= spec_u64_to_le_bytes(b.cur_term));
            assert(s[8] == 0u8);
            assert(s.subrange(9, 17) =~= spec_u64_to_le_bytes(0u64));
        },
        Option::Some(n) => {
            assert(s.subrange(0, 8) =~= spec_u64_to_le_bytes(b.cur_term));
            assert(s[8] == 1u8);
            assert(s.subrange(9, 17) =~= spec_u64_to_le_bytes(n));
        },
    }
}

// ---------------------------------------------------------------------------
// Entry records and the full durable image
// ---------------------------------------------------------------------------

/// The mathematical contents of the entry region: index/payload pairs.
pub type RecordSeq = Seq<(u64, Seq<u8>)>;

/// The view of an in-memory entry table as record contents.
pub open spec fn records_view(rs: Seq<(u64, Vec<u8>)>) -> RecordSeq {
    rs.map_values(|p: (u64, Vec<u8>)| (p.0, p.1@))
}

/// Byte layout of one entry record: its key, the payload length, the payload.
pub open spec fn spec_entry_record(i: u64, e: Seq<u8>) -> Seq<u8> {
    spec_index_key(i) + spec_u64_to_le_bytes(e.len() as u64) + e
}

/// Byte layout of the whole entry region, records in table order.
pub open spec fn spec_records_bytes(rs: RecordSeq) -> Seq<u8>
    decreases rs.len(),
{
    if rs.len() == 0 {
        Seq::empty()
    } else {
        spec_entry_record(rs[0].0, rs[0].1) + spec_records_bytes(rs.drop_first())
    }
}

/// A record seq is encodable when each payload length fits the length field.
pub open spec fn records_encodable(rs: RecordSeq) -> bool {
    &&& rs.len() <= u64::MAX
    &&& forall|k: int| 0 <= k < rs.len() ==> #[trigger] rs[k].1.len() <= u64::MAX
}

/// What the entry region parses to when it should hold exactly `n` records;
/// `None` when truncated, oversized or otherwise corrupt.
pub open spec fn spec_parse_records(s: Seq<u8>, n: nat) -> Option<RecordSeq>
    decreases n,
{
    if n == 0 {
        if s.len() == 0 {
            Option::Some(Seq::empty())
        } else {
            Option::None
        }
    } else if s.len() < 16 {
        Option::None
    } else {
        let i = spec_u64_from_le_bytes(s.subrange(0, 8));
        let l = spec_u64_from_le_bytes(s.subrange(8, 16));
        if s.len() - 16 < l {
            Option::None
        } else {
            let e = s.subrange(16, 16 + l);
            match spec_parse_records(s.subrange(16 + l, s.len() as int), (n - 1) as nat) {
                Option::None => Option::None,
                Option::Some(rest) => Option::Some(seq![(i, e)] + rest),
            }
        }
    }
}

/// Byte layout of the full durable image: the ballot record, the entry
/// count, then the entry region.
pub open spec fn spec_image(rs: RecordSeq, b: Ballot) -> Seq<u8> {
    spec_ballot_bytes(b) + spec_u64_to_le_bytes(rs.len() as u64) + spec_records_bytes(rs)
}

/// What a durable image parses to; `None` when corrupt.
pub open spec fn spec_parse_image(s: Seq<u8>) -> Option<(RecordSeq, Ballot)> {
    if s.len() < 25 {
        Option::None
    } else {
        match spec_parse_ballot(s.subrange(0, 17)) {
            Option::None => Option::None,
            Option::Some(b) => {
                let n = spec_u64_from_le_bytes(s.subrange(17, 25));
                match spec_parse_records(s.subrange(25, s.len() as int), n as nat) {
                    Option::None => Option::None,
                    Option::Some(rs) => Option::Some((rs, b)),
                }
            },
        }
    }
}

/// Appending one record to the table appends its bytes to the entry region.
pub proof fn lemma_records_bytes_push(rs: RecordSeq, i: u64, e: Seq<u8>)
    ensures
        spec_records_bytes(rs.push((i, e))) == spec_records_bytes(rs) + spec_entry_record(i, e),
    decreases rs.len(),
{
    if rs.len() == 0 {
        let grown = rs.push((i, e));
        assert(grown[0] == (i, e));
        assert(grown.drop_first() =~= Seq::<(u64, Seq<u8>)>::empty());
        assert(spec_records_bytes(grown.drop_first()) == Seq::<u8>::empty());
        assert(spec_records_bytes(grown) == spec_entry_record(i, e) + Seq::<u8>::empty());
        assert(spec_entry_record(i, e) + Seq::<u8>::empty() =~= spec_entry_record(i, e));
        assert(spec_records_bytes(rs) == Seq::<u8>::empty());
        assert(Seq::<u8>::empty() + spec_entry_record(i, e) =~= spec_entry_record(i, e));
    } else {
        let p = (i, e);
        let grown = rs.push(p);
        let rec0 = spec_entry_record(rs[0].0, rs[0].1);
        let tl = rs.drop_first();
        assert(grown[0] == rs[0]);
        assert(grown.drop_first() =~= tl.push(p));
        assert(spec_records_bytes(grown) == rec0 + spec_records_bytes(tl.push(p)));
        lemma_records_bytes_push(tl, i, e);
        assert(spec_records_bytes(rs) == rec0 + spec_records_bytes(tl));
        assert(rec0 + (spec_records_bytes(tl) + spec_entry_record(i, e)) =~= (rec0
            + spec_records_bytes(tl)) + spec_entry_record(i, e));
    }
}

/// Round trip for the entry region: encoding `rs` and parsing it back with
/// the right count yields `rs` again.
pub proof fn lemma_records_roundtrip(rs: RecordSeq)
    requires
        records_encodable(rs),
    ensures
        spec_parse_records(spec_records_bytes(rs), rs.len()) == Option::Some(rs),
    decreases rs.len(),
{
    lemma_auto_spec_u64_to_from_le_bytes();
    if rs.len() == 0 {
        assert(spec_parse_records(spec_records_bytes(rs), rs.len()) =~= Option::Some(rs));
    } else {
        let hd = rs[0];
        let tl = rs.drop_first();
        let rec = spec_entry_record(hd.0, hd.1);
        let rest = spec_records_bytes(tl);
        let s = spec_records_bytes(rs);
        assert(s == rec + rest);
        assert(rec.len() == 16 + hd.1.len());
        assert(s.subrange(0, 8) =~= spec_index_key(hd.0));
        assert(s.subrange(8, 16) =~= spec_u64_to_le_bytes(hd.1.len() as u64));
        let l = spec_u64_from_le_bytes(s.subrange(8, 16));
        assert(l == hd.1.len() as u64);
        assert(s.len() - 16 >= l);
        assert(s.subrange(16, 16 + l) =~= hd.1);
        assert(s.subrange(16 + l, s.len() as int) =~= rest);
        assert(records_encodable(tl)) by {
            assert(forall|k: int|
                0 <= k < tl.len() ==> #[trigger] tl[k].1.len() == rs[k + 1].1.len());
        }
        lemma_records_roundtrip(tl);
        assert(seq![(spec_u64_from_le_bytes(s.subrange(0, 8)), s.subrange(16, 16 + l))] + tl
            =~= rs);
    }
}

/// Persistence round trip for the full image: everything written before a
/// close parses back identically after a reopen.
pub proof fn lemma_image_roundtrip(rs: RecordSeq, b: Ballot)
    requires
        records_encodable(rs),
    ensures
        spec_parse_image(spec_image(rs, b)) == Option::Some((rs, b)),
{
    lemma_auto_spec_u64_to_from_le_bytes();
    lemma_ballot_roundtrip(b);
    lemma_records_roundtrip(rs);
    let s = spec_image(rs, b);
    assert(s.subrange(0, 17) =~= spec_ballot_bytes(b));
    assert(s.subrange(17, 25) =~= spec_u64_to_le_bytes(rs.len() as u64));
    assert(s.subrange(25, s.len() as int) =~= spec_records_bytes(rs));
}

/// Encodes the full durable image of an entry table and ballot.
pub fn encode_image(entries: &Vec<(u64, Vec<u8>)>, b: &Ballot) -> (r: Vec<u8>)
    ensures
        r@ == spec_image(records_view(entries@), *b),
{
    let mut out = encode_ballot(b);
    let mut count = u64_to_le_bytes(entries.len() as u64);
    out.append(&mut count);
    let ghost all = records_view(entries@);
    proof {
        assert(all.take(0) =~= Seq::empty());
        assert(out@ =~= spec_ballot_bytes(*b) + spec_u64_to_le_bytes(entries@.len() as u64)
            + spec_records_bytes(all.take(0)));
    }
    let n = entries.len();
    let mut k: usize = 0;
    while k < n
        invariant
            n == entries@.len(),
            k <= n,
            all == records_view(entries@),
            out@ == spec_ballot_bytes(*b) + spec_u64_to_le_bytes(entries@.len() as u64)
                + spec_records_bytes(all.take(k as int)),
        decreases n - k,
    {
        let mut key = encode_index(entries[k].0);
        let mut len = u64_to_le_bytes(entries[k].1.len() as u64);
        let mut payload = slice_to_vec(entries[k].1.as_slice());
        out.append(&mut key);
        out.append(&mut len);
        out.append(&mut payload);
        proof {
            lemma_records_bytes_push(all.take(k as int), all[k as int].0, all[k as int].1);
            assert(all.take(k + 1) =~= all.take(k as int).push(all[k as int]));
            assert(out@ =~= spec_ballot_bytes(*b) + spec_u64_to_le_bytes(entries@.len() as u64)
                + spec_records_bytes(all.take(k + 1)));
        }
        k = k + 1;
    }
    proof {
        assert(all.take(n as int) =~= all);
    }
    out
}

/// Parses the entry region starting at `pos`, expecting exactly `n` records
/// and exact consumption of the remaining bytes.
fn parse_records(s: &[u8], pos: usize, n: u64) -> (r: Option<Vec<(u64, Vec<u8>)>>)
    requires
        pos <= s@.len(),
    ensures
        r is None ==> spec_parse_records(s@.subrange(pos as int, s@.len() as int), n as nat)
            is None,
        r matches Some(v) ==> spec_parse_records(s@.subrange(pos as int, s@.len() as int), n as nat)
            == Option::Some(records_view(v@)),
    decreases n,
{
    let ghost tail = s@.subrange(pos as int, s@.len() as int);
    if n == 0 {
        if pos == s.len() {
            let v: Vec<(u64, Vec<u8>)> = Vec::new();
            proof {
                assert(records_view(v@) =~= Seq::<(u64, Seq<u8>)>::empty());
            }
            Option::Some(v)
        } else {
            Option::None
        }
    } else if s.len() - pos < 16 {
        Option::None
    } else {
        let i = u64_from_le_bytes(slice_subrange(s, pos, pos + 8));
        let l = u64_from_le_bytes(slice_subrange(s, pos + 8, pos + 16));
        proof {
            assert(s@.subrange(pos as int, pos + 8) =~= tail.subrange(0, 8));
            assert(s@.subrange(pos + 8, pos + 16) =~= tail.subrange(8, 16));
        }
        let rem: usize = s.len() - pos - 16;
        if l > rem as u64 {
            Option::None
        } else {
            let lu: usize = l as usize;
            let e = slice_to_vec(slice_subrange(s, pos + 16, pos + 16 + lu));
            proof {
                assert(e@ =~= tail.subrange(16, 16 + l as int));
            }
            match parse_records(s, pos + 16 + lu, n - 1) {
                Option::None => {
                    proof {
                        assert(s@.subrange(pos + 16 + lu, s@.len() as int) =~= tail.subrange(
                            16 + l as int,
                            tail.len() as int,
                        ));
                    }
                    Option::None
                },
                Option::Some(mut rest) => {
                    proof {
                        assert(s@.subrange(pos + 16 + lu, s@.len() as int) =~= tail.subrange(
                            16 + l as int,
                            tail.len() as int,
                        ));
                    }
                    let ghost old_rest = rest@;
                    rest.insert(0, (i, e));
                    proof {
                        assert(records_view(rest@) =~= seq![(i, e@)] + records_view(old_rest));
                    }
                    Option::Some(rest)
                },
            }
        }
    }
}

/// Parses a full durable image back into an entry table and ballot;
/// `None` when the image is corrupt.
pub fn parse_image(s: &[u8]) -> (r: Option<(Vec<(u64, Vec<u8>)>, Ballot)>)
    ensures
        r is None ==> spec_parse_image(s@) is None,
        r matches Some(p) ==> spec_parse_image(s@) == Option::Some((records_view(p.0@), p.1)),
{
    if s.len() < 25 {
        return Option::None;
    }
    let b = match parse_ballot(slice_subrange(s, 0, 17)) {
        Option::None => {
            return Option::None;
        },
        Option::Some(b) => b,
    };
    let n = u64_from_le_bytes(slice_subrange(s, 17, 25));
    match parse_records(s, 25, n) {
        Option::None => Option::None,
        Option::Some(v) => Option::Some((v, b)),
    }
}

/// The comparator on encoded keys orders exactly as the indexes do, for
/// every pair of indexes: the ordering invariant the storage engine's scans
/// rely on.
pub proof fn lemma_comparator_matches_index_order(i: u64, j: u64)
    ensures
        spec_key_cmp(spec_index_key(i), spec_index_key(j)) == Ordering::Less <==> i < j,
        spec_key_cmp(spec_index_key(i), spec_index_key(j)) == Ordering::Equal <==> i == j,
        spec_key_cmp(spec_index_key(i), spec_index_key(j)) == Ordering::Greater <==> i > j,
{
    lemma_index_key_roundtrip(i);
    lemma_index_key_roundtrip(j);
}

} // verus!
