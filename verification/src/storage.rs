//! The log storage engine: a durable, crash-recoverable store of
//! `(index, entry)` pairs kept in ascending index order, plus the single
//! persisted ballot record.
#![allow(unused_imports)]
use vstd::prelude::*;
use crate::{Index, NodeId};
use crate::codec::{
    encode_image, parse_image, records_encodable, records_view, spec_image, spec_parse_image,
    spec_parse_records, RecordSeq,
};

verus! {

/// Election state persisted by a node: the current term and the vote cast in
/// it, if any. Exactly one ballot exists per store, overwritten in place.
#[derive(Debug, Clone, Copy, PartialEq, Eq, Structural)]
pub struct Ballot {
    pub cur_term: u64,
    pub voted_for: Option<NodeId>,
}

/// Storage-layer failures. All are fatal to the owning node: the engine never
/// repairs or retries on its own.
#[derive(Debug, Clone, Copy, PartialEq, Eq, Structural)]
pub enum StorageError {
    /// `create` found a prior instance that was not destroyed first.
    InitError,
    /// `open` found no instance, or one whose bytes do not parse back.
    OpenError,
    /// The durable medium failed during a read or write.
    IoError,
}

/// The contents of one durable location: `None` until a store has been
/// created there (or after it was destroyed), `Some(bytes)` afterwards.
pub struct Volume {
    content: Option<Vec<u8>>,
}

impl View for Volume {
    type V = Option<Seq<u8>>;

    closed spec fn view(&self) -> Option<Seq<u8>> {
        match self.content {
            Option::None => Option::None,
            Option::Some(b) => Option::Some(b@),
        }
    }
}

impl Volume {
    /// A location where nothing has been stored yet.
    pub fn new() -> (r: Volume)
        ensures
            r@ is None,
    {
        Volume { content: Option::None }
    }

    /// A location holding bytes read back from a durable medium.
    pub fn from_bytes(b: Vec<u8>) -> (r: Volume)
        ensures
            r@ == Option::Some(b@),
    {
        Volume { content: Option::Some(b) }
    }

    /// The bytes to hand to the durable medium, if any.
    pub fn bytes(&self) -> (r: &Option<Vec<u8>>)
        ensures
            r is Some <==> self@ is Some,
            r matches Some(b) ==> self@ == Option::Some(b@),
    {
        &self.content
    }
}

// ---------------------------------------------------------------------------
// Spec-level model of the entry table
// ---------------------------------------------------------------------------

/// The ballot a freshly created store holds.
pub open spec fn zero_ballot() -> Ballot {
    Ballot { cur_term: 0, voted_for: Option::None }
}

/// Records strictly ascending by index: the table order every scan follows.
pub open spec fn sorted_records(rs: RecordSeq) -> bool {
    forall|p: int, q: int| 0 <= p < q < rs.len() ==> rs[p].0 < rs[q].0
}

/// Whether some record carries index `i`.
pub open spec fn has_key(rs: RecordSeq, i: u64) -> bool {
    exists|k: int| 0 <= k < rs.len() && rs[k].0 == i
}

/// The payload stored at index `i`, if any.
pub open spec fn spec_get(rs: RecordSeq, i: u64) -> Option<Seq<u8>> {
    if has_key(rs, i) {
        let k = choose|k: int| 0 <= k < rs.len() && rs[k].0 == i;
        Option::Some(rs[k].1)
    } else {
        Option::None
    }
}

/// Well-formed table contents: ascending, no reserved index 0, encodable.
pub open spec fn store_ok(rs: RecordSeq) -> bool {
    &&& sorted_records(rs)
    &&& forall|k: int| 0 <= k < rs.len() ==> 1 <= #[trigger] rs[k].0
    &&& records_encodable(rs)
}

/// What recovery from a durable location yields: `None` when the location is
/// empty or its bytes are corrupt, otherwise the table and ballot.
pub open spec fn spec_open(img: Option<Seq<u8>>) -> Option<(RecordSeq, Ballot)> {
    match img {
        Option::None => Option::None,
        Option::Some(bytes) => match spec_parse_image(bytes) {
            Option::None => Option::None,
            Option::Some((rs, b)) => if store_ok(rs) {
                Option::Some((rs, b))
            } else {
                Option::None
            },
        },
    }
}

/// At a valid position, lookup returns that position's payload: index
/// uniqueness, from strict ordering.
pub proof fn lemma_get_at(rs: RecordSeq, k: int)
    requires
        sorted_records(rs),
        0 <= k < rs.len(),
    ensures
        has_key(rs, rs[k].0),
        spec_get(rs, rs[k].0) == Option::Some(rs[k].1),
{
    assert(0 <= k < rs.len() && rs[k].0 == rs[k].0);
    let w = choose|w: int| 0 <= w < rs.len() && rs[w].0 == rs[k].0;
    if w < k {
        assert(rs[w].0 < rs[k].0);
    } else if w > k {
        assert(rs[k].0 < rs[w].0);
    }
}

// ---------------------------------------------------------------------------
// The storage engine
// ---------------------------------------------------------------------------

/// The log storage engine: the entry table in ascending index order and the
/// single ballot record. Every mutation is written through to the table the
/// durable image is computed from, so a `close` at any moment persists
/// exactly what the operations so far produced.
pub struct Storage {
    entries: Vec<(Index, Vec<u8>)>,
    ballot: Ballot,
}

impl Storage {
    /// The table contents this store holds.
    pub closed spec fn records(&self) -> RecordSeq {
        records_view(self.entries@)
    }

    /// The ballot record this store holds.
    pub closed spec fn spec_ballot(&self) -> Ballot {
        self.ballot
    }

    /// The store's invariant: well-formed table contents.
    pub open spec fn wf(&self) -> bool {
        store_ok(self.records())
    }

    /// Irrecoverably removes all persisted state at the location.
    pub fn destroy(v: &mut Volume) -> (r: Result<(), StorageError>)
        ensures
            r == Result::<(), StorageError>::Ok(()),
            final(v)@ is None,
    {
        *v = Volume { content: Option::None };
        Result::Ok(())
    }

    /// Initializes empty durable state with the zero ballot. Fails with
    /// `InitError` when a prior instance exists and was not destroyed.
    pub fn create(v: &mut Volume) -> (r: Result<(), StorageError>)
        ensures
            old(v)@ is Some ==> r == Result::<(), StorageError>::Err(StorageError::InitError)
                && final(v)@ == old(v)@,
            old(v)@ is None ==> r == Result::<(), StorageError>::Ok(()) && final(v)@
                == Option::Some(spec_image(Seq::empty(), zero_ballot())),
    {
        match v.content {
            Option::Some(_) => Result::Err(StorageError::InitError),
            Option::None => {
                let empty: Vec<(Index, Vec<u8>)> = Vec::new();
                let img = encode_image(&empty, &Ballot { cur_term: 0, voted_for: Option::None });
                proof {
                    assert(records_view(empty@) =~= Seq::<(u64, Seq<u8>)>::empty());
                }
                *v = Volume { content: Option::Some(img) };
                Result::Ok(())
            },
        }
    }

    /// Recovers the table and ballot from a durable location; fails with
    /// `OpenError` when the location is absent or its bytes are corrupt.
    pub fn open_db(v: &Volume) -> (r: Result<Storage, StorageError>)
        ensures
            r is Ok <==> spec_open(v@) is Some,
            r matches Ok(s) ==> spec_open(v@) == Option::Some((s.records(), s.spec_ballot()))
                && s.wf(),
            r is Err ==> r == Result::<Storage, StorageError>::Err(StorageError::OpenError),
    {
        let bytes = match &v.content {
            Option::None => {
                return Result::Err(StorageError::OpenError);
            },
            Option::Some(b) => b,
        };
        let (entries, ballot) = match parse_image(bytes.as_slice()) {
            Option::None => {
                return Result::Err(StorageError::OpenError);
            },
            Option::Some(p) => p,
        };
        let ghost rs = records_view(entries@);
        proof {
            assert(v@ == Option::Some(bytes@));
            assert(spec_parse_image(bytes@) == Option::Some((rs, ballot)));
            let img = v@.unwrap();
            let cnt = vstd::bytes::spec_u64_from_le_bytes(img.subrange(17, 25));
            assert(spec_parse_records(img.subrange(25, img.len() as int), cnt as nat)
                == Option::Some(rs));
            lemma_parse_records_bounds(img.subrange(25, img.len() as int), cnt as nat, rs);
        }
        // reject tables that are unordered or use the reserved index
        let n = entries.len();
        let mut k: usize = 0;
        while k < n
            invariant
                v@ is Some,
                spec_parse_image(v@.unwrap()) == Option::Some((rs, ballot)),
                n == entries@.len(),
                rs == records_view(entries@),
                k <= n,
                forall|m: int| 0 <= m < k ==> 1 <= #[trigger] rs[m].0,
                forall|m: int| 0 <= m < k && m + 1 < n ==> #[trigger] rs[m].0 < rs[m + 1].0,
            decreases n - k,
        {
            if entries[k].0 < 1 {
                proof {
                    assert(rs[k as int].0 == entries@[k as int].0);
                    assert(!store_ok(rs));
                }
                return Result::Err(StorageError::OpenError);
            }
            if k + 1 < n {
                if entries[k + 1].0 <= entries[k].0 {
                    proof {
                        assert(rs[k as int].0 == entries@[k as int].0);
                        assert(rs[k + 1].0 == entries@[k + 1].0);
                        assert(!sorted_records(rs));
                    }
                    return Result::Err(StorageError::OpenError);
                }
            }
            k = k + 1;
        }
        proof {
            lemma_adjacent_sorted(rs);
        }
        Result::Ok(Storage { entries, ballot })
    }

    /// Recovers an existing store from a durable location.
    pub fn open(v: &Volume) -> (r: Result<Storage, StorageError>)
        ensures
            r is Ok <==> spec_open(v@) is Some,
            r matches Ok(s) ==> spec_open(v@) == Option::Some((s.records(), s.spec_ballot()))
                && s.wf(),
            r is Err ==> r == Result::<Storage, StorageError>::Err(StorageError::OpenError),
    {
        Self::open_db(v)
    }

    /// Upserts the entry at `index`: the log-replication write path.
    pub fn insert_entry(&mut self, i: Index, e: Vec<u8>) -> (r: Result<(), StorageError>)
        requires
            old(self).wf(),
            1 <= i,
            old(self).records().len() < u64::MAX,
        ensures
            r == Result::<(), StorageError>::Ok(()),
            final(self).wf(),
            final(self).spec_ballot() == old(self).spec_ballot(),
            spec_get(final(self).records(), i) == Option::Some(e@),
            forall|j: u64|
                j != i ==> spec_get(final(self).records(), j) == spec_get(
                    old(self).records(),
                    j,
                ),
            forall|j: u64|
                has_key(final(self).records(), j) <==> (has_key(old(self).records(), j) || j
                    == i),
    {
        let ghost rs0 = old(self).records();
        let el = e.len();
        proof {
            assert(e@.len() <= u64::MAX);
        }
        let n = self.entries.len();
        let mut k: usize = 0;
        while k < n && self.entries[k].0 < i
            invariant
                *self == *old(self),
                n == self.entries@.len(),
                rs0 == records_view(self.entries@),
                store_ok(rs0),
                k <= n,
                forall|m: int| 0 <= m < k ==> #[trigger] rs0[m].0 < i,
            decreases n - k,
        {
            k = k + 1;
        }
        let ghost p = k as int;
        if k < n && self.entries[k].0 == i {
            let _ = self.entries.remove(k);
            self.entries.insert(k, (i, e));
            proof {
                let rs2 = rs0.update(p, (i, e@));
                assert(records_view(self.entries@) =~= rs2);
                lemma_replace_get(rs0, p, e@);
                assert forall|m: int|
                    0 <= m < rs2.len() implies 1 <= #[trigger] rs2[m].0 && rs2[m].1.len()
                    <= u64::MAX by {
                    if m != p {
                        assert(rs2[m] == rs0[m]);
                        assert(1 <= rs0[m].0);
                        assert(rs0[m].1.len() <= u64::MAX);
                    }
                }
            }
        } else {
            proof {
                assert forall|m: int| p <= m < rs0.len() implies i < #[trigger] rs0[m].0 by {
                    if p < rs0.len() && p < m {
                        assert(rs0[p].0 < rs0[m].0);
                    }
                }
            }
            self.entries.insert(k, (i, e));
            proof {
                let rs2 = rs0.insert(p, (i, e@));
                assert(records_view(self.entries@) =~= rs2);
                lemma_insert_get(rs0, p, i, e@);
                assert forall|m: int|
                    0 <= m < rs2.len() implies 1 <= #[trigger] rs2[m].0 && rs2[m].1.len()
                    <= u64::MAX by {
                    if m < p {
                        assert(rs2[m] == rs0[m]);
                        assert(1 <= rs0[m].0);
                        assert(rs0[m].1.len() <= u64::MAX);
                    } else if m > p {
                        assert(rs2[m] == rs0[m - 1]);
                        assert(1 <= rs0[m - 1].0);
                        assert(rs0[m - 1].1.len() <= u64::MAX);
                    }
                }
            }
        }
        Result::Ok(())
    }

    /// Returns a copy of the entry at `index`, if one is present.
    pub fn get_entry(&self, i: Index) -> (r: Result<Option<Vec<u8>>, StorageError>)
        requires
            self.wf(),
        ensures
            r matches Ok(o) && (o is Some <==> has_key(self.records(), i)) && (o matches Some(e)
                ==> spec_get(self.records(), i) == Option::Some(e@)),
    {
        let ghost rs = self.records();
        let n = self.entries.len();
        let mut k: usize = 0;
        while k < n && self.entries[k].0 < i
            invariant
                n == self.entries@.len(),
                rs == records_view(self.entries@),
                store_ok(rs),
                k <= n,
                forall|m: int| 0 <= m < k ==> #[trigger] rs[m].0 < i,
            decreases n - k,
        {
            k = k + 1;
        }
        if k < n && self.entries[k].0 == i {
            proof {
                lemma_get_at(rs, k as int);
            }
            Result::Ok(Option::Some(vstd::slice::slice_to_vec(self.entries[k].1.as_slice())))
        } else {
            proof {
                assert forall|m: int| 0 <= m < rs.len() implies rs[m].0 != i by {
                    if m >= k as int && (k as int) < rs.len() {
                        assert(rs[k as int].0 <= rs[m].0);
                    }
                }
            }
            Result::Ok(Option::None)
        }
    }

    /// Removes the entry at `index`: log truncation and compaction use this.
    pub fn delete_entry(&mut self, i: Index) -> (r: Result<(), StorageError>)
        requires
            old(self).wf(),
        ensures
            r == Result::<(), StorageError>::Ok(()),
            final(self).wf(),
            final(self).spec_ballot() == old(self).spec_ballot(),
            !has_key(final(self).records(), i),
            forall|j: u64|
                j != i ==> spec_get(final(self).records(), j) == spec_get(
                    old(self).records(),
                    j,
                ),
            forall|j: u64|
                has_key(final(self).records(), j) <==> (has_key(old(self).records(), j) && j
                    != i),
    {
        let ghost rs0 = old(self).records();
        let n = self.entries.len();
        let mut k: usize = 0;
        while k < n && self.entries[k].0 < i
            invariant
                *self == *old(self),
                n == self.entries@.len(),
                rs0 == records_view(self.entries@),
                store_ok(rs0),
                k <= n,
                forall|m: int| 0 <= m < k ==> #[trigger] rs0[m].0 < i,
            decreases n - k,
        {
            k = k + 1;
        }
        let ghost p = k as int;
        if k < n && self.entries[k].0 == i {
            let _ = self.entries.remove(k);
            proof {
                assert(records_view(self.entries@) =~= rs0.remove(p));
                lemma_remove_get(rs0, p);
            }
        } else {
            proof {
                assert forall|m: int| 0 <= m < rs0.len() implies rs0[m].0 != i by {
                    if m >= p && p < rs0.len() {
                        assert(rs0[p].0 <= rs0[m].0);
                    }
                }
            }
        }
        Result::Ok(())
    }

    /// The smallest persisted index, or 0 when the log is empty.
    pub fn get_head_index(&self) -> (r: Result<Index, StorageError>)
        requires
            self.wf(),
        ensures
            r matches Ok(h) && {
                &&& self.records().len() == 0 ==> h == 0
                &&& self.records().len() > 0 ==> h == self.records()[0].0 && has_key(
                    self.records(),
                    h,
                ) && (forall|k: int|
                    0 <= k < self.records().len() ==> h <= #[trigger] self.records()[k].0)
            },
    {
        if self.entries.len() == 0 {
            Result::Ok(0)
        } else {
            proof {
                lemma_get_at(self.records(), 0);
            }
            Result::Ok(self.entries[0].0)
        }
    }

    /// The largest persisted index, or 0 when the log is empty.
    pub fn get_last_index(&self) -> (r: Result<Index, StorageError>)
        requires
            self.wf(),
        ensures
            r matches Ok(h) && {
                &&& self.records().len() == 0 ==> h == 0
                &&& self.records().len() > 0 ==> h == self.records().last().0 && has_key(
                    self.records(),
                    h,
                ) && (forall|k: int|
                    0 <= k < self.records().len() ==> #[trigger] self.records()[k].0 <= h)
            },
    {
        let n = self.entries.len();
        if n == 0 {
            Result::Ok(0)
        } else {
            proof {
                lemma_get_at(self.records(), self.records().len() - 1);
            }
            Result::Ok(self.entries[n - 1].0)
        }
    }

    /// Atomically overwrites the single ballot record. Terms never regress:
    /// a node's current term is monotonically non-decreasing.
    pub fn save_ballot(&mut self, b: Ballot) -> (r: Result<(), StorageError>)
        requires
            old(self).wf(),
            old(self).spec_ballot().cur_term <= b.cur_term,
        ensures
            r == Result::<(), StorageError>::Ok(()),
            final(self).wf(),
            final(self).spec_ballot() == b,
            final(self).records() == old(self).records(),
            old(self).spec_ballot().cur_term <= final(self).spec_ballot().cur_term,
    {
        self.ballot = b;
        Result::Ok(())
    }

    /// Reads the single ballot record; it always exists once a store does.
    pub fn load_ballot(&self) -> (r: Result<Ballot, StorageError>)
        ensures
            r == Result::<Ballot, StorageError>::Ok(self.spec_ballot()),
    {
        Result::Ok(self.ballot)
    }

    /// A full ascending scan of the persisted indexes.
    pub fn scan_indexes(&self) -> (r: Vec<Index>)
        requires
            self.wf(),
        ensures
            r@.len() == self.records().len(),
            forall|k: int| 0 <= k < r@.len() ==> r@[k] == self.records()[k].0,
            forall|p: int, q: int| 0 <= p < q < r@.len() ==> r@[p] < r@[q],
    {
        let n = self.entries.len();
        let mut out: Vec<Index> = Vec::new();
        let mut k: usize = 0;
        while k < n
            invariant
                n == self.entries@.len(),
                store_ok(self.records()),
                k <= n,
                out@.len() == k,
                forall|m: int| 0 <= m < k ==> out@[m] == self.records()[m].0,
            decreases n - k,
        {
            out.push(self.entries[k].0);
            k = k + 1;
        }
        out
    }

    /// Writes the store's durable image to the location: the flush the rest
    /// of the engine's flush-before-acknowledge discipline relies on.
    pub fn close(&self, v: &mut Volume)
        requires
            self.wf(),
        ensures
            final(v)@ == Option::Some(spec_image(self.records(), self.spec_ballot())),
    {
        let img = encode_image(&self.entries, &self.ballot);
        *v = Volume { content: Option::Some(img) };
    }
}

/// A parsed entry region has exactly the promised record count, and payload
/// lengths that fit the length field.
pub proof fn lemma_parse_records_bounds(s: Seq<u8>, n: nat, rs: RecordSeq)
    requires
        spec_parse_records(s, n) == Option::Some(rs),
        n <= u64::MAX,
    ensures
        rs.len() == n,
        records_encodable(rs),
    decreases n,
{
    if n == 0 {
    } else {
        let l = vstd::bytes::spec_u64_from_le_bytes(s.subrange(8, 16));
        let tail = s.subrange(16 + l, s.len() as int);
        let rest = spec_parse_records(tail, (n - 1) as nat).unwrap();
        lemma_parse_records_bounds(tail, (n - 1) as nat, rest);
        assert(forall|k: int| 0 <= k < rs.len() ==> #[trigger] rs[k].1.len() <= u64::MAX) by {
            assert(forall|k: int| 1 <= k < rs.len() ==> #[trigger] rs[k] == rest[k - 1]);
            assert(rs[0].1.len() == l);
        }
    }
}

/// Replacing the payload at a position keeps order and changes exactly that
/// position's lookup.
proof fn lemma_replace_get(rs: RecordSeq, k: int, e: Seq<u8>)
    requires
        sorted_records(rs),
        0 <= k < rs.len(),
    ensures
        sorted_records(rs.update(k, (rs[k].0, e))),
        spec_get(rs.update(k, (rs[k].0, e)), rs[k].0) == Option::Some(e),
        forall|j: u64|
            j != rs[k].0 ==> spec_get(rs.update(k, (rs[k].0, e)), j) == spec_get(rs, j),
        forall|j: u64| has_key(rs.update(k, (rs[k].0, e)), j) <==> has_key(rs, j),
{
    let rs2 = rs.update(k, (rs[k].0, e));
    assert(forall|m: int| 0 <= m < rs.len() ==> #[trigger] rs2[m].0 == rs[m].0);
    lemma_get_at(rs2, k);
    assert forall|j: u64| has_key(rs2, j) <==> has_key(rs, j) by {
        if has_key(rs, j) {
            let m = choose|m: int| 0 <= m < rs.len() && rs[m].0 == j;
            assert(rs2[m].0 == j);
        }
        if has_key(rs2, j) {
            let m = choose|m: int| 0 <= m < rs2.len() && rs2[m].0 == j;
            assert(rs[m].0 == j);
        }
    }
    assert forall|j: u64| j != rs[k].0 implies spec_get(rs2, j) == spec_get(rs, j) by {
        if has_key(rs, j) {
            let m = choose|m: int| 0 <= m < rs.len() && rs[m].0 == j;
            lemma_get_at(rs, m);
            lemma_get_at(rs2, m);
            assert(m != k);
        }
    }
}

/// Inserting a record between its neighbours keeps order, makes its index
/// present, and changes no other index's lookup.
proof fn lemma_insert_get(rs: RecordSeq, k: int, i: u64, e: Seq<u8>)
    requires
        sorted_records(rs),
        0 <= k <= rs.len(),
        forall|m: int| 0 <= m < k ==> #[trigger] rs[m].0 < i,
        forall|m: int| k <= m < rs.len() ==> i < #[trigger] rs[m].0,
    ensures
        sorted_records(rs.insert(k, (i, e))),
        spec_get(rs.insert(k, (i, e)), i) == Option::Some(e),
        forall|j: u64| j != i ==> spec_get(rs.insert(k, (i, e)), j) == spec_get(rs, j),
        forall|j: u64| has_key(rs.insert(k, (i, e)), j) <==> (has_key(rs, j) || j == i),
{
    let rs2 = rs.insert(k, (i, e));
    assert(forall|m: int| 0 <= m < k ==> #[trigger] rs2[m] == rs[m]);
    assert(rs2[k] == (i, e));
    assert(forall|m: int| k < m < rs2.len() ==> #[trigger] rs2[m] == rs[m - 1]);
    assert forall|p: int, q: int| 0 <= p < q < rs2.len() implies rs2[p].0 < rs2[q].0 by {
        if p < k && q > k {
            assert(rs2[p].0 == rs[p].0 && rs2[q].0 == rs[q - 1].0);
        }
    }
    lemma_get_at(rs2, k);
    assert forall|j: u64| has_key(rs2, j) <==> (has_key(rs, j) || j == i) by {
        if has_key(rs, j) {
            let m = choose|m: int| 0 <= m < rs.len() && rs[m].0 == j;
            if m < k {
                assert(rs2[m].0 == j);
            } else {
                assert(rs2[m + 1].0 == j);
            }
        }
        if has_key(rs2, j) && j != i {
            let m = choose|m: int| 0 <= m < rs2.len() && rs2[m].0 == j;
            if m < k {
                assert(rs[m].0 == j);
            } else {
                assert(m != k);
                assert(rs[m - 1].0 == j);
            }
        }
    }
    assert forall|j: u64| j != i implies spec_get(rs2, j) == spec_get(rs, j) by {
        if has_key(rs, j) {
            let m = choose|m: int| 0 <= m < rs.len() && rs[m].0 == j;
            lemma_get_at(rs, m);
            if m < k {
                lemma_get_at(rs2, m);
            } else {
                lemma_get_at(rs2, m + 1);
            }
        }
    }
}

/// Removing the record at a position keeps order, makes its index absent,
/// and changes no other index's lookup.
proof fn lemma_remove_get(rs: RecordSeq, k: int)
    requires
        sorted_records(rs),
        0 <= k < rs.len(),
    ensures
        sorted_records(rs.remove(k)),
        !has_key(rs.remove(k), rs[k].0),
        forall|j: u64| j != rs[k].0 ==> spec_get(rs.remove(k), j) == spec_get(rs, j),
        forall|j: u64| has_key(rs.remove(k), j) <==> (has_key(rs, j) && j != rs[k].0),
{
    let rs2 = rs.remove(k);
    let i = rs[k].0;
    assert(forall|m: int| 0 <= m < k ==> #[trigger] rs2[m] == rs[m]);
    assert(forall|m: int| k <= m < rs2.len() ==> #[trigger] rs2[m] == rs[m + 1]);
    assert forall|p: int, q: int| 0 <= p < q < rs2.len() implies rs2[p].0 < rs2[q].0 by {
        if p < k && q >= k {
            assert(rs2[p].0 == rs[p].0 && rs2[q].0 == rs[q + 1].0);
        }
    }
    assert forall|j: u64| has_key(rs2, j) <==> (has_key(rs, j) && j != i) by {
        if has_key(rs2, j) {
            let m = choose|m: int| 0 <= m < rs2.len() && rs2[m].0 == j;
            if m < k {
                assert(rs[m].0 == j);
                assert(rs[m].0 != rs[k].0);
            } else {
                assert(rs[m + 1].0 == j);
                assert(rs[m + 1].0 != rs[k].0);
            }
        }
        if has_key(rs, j) && j != i {
            let m = choose|m: int| 0 <= m < rs.len() && rs[m].0 == j;
            assert(m != k);
            if m < k {
                assert(rs2[m].0 == j);
            } else {
                assert(rs2[m - 1].0 == j);
            }
        }
    }
    assert forall|j: u64| j != i implies spec_get(rs2, j) == spec_get(rs, j) by {
        if has_key(rs, j) {
            let m = choose|m: int| 0 <= m < rs.len() && rs[m].0 == j;
            lemma_get_at(rs, m);
            assert(m != k);
            if m < k {
                lemma_get_at(rs2, m);
            } else {
                lemma_get_at(rs2, m - 1);
            }
        }
    }
}

/// Order invariant: a full ascending scan yields index `i` before index `j`
/// whenever `i < j`; the scan position of a smaller present index is
/// strictly smaller.
pub proof fn lemma_ascending_scan(rs: RecordSeq, i: u64, j: u64)
    requires
        sorted_records(rs),
        has_key(rs, i),
        has_key(rs, j),
        i < j,
    ensures
        (choose|p: int| 0 <= p < rs.len() && rs[p].0 == i) < (choose|q: int|
            0 <= q < rs.len() && rs[q].0 == j),
{
    let p = choose|p: int| 0 <= p < rs.len() && rs[p].0 == i;
    let q = choose|q: int| 0 <= q < rs.len() && rs[q].0 == j;
    if p > q {
        assert(rs[q].0 < rs[p].0);
    }
}

/// Ballot monotonicity: `save_ballot` admits a new ballot only when its term
/// is not below the persisted one, so over any run of saves the terms that
/// `load_ballot` returns never decrease, however far apart the reads are.
pub proof fn lemma_ballot_term_monotonic(terms: Seq<u64>, p: int, q: int)
    requires
        forall|m: int| 0 <= m && m + 1 < terms.len() ==> #[trigger] terms[m] <= terms[m + 1],
        0 <= p <= q < terms.len(),
    ensures
        terms[p] <= terms[q],
    decreases q - p,
{
    if p < q {
        lemma_ballot_term_monotonic(terms, p, q - 1);
    }
}

/// Persistence round trip: recovering from the image a well-formed store
/// writes at close yields exactly the entries and ballot it held.
pub proof fn lemma_close_reopen(s: Storage)
    requires
        s.wf(),
    ensures
        spec_open(Option::Some(spec_image(s.records(), s.spec_ballot()))) == Option::Some(
            (s.records(), s.spec_ballot()),
        ),
{
    crate::codec::lemma_image_roundtrip(s.records(), s.spec_ballot());
}

/// Pairwise-adjacent ascending records are ascending everywhere.
pub proof fn lemma_adjacent_sorted(rs: RecordSeq)
    requires
        forall|m: int| 0 <= m && m + 1 < rs.len() ==> #[trigger] rs[m].0 < rs[m + 1].0,
    ensures
        sorted_records(rs),
{
    assert forall|p: int, q: int| 0 <= p < q < rs.len() implies rs[p].0 < rs[q].0 by {
        lemma_sorted_span(rs, p, q);
    }
}

proof fn lemma_sorted_span(rs: RecordSeq, p: int, q: int)
    requires
        forall|m: int| 0 <= m && m + 1 < rs.len() ==> #[trigger] rs[m].0 < rs[m + 1].0,
        0 <= p < q < rs.len(),
    ensures
        rs[p].0 < rs[q].0,
    decreases q - p,
{
    if p + 1 < q {
        lemma_sorted_span(rs, p, q - 1);
    }
}

} // verus!
