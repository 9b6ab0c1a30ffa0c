//! The query queue and executor: linearizable reads are admitted at a log
//! position and released only once the shared applied index has caught up to
//! that position.
#![allow(unused_imports)]
use vstd::prelude::*;
use crate::Index;

verus! {

/// The application state machine's capability to run a read-only query
/// against committed state and yield a response. Implemented by the
/// application that plugs into the engine.
pub trait RaftApp {
    /// Executes one read-only payload against committed state.
    fn process_query(&mut self, payload: &[u8]) -> Vec<u8>;
}

/// A read that was admitted at a log position: it may be released only once
/// the applied index has reached `required_index`.
pub struct PendingQuery {
    /// The applied index this read waits for.
    pub required_index: Index,
    /// The read-only payload to run against the application.
    pub payload: Vec<u8>,
    /// Resolves which submission a released response answers.
    pub handle: u64,
}

/// A released read: the response for the submission named by `handle`.
pub struct QueryResponse {
    /// The handle `submit` returned for this read.
    pub handle: u64,
    /// What the application returned for the payload.
    pub value: Vec<u8>,
}

/// What the executor does after one `execute` pass: run again at once while
/// work was found, otherwise suspend until the applied index is signalled or
/// the bounded poll interval elapses (notifications may be missed, so the
/// timeout is mandatory).
#[derive(Debug, Clone, Copy, PartialEq, Eq, Structural)]
pub enum ExecutorDirective {
    /// The pass released something: re-check at once.
    RunAgain,
    /// Nothing was eligible: wait for a notification or the poll timeout.
    AwaitNotifyOrTimeout,
}

/// The executor loop's decision after a pass that reported `did_work`.
pub fn next_directive(did_work: bool) -> (r: ExecutorDirective)
    ensures
        r == (if did_work {
            ExecutorDirective::RunAgain
        } else {
            ExecutorDirective::AwaitNotifyOrTimeout
        }),
{
    if did_work {
        ExecutorDirective::RunAgain
    } else {
        ExecutorDirective::AwaitNotifyOrTimeout
    }
}

/// A query is eligible once the applied index has reached its position.
pub open spec fn eligible(q: PendingQuery, applied: u64) -> bool {
    q.required_index <= applied
}

/// The queries `execute` releases at `applied`, in queue order.
pub open spec fn released(qs: Seq<PendingQuery>, applied: u64) -> Seq<PendingQuery> {
    qs.filter(|q: PendingQuery| eligible(q, applied))
}

/// The queries `execute` retains at `applied`, in queue order.
pub open spec fn retained(qs: Seq<PendingQuery>, applied: u64) -> Seq<PendingQuery> {
    qs.filter(|q: PendingQuery| !eligible(q, applied))
}

/// Queue order: non-decreasing in `required_index`; ties keep arrival order.
pub open spec fn queue_sorted(qs: Seq<PendingQuery>) -> bool {
    forall|p: int, q: int|
        0 <= p < q < qs.len() ==> qs[p].required_index <= qs[q].required_index
}

/// The pending-query set. It is exclusively owned: concurrent submissions
/// are serialized by the owner, and at most one `execute` is in flight at a
/// time, which the exclusive borrow enforces.
pub struct QueryQueue {
    pending: Vec<PendingQuery>,
    next_handle: u64,
}

impl QueryQueue {
    /// The pending queries, in queue order.
    pub closed spec fn queries(&self) -> Seq<PendingQuery> {
        self.pending@
    }

    /// The handle the next submission will receive.
    pub closed spec fn spec_next_handle(&self) -> u64 {
        self.next_handle
    }

    /// Queue invariant: ordered by required index, handles all minted before
    /// the next one.
    pub open spec fn wf(&self) -> bool {
        &&& queue_sorted(self.queries())
        &&& forall|k: int|
            0 <= k < self.queries().len() ==> #[trigger] self.queries()[k].handle
                < self.spec_next_handle()
    }

    /// An empty queue.
    pub fn new() -> (r: QueryQueue)
        ensures
            r.wf(),
            r.queries().len() == 0,
            r.spec_next_handle() == 0,
    {
        QueryQueue { pending: Vec::new(), next_handle: 0 }
    }

    /// Registers a read to be satisfied once the applied index reaches
    /// `required_index`. Never blocks: it returns at once with the handle
    /// the eventual response will carry. The query is placed after every
    /// pending query whose position is not larger, so ties keep arrival
    /// order.
    pub fn submit(&mut self, required_index: Index, payload: Vec<u8>) -> (h: u64)
        requires
            old(self).wf(),
            old(self).spec_next_handle() < u64::MAX,
        ensures
            final(self).wf(),
            h == old(self).spec_next_handle(),
            final(self).spec_next_handle() == old(self).spec_next_handle() + 1,
            final(self).queries().len() == old(self).queries().len() + 1,
            exists|pos: int|
                {
                    &&& 0 <= pos <= old(self).queries().len()
                    &&& (forall|m: int|
                        0 <= m < pos ==> (#[trigger] old(self).queries()[m]).required_index
                            <= required_index)
                    &&& (forall|m: int|
                        pos <= m < old(self).queries().len() ==> required_index < (
                        #[trigger] old(self).queries()[m]).required_index)
                    &&& final(self).queries() == old(self).queries().insert(
                        pos,
                        final(self).queries()[pos],
                    )
                    &&& (#[trigger] final(self).queries()[pos]).required_index == required_index
                    &&& final(self).queries()[pos].payload@ == payload@
                    &&& final(self).queries()[pos].handle == h
                },
    {
        let ghost qs0 = old(self).queries();
        let n = self.pending.len();
        let mut k: usize = 0;
        while k < n && self.pending[k].required_index <= required_index
            invariant
                *self == *old(self),
                qs0 == self.pending@,
                n == self.pending@.len(),
                k <= n,
                forall|m: int|
                    0 <= m < k ==> (#[trigger] qs0[m]).required_index <= required_index,
            decreases n - k,
        {
            k = k + 1;
        }
        let ghost pos = k as int;
        proof {
            assert forall|m: int|
                pos <= m < qs0.len() implies required_index < (#[trigger] qs0[m]).required_index by {
                if pos < m {
                    assert(qs0[pos].required_index <= qs0[m].required_index);
                }
            }
        }
        let h = self.next_handle;
        let q = PendingQuery { required_index, payload, handle: h };
        self.pending.insert(k, q);
        self.next_handle = h + 1;
        proof {
            let qs2 = self.queries();
            qs0.insert_ensures(pos, q);
            assert(qs2[pos] == q);
            assert(qs2 == qs0.insert(pos, qs2[pos]));
            assert(forall|m: int| 0 <= m < pos ==> #[trigger] qs2[m] == qs0[m]);
            assert(forall|m: int| pos < m < qs2.len() ==> #[trigger] qs2[m] == qs0[m - 1]);
            assert forall|p: int, r: int|
                0 <= p < r < qs2.len() implies qs2[p].required_index
                <= qs2[r].required_index by {
                if p < pos && r > pos {
                    assert(qs2[p] == qs0[p] && qs2[r] == qs0[r - 1]);
                }
            }
        }
        h
    }

    /// Releases every pending query whose required index the applied index
    /// has reached: runs each released payload against the application, in
    /// queue order, and removes it from the pending set. Returns whether any
    /// work was performed and the released responses. Queries the applied
    /// index has not reached are never released.
    pub fn execute<A: RaftApp>(&mut self, applied_index: Index, app: &mut A) -> (r: (
        bool,
        Vec<QueryResponse>,
    ))
        requires
            old(self).wf(),
        ensures
            final(self).wf(),
            final(self).spec_next_handle() == old(self).spec_next_handle(),
            final(self).queries() == retained(old(self).queries(), applied_index),
            r.1@.len() == released(old(self).queries(), applied_index).len(),
            forall|k: int|
                0 <= k < r.1@.len() ==> (#[trigger] r.1@[k]).handle == released(
                    old(self).queries(),
                    applied_index,
                )[k].handle,
            r.0 <==> released(old(self).queries(), applied_index).len() > 0,
    {
        let ghost qs0 = old(self).queries();
        let mut drained: Vec<PendingQuery> = Vec::new();
        core::mem::swap(&mut self.pending, &mut drained);
        let mut responses: Vec<QueryResponse> = Vec::new();
        let ghost mut k: int = 0;
        proof {
            reveal(Seq::filter);
            assert(qs0.take(0) =~= Seq::<PendingQuery>::empty());
        }
        while drained.len() > 0
            invariant
                0 <= k <= qs0.len(),
                drained@ == qs0.subrange(k, qs0.len() as int),
                queue_sorted(qs0),
                forall|m: int| 0 <= m < qs0.len() ==> (#[trigger] qs0[m]).handle < self.next_handle,
                self.next_handle == old(self).spec_next_handle(),
                self.pending@ == retained(qs0.take(k), applied_index),
                responses@.len() == released(qs0.take(k), applied_index).len(),
                forall|m: int|
                    0 <= m < responses@.len() ==> (#[trigger] responses@[m]).handle == released(
                        qs0.take(k),
                        applied_index,
                    )[m].handle,
            decreases drained@.len(),
        {
            let q = drained.remove(0);
            proof {
                reveal(Seq::filter);
                assert(q == qs0[k]);
                assert(drained@ =~= qs0.subrange(k + 1, qs0.len() as int));
                assert(qs0.take(k + 1).drop_last() =~= qs0.take(k));
                assert(qs0.take(k + 1).last() == qs0[k]);
            }
            if q.required_index <= applied_index {
                let handle = q.handle;
                let value = app.process_query(q.payload.as_slice());
                responses.push(QueryResponse { handle, value });
                proof {
                    assert(released(qs0.take(k + 1), applied_index) =~= released(
                        qs0.take(k),
                        applied_index,
                    ).push(qs0[k]));
                    assert(retained(qs0.take(k + 1), applied_index) =~= retained(
                        qs0.take(k),
                        applied_index,
                    ));
                }
            } else {
                self.pending.push(q);
                proof {
                    assert(retained(qs0.take(k + 1), applied_index) =~= retained(
                        qs0.take(k),
                        applied_index,
                    ).push(qs0[k]));
                    assert(released(qs0.take(k + 1), applied_index) =~= released(
                        qs0.take(k),
                        applied_index,
                    ));
                }
            }
            proof {
                k = k + 1;
            }
        }
        proof {
            assert(k == qs0.len());
            assert(qs0.take(qs0.len() as int) =~= qs0);
            lemma_retained_sorted(qs0, applied_index);
            assert forall|m: int|
                0 <= m < self.pending@.len() implies (#[trigger] self.pending@[m]).handle
                < self.next_handle by {
                let e = self.pending@[m];
                assert(retained(qs0, applied_index).contains(e));
                Seq::lemma_filter_contains_rev(
                    qs0,
                    |q: PendingQuery| !eligible(q, applied_index),
                    e,
                );
                let w = choose|w: int| 0 <= w < qs0.len() && qs0[w] == e;
                assert(qs0[w].handle < self.next_handle);
            }
        }
        let did_work = responses.len() > 0;
        (did_work, responses)
    }

    /// Resolves every still-pending query with an explicit unresolved
    /// outcome: what node shutdown does so no submitted read leaks forever.
    /// Returns the abandoned handles in queue order.
    pub fn drain_unresolved(&mut self) -> (r: Vec<u64>)
        requires
            old(self).wf(),
        ensures
            final(self).wf(),
            final(self).queries().len() == 0,
            final(self).spec_next_handle() == old(self).spec_next_handle(),
            r@.len() == old(self).queries().len(),
            forall|k: int|
                0 <= k < r@.len() ==> r@[k] == (#[trigger] old(self).queries()[k]).handle,
    {
        let mut out: Vec<u64> = Vec::new();
        let n = self.pending.len();
        let mut k: usize = 0;
        while k < n
            invariant
                *self == *old(self),
                n == self.pending@.len(),
                k <= n,
                out@.len() == k,
                forall|m: int|
                    0 <= m < k ==> out@[m] == (#[trigger] self.pending@[m]).handle,
            decreases n - k,
        {
            out.push(self.pending[k].handle);
            k = k + 1;
        }
        self.pending.clear();
        out
    }
}

/// Filtering the queue keeps its order.
proof fn lemma_retained_sorted(qs: Seq<PendingQuery>, applied: u64)
    requires
        queue_sorted(qs),
    ensures
        queue_sorted(retained(qs, applied)),
    decreases qs.len(),
{
    reveal(Seq::filter);
    if qs.len() == 0 {
    } else {
        let prefix = qs.drop_last();
        assert(queue_sorted(prefix)) by {
            assert(forall|p: int, q: int|
                0 <= p < q < prefix.len() ==> #[trigger] prefix[p] == qs[p] && #[trigger] prefix[q]
                    == qs[q]);
        }
        lemma_retained_sorted(prefix, applied);
        let f = retained(prefix, applied);
        let r = retained(qs, applied);
        if !eligible(qs.last(), applied) {
            assert(r == f.push(qs.last()));
            assert forall|p: int, q: int|
                0 <= p < q < r.len() implies r[p].required_index <= r[q].required_index by {
                if q == f.len() {
                    assert(f.contains(f[p]));
                    Seq::lemma_filter_contains_rev(
                        prefix,
                        |x: PendingQuery| !eligible(x, applied),
                        f[p],
                    );
                    let w = choose|w: int| 0 <= w < prefix.len() && prefix[w] == f[p];
                    assert(qs[w] == f[p]);
                    assert(qs[w].required_index <= qs[qs.len() - 1].required_index);
                }
            }
        } else {
            assert(r == f);
        }
    }
}

// ---------------------------------------------------------------------------
// Linearizable release
// ---------------------------------------------------------------------------

/// Linearizable release: a pending query is among the released exactly when
/// the applied index has reached its required index, and among the retained
/// exactly when it has not. Nothing is ever released early, and everything
/// eligible is released by the pass.
pub proof fn lemma_linearizable_release(qs: Seq<PendingQuery>, applied: u64, k: int)
    requires
        0 <= k < qs.len(),
    ensures
        eligible(qs[k], applied) ==> released(qs, applied).contains(qs[k]),
        !eligible(qs[k], applied) ==> retained(qs, applied).contains(qs[k]),
        forall|m: int|
            0 <= m < released(qs, applied).len() ==> eligible(
                #[trigger] released(qs, applied)[m],
                applied,
            ),
        forall|m: int|
            0 <= m < retained(qs, applied).len() ==> !eligible(
                #[trigger] retained(qs, applied)[m],
                applied,
            ),
{
    broadcast use vstd::seq_lib::group_filter_ensures;

    if eligible(qs[k], applied) {
        Seq::lemma_filter_contains(qs, |q: PendingQuery| eligible(q, applied), k);
    } else {
        Seq::lemma_filter_contains(qs, |q: PendingQuery| !eligible(q, applied), k);
    }
}

} // verus!
