//! The leader-discovery gateway: presents clients with a single logical
//! entry point, follows "not leader" redirects transparently, and bounds the
//! number of redirect hops per logical call.
#![allow(unused_imports)]
use vstd::prelude::*;
use crate::NodeId;

verus! {

/// How a logical node identity is turned into a connectable target.
/// Implemented by the transport that hosts the gateway.
pub trait Resolver {
    /// The connectable endpoint for a logical node identity.
    fn resolve(&self, id: NodeId) -> String;
}

/// What one RPC attempt came back with, as far as redirection is concerned.
pub enum RpcResponse {
    /// The contacted node is the leader and answered.
    Success(Vec<u8>),
    /// The contacted node is not the leader; it may hint at who is.
    NotLeader(Option<NodeId>),
}

/// Gateway-level failures: recoverable by the caller's own retry policy,
/// never swallowed.
#[derive(Debug, Clone, Copy, PartialEq, Eq, Structural)]
pub enum GatewayError {
    /// No node answered while a leader was being sought.
    NoLeaderAvailable,
    /// Leadership kept moving: the per-call redirect bound was spent.
    RedirectLoopExceeded,
}

/// The phases a logical call moves through. `Redirecting` is transient and
/// re-entrant: a redirect may itself be redirected during leadership churn.
#[derive(Debug, Clone, Copy, PartialEq, Eq, Structural)]
pub enum GatewayPhase {
    /// No endpoint has answered yet.
    Disconnected,
    /// An endpoint answered and is treated as the leader.
    Connected,
    /// A "not leader" answer arrived; the next attempt goes elsewhere.
    Redirecting,
}

/// What a logical call yields for a given sequence of per-attempt answers
/// and a remaining redirect budget: the first success wins; a redirect
/// spends budget; a spent budget surfaces `RedirectLoopExceeded`; running
/// out of answering nodes surfaces `NoLeaderAvailable`.
pub open spec fn call_outcome(rs: Seq<RpcResponse>, budget: nat) -> Result<Seq<u8>, GatewayError>
    decreases rs.len(),
{
    if rs.len() == 0 {
        Result::Err(GatewayError::NoLeaderAvailable)
    } else {
        match rs[0] {
            RpcResponse::Success(v) => Result::Ok(v@),
            RpcResponse::NotLeader(_) => if budget == 0 {
                Result::Err(GatewayError::RedirectLoopExceeded)
            } else {
                call_outcome(rs.drop_first(), (budget - 1) as nat)
            },
        }
    }
}

/// The node probed after a redirect that names no leader: the next member
/// by identity, wrapping around.
pub open spec fn spec_probe_next(cur: NodeId) -> NodeId {
    if cur == u64::MAX {
        0
    } else {
        (cur + 1) as u64
    }
}

/// Where one redirect sends the gateway: to the hinted leader, remembered in
/// the cache, or to the next probed member when no hint was given.
pub open spec fn spec_follow(cur: NodeId, cache: Option<NodeId>, hint: Option<NodeId>) -> (
    NodeId,
    Option<NodeId>,
) {
    match hint {
        Option::Some(leader) => (leader, Option::Some(leader)),
        Option::None => (spec_probe_next(cur), cache),
    }
}

/// The node the gateway ends a call pointed at, and its leader cache, after
/// following the redirects of `rs` within `budget`: each redirect re-resolves
/// to the hinted leader (or probes onward), a success or a spent budget
/// leaves the state as it stands.
pub open spec fn spec_gateway_state(
    rs: Seq<RpcResponse>,
    budget: nat,
    cur: NodeId,
    cache: Option<NodeId>,
) -> (NodeId, Option<NodeId>)
    decreases rs.len(),
{
    if rs.len() == 0 {
        (cur, cache)
    } else {
        match rs[0] {
            RpcResponse::Success(_) => (cur, cache),
            RpcResponse::NotLeader(hint) => if budget == 0 {
                (cur, cache)
            } else {
                let next = spec_follow(cur, cache, hint);
                spec_gateway_state(rs.drop_first(), (budget - 1) as nat, next.0, next.1)
            },
        }
    }
}

/// Where the next attempt goes after a "not leader" answer: the transport
/// driving attempts one at a time uses this same decision the gateway
/// replays in `run_call`.
pub fn follow_redirect(current: NodeId, hint: &Option<NodeId>) -> (r: NodeId)
    ensures
        hint matches Some(leader) ==> r == leader,
        hint is None ==> r == spec_probe_next(current),
{
    match hint {
        Option::Some(leader) => *leader,
        Option::None => {
            if current == u64::MAX {
                0
            } else {
                current + 1
            }
        },
    }
}

/// A client channel bound to a logical cluster: it tracks the node it
/// currently believes leads, a purely advisory last-known-leader cache, and
/// the per-call redirect bound.
pub struct Gateway {
    current: NodeId,
    cache: Option<NodeId>,
    redirect_bound: u64,
    phase: GatewayPhase,
}

/// Configures how clients reach the cluster: the injected strategy that
/// turns a logical node identity into a connectable target, and the redirect
/// bound every handle made by `connect` inherits.
pub struct Connector<R: Resolver> {
    resolver: R,
    redirect_bound: u64,
}

impl<R: Resolver> Connector<R> {
    /// A connector resolving endpoints through `resolve_endpoint`, whose
    /// handles give up after `redirect_bound` redirects.
    pub fn new(resolve_endpoint: R, redirect_bound: u64) -> (r: Connector<R>)
        ensures
            r.spec_bound() == redirect_bound,
    {
        Connector { resolver: resolve_endpoint, redirect_bound }
    }

    /// The configured per-call redirect bound.
    pub closed spec fn spec_bound(&self) -> u64 {
        self.redirect_bound
    }

    /// The connectable target for a logical node identity.
    pub fn resolve_endpoint(&self, id: NodeId) -> String {
        self.resolver.resolve(id)
    }

    /// Establishes a client channel that first contacts `initial`.
    pub fn connect(&self, initial: NodeId) -> (r: Gateway)
        ensures
            r.spec_bound() == self.spec_bound(),
            r.spec_current() == initial,
            r.spec_cache() is None,
            r.spec_phase() == GatewayPhase::Disconnected,
    {
        Gateway {
            current: initial,
            cache: Option::None,
            redirect_bound: self.redirect_bound,
            phase: GatewayPhase::Disconnected,
        }
    }
}

impl Gateway {
    /// The node the next attempt contacts.
    pub closed spec fn spec_current(&self) -> NodeId {
        self.current
    }

    /// The advisory last-known-leader cache; staleness costs at most one
    /// extra redirect, never correctness.
    pub closed spec fn spec_cache(&self) -> Option<NodeId> {
        self.cache
    }

    /// The per-call redirect bound.
    pub closed spec fn spec_bound(&self) -> u64 {
        self.redirect_bound
    }

    /// Where the channel stands.
    pub closed spec fn spec_phase(&self) -> GatewayPhase {
        self.phase
    }

    /// The node the next attempt contacts.
    pub fn current_node(&self) -> (r: NodeId)
        ensures
            r == self.spec_current(),
    {
        self.current
    }

    /// The endpoint the next attempt connects to, under the connector's
    /// resolution strategy.
    pub fn current_target<R: Resolver>(&self, connector: &Connector<R>) -> String {
        connector.resolve_endpoint(self.current)
    }

    /// Runs one logical call. `responses[k]` is what the `k`-th attempt came
    /// back with; the transport collects them while the gateway redirects.
    /// The caller sees the first success or a gateway error, never the
    /// intermediate redirects.
    pub fn run_call(&mut self, responses: &Vec<RpcResponse>) -> (r: Result<Vec<u8>, GatewayError>)
        ensures
            r is Ok <==> call_outcome(responses@, old(self).spec_bound() as nat) is Ok,
            r matches Ok(v) ==> call_outcome(responses@, old(self).spec_bound() as nat)
                == Result::<Seq<u8>, GatewayError>::Ok(v@),
            r matches Err(e) ==> call_outcome(responses@, old(self).spec_bound() as nat)
                == Result::<Seq<u8>, GatewayError>::Err(e),
            final(self).spec_bound() == old(self).spec_bound(),
            r is Ok ==> final(self).spec_phase() == GatewayPhase::Connected,
            r is Err ==> final(self).spec_phase() == GatewayPhase::Disconnected,
            final(self).spec_current() == spec_gateway_state(
                responses@,
                old(self).spec_bound() as nat,
                old(self).spec_current(),
                old(self).spec_cache(),
            ).0,
            final(self).spec_cache() == spec_gateway_state(
                responses@,
                old(self).spec_bound() as nat,
                old(self).spec_current(),
                old(self).spec_cache(),
            ).1,
    {
        let ghost all = responses@;
        let bound = self.redirect_bound;
        let mut budget = bound;
        let n = responses.len();
        let mut k: usize = 0;
        proof {
            assert(all.subrange(0, n as int) =~= all);
        }
        while k < n
            invariant
                n == all.len(),
                all == responses@,
                k <= n,
                budget <= bound,
                self.redirect_bound == bound,
                bound == old(self).spec_bound(),
                call_outcome(all, bound as nat) == call_outcome(
                    all.subrange(k as int, n as int),
                    budget as nat,
                ),
                spec_gateway_state(
                    all,
                    bound as nat,
                    old(self).spec_current(),
                    old(self).spec_cache(),
                ) == spec_gateway_state(
                    all.subrange(k as int, n as int),
                    budget as nat,
                    self.current,
                    self.cache,
                ),
            decreases n - k,
        {
            let ghost rest = all.subrange(k as int, n as int);
            proof {
                assert(rest[0] == all[k as int]);
                assert(rest.drop_first() =~= all.subrange(k + 1, n as int));
            }
            match &responses[k] {
                RpcResponse::Success(v) => {
                    self.phase = GatewayPhase::Connected;
                    let out = vstd::slice::slice_to_vec(v.as_slice());
                    return Result::Ok(out);
                },
                RpcResponse::NotLeader(hint) => {
                    self.phase = GatewayPhase::Redirecting;
                    if budget == 0 {
                        self.phase = GatewayPhase::Disconnected;
                        return Result::Err(GatewayError::RedirectLoopExceeded);
                    }
                    budget = budget - 1;
                    let ghost before = (self.current, self.cache);
                    // re-resolve to the hinted leader, remembering it in the
                    // advisory cache, or probe onward when no hint was given
                    self.current = follow_redirect(self.current, hint);
                    match hint {
                        Option::Some(leader) => {
                            self.cache = Option::Some(*leader);
                        },
                        Option::None => {},
                    }
                    proof {
                        assert((self.current, self.cache) == spec_follow(
                            before.0,
                            before.1,
                            *hint,
                        ));
                    }
                },
            }
            k = k + 1;
        }
        self.phase = GatewayPhase::Disconnected;
        proof {
            assert(all.subrange(n as int, n as int) =~= Seq::<RpcResponse>::empty());
        }
        Result::Err(GatewayError::NoLeaderAvailable)
    }
}

// ---------------------------------------------------------------------------
// Gateway transparency
// ---------------------------------------------------------------------------

/// Gateway transparency, the successful side: when the first `k` answers are
/// redirects and the `k`-th attempt succeeds within the redirect budget, the
/// call completes with that answer and the caller never sees the redirects.
pub proof fn lemma_gateway_transparency(rs: Seq<RpcResponse>, budget: nat, k: int)
    requires
        0 <= k < rs.len(),
        k <= budget,
        forall|m: int| 0 <= m < k ==> (#[trigger] rs[m]) is NotLeader,
        rs[k] is Success,
    ensures
        call_outcome(rs, budget) == Result::<Seq<u8>, GatewayError>::Ok(rs[k]->Success_0@),
    decreases k,
{
    if k == 0 {
    } else {
        let tail = rs.drop_first();
        assert(tail[k - 1] == rs[k]);
        assert(forall|m: int| 0 <= m < k - 1 ==> (#[trigger] tail[m]) == rs[m + 1]);
        lemma_gateway_transparency(tail, (budget - 1) as nat, k - 1);
    }
}

/// Gateway transparency, the exhausted side: when leadership never
/// stabilizes — every answer within the budget and the one after it are
/// redirects — the call surfaces `RedirectLoopExceeded`.
pub proof fn lemma_redirect_loop_exceeded(rs: Seq<RpcResponse>, budget: nat)
    requires
        rs.len() > budget,
        forall|m: int| 0 <= m <= budget ==> (#[trigger] rs[m]) is NotLeader,
    ensures
        call_outcome(rs, budget) == Result::<Seq<u8>, GatewayError>::Err(
            GatewayError::RedirectLoopExceeded,
        ),
    decreases budget,
{
    if budget > 0 {
        let tail = rs.drop_first();
        assert(forall|m: int| 0 <= m <= budget - 1 ==> (#[trigger] tail[m]) == rs[m + 1]);
        lemma_redirect_loop_exceeded(tail, (budget - 1) as nat);
    }
}

} // verus!
