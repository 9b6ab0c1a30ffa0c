//! The cluster harness model: node commands, the port and node registries a
//! multi-node environment keeps, and the convergence helpers
//! (`wait_for_consensus`, `eventually`) used to assert eventual agreement.
#![allow(unused_imports)]
use vstd::prelude::*;
use vstd::std_specs::cmp::PartialEqSpec;
use vstd::string::StringExecFns;
use core::time::Duration;

verus! {

// ---------------------------------------------------------------------------
// Clock access
// ---------------------------------------------------------------------------

#[verifier::external_type_specification]
#[verifier::external_body]
pub struct ExInstant(std::time::Instant);

/// Relies on `std::time::Instant::now`: a reading of the monotonic clock.
/// Nothing can be promised of its value.
#[verifier::external_body]
fn clock_now() -> std::time::Instant {
    std::time::Instant::now()
}

/// Relies on `Instant::saturating_duration_since` and `Duration::as_millis`:
/// the whole milliseconds between two readings, zero when `end` is earlier.
/// Nothing is promised of the value; callers tolerate any reading.
#[verifier::external_body]
fn millis_between(start: &std::time::Instant, end: &std::time::Instant) -> u64 {
    u64::try_from(end.saturating_duration_since(*start).as_millis()).unwrap_or(u64::MAX)
}

/// Relies on `Duration::as_millis`: the duration in whole milliseconds,
/// saturated to fit. Nothing is promised of the value.
#[verifier::external_body]
fn duration_millis(d: &Duration) -> u64 {
    u64::try_from(d.as_millis()).unwrap_or(u64::MAX)
}

// ---------------------------------------------------------------------------
// Node commands and the registries
// ---------------------------------------------------------------------------

/// The command line a node process is started with: the program name and its
/// arguments after the endpoint.
#[derive(Clone)]
pub struct NodeCommand {
    name: String,
    /// The arguments handed to the node after its endpoint.
    pub args: Vec<String>,
}

impl NodeCommand {
    /// The program name.
    pub closed spec fn spec_name(&self) -> Seq<char> {
        self.name@
    }

    /// The arguments.
    pub closed spec fn spec_args(&self) -> Seq<String> {
        self.args@
    }

    /// A command with no arguments.
    pub fn new(name: &str) -> (r: Self)
        ensures
            r.spec_name() == name@,
            r.spec_args().len() == 0,
    {
        Self { name: String::from_str(name), args: Vec::new() }
    }

    /// The program name.
    pub fn name(&self) -> (r: &str)
        ensures
            r@ == self.spec_name(),
    {
        self.name.as_str()
    }

    /// The same command with the given arguments.
    pub fn with_args(self, args: Vec<String>) -> (r: Self)
        ensures
            r.spec_name() == self.spec_name(),
            r.spec_args() == args@,
    {
        Self { name: self.name, args }
    }
}

/// The harness' view of one running node process.
pub struct Node {
    paused: bool,
}

impl Node {
    /// Whether the node is currently suspended.
    pub closed spec fn spec_paused(&self) -> bool {
        self.paused
    }

    /// A freshly started, running node.
    pub fn new() -> (r: Node)
        ensures
            !r.spec_paused(),
    {
        Node { paused: false }
    }

    /// Suspends the node.
    pub fn pause(&mut self)
        ensures
            final(self).spec_paused(),
    {
        self.paused = true;
    }

    /// Resumes the node.
    pub fn unpause(&mut self)
        ensures
            !final(self).spec_paused(),
    {
        self.paused = false;
    }
}

/// Whether an association list carries the key.
pub open spec fn pair_has<V>(s: Seq<(u8, V)>, id: u8) -> bool {
    exists|k: int| 0 <= k < s.len() && s[k].0 == id
}

/// The value an association list carries at the key, if any.
pub open spec fn pair_get<V>(s: Seq<(u8, V)>, id: u8) -> Option<V> {
    if pair_has(s, id) {
        let k = choose|k: int| 0 <= k < s.len() && s[k].0 == id;
        Option::Some(s[k].1)
    } else {
        Option::None
    }
}

/// Keys occur at most once.
pub open spec fn pair_unique<V>(s: Seq<(u8, V)>) -> bool {
    forall|p: int, q: int| 0 <= p < q < s.len() ==> (#[trigger] s[p]).0 != (#[trigger] s[q]).0
}

/// At a valid position of a unique association list, lookup returns that
/// position's value.
pub proof fn lemma_pair_get_at<V>(s: Seq<(u8, V)>, k: int)
    requires
        pair_unique(s),
        0 <= k < s.len(),
    ensures
        pair_has(s, s[k].0),
        pair_get(s, s[k].0) == Option::Some(s[k].1),
{
    assert(0 <= k < s.len() && s[k].0 == s[k].0);
    let w = choose|w: int| 0 <= w < s.len() && s[w].0 == s[k].0;
    if w < k {
        assert(s[w].0 != s[k].0);
    } else if w > k {
        assert(s[k].0 != s[w].0);
    }
}

/// The canonical endpoint string for a port, matching the URI the node
/// itself serves under.
pub open spec fn uri_of(port: u16) -> Seq<char> {
    "http://localhost:"@ + dec_chars(port as int) + "/"@
}

/// The decimal digit characters of a number, most significant first.
pub open spec fn dec_chars(n: int) -> Seq<char>
    decreases n,
{
    if n < 10 {
        seq![digit_char(n)]
    } else {
        dec_chars(n / 10).push(digit_char(n % 10))
    }
}

/// The character for one decimal digit.
pub open spec fn digit_char(d: int) -> char {
    ((48 + d) as u8) as char
}

/// The literal for one decimal digit.
fn digit_str(d: u16) -> (r: &'static str)
    requires
        d < 10,
    ensures
        r@ == seq![digit_char(d as int)],
{
    proof {
        reveal_strlit("0");
        reveal_strlit("1");
        reveal_strlit("2");
        reveal_strlit("3");
        reveal_strlit("4");
        reveal_strlit("5");
        reveal_strlit("6");
        reveal_strlit("7");
        reveal_strlit("8");
        reveal_strlit("9");
    }
    if d == 0 {
        "0"
    } else if d == 1 {
        "1"
    } else if d == 2 {
        "2"
    } else if d == 3 {
        "3"
    } else if d == 4 {
        "4"
    } else if d == 5 {
        "5"
    } else if d == 6 {
        "6"
    } else if d == 7 {
        "7"
    } else if d == 8 {
        "8"
    } else {
        "9"
    }
}

/// Appends the decimal digits of `n`.
fn push_dec(out: &mut String, n: u16)
    ensures
        final(out)@ == old(out)@ + dec_chars(n as int),
    decreases n,
{
    if n < 10 {
        out.append(digit_str(n));
        proof {
            assert(final(out)@ =~= old(out)@ + dec_chars(n as int));
        }
    } else {
        push_dec(out, n / 10);
        out.append(digit_str(n % 10));
        proof {
            assert((n / 10) as int == (n as int) / 10);
            assert((n % 10) as int == (n as int) % 10);
            assert(final(out)@ =~= old(out)@ + dec_chars(n as int));
        }
    }
}

/// The registries a multi-node environment keeps: which port each node id
/// was given, and which node processes are up (and whether paused). Starting
/// the actual process, and suspending or killing it, is the process
/// supervisor's work; the environment owns the bookkeeping it decides by.
pub struct Environment {
    port_list: Vec<(u8, u16)>,
    node_list: Vec<(u8, Node)>,
}

impl Environment {
    /// The port registry.
    pub closed spec fn ports(&self) -> Seq<(u8, u16)> {
        self.port_list@
    }

    /// The node registry.
    pub closed spec fn nodes(&self) -> Seq<(u8, Node)> {
        self.node_list@
    }

    /// Registry invariant: one entry per node id.
    pub open spec fn wf(&self) -> bool {
        pair_unique(self.ports()) && pair_unique(self.nodes())
    }

    /// An environment with no nodes yet.
    pub fn new() -> (r: Environment)
        ensures
            r.wf(),
            r.ports().len() == 0,
            r.nodes().len() == 0,
    {
        Environment { port_list: Vec::new(), node_list: Vec::new() }
    }

    /// Records that node `id` was started: keeps the port the id already
    /// had, or registers `port` for a fresh id, and marks the node running.
    /// Returns the port the node actually serves on.
    pub fn start(&mut self, id: u8, port: u16) -> (r: u16)
        requires
            old(self).wf(),
        ensures
            final(self).wf(),
            pair_get(old(self).ports(), id) matches Some(p) ==> r == p && final(self).ports()
                == old(self).ports(),
            pair_get(old(self).ports(), id) is None ==> r == port && final(self).ports()
                == old(self).ports().push((id, r)),
            pair_get(final(self).ports(), id) == Option::Some(r),
            pair_has(final(self).nodes(), id),
            pair_get(final(self).nodes(), id) matches Some(nd) && !nd.spec_paused(),
    {
        let chosen = match self.lookup_port(id) {
            Option::Some(p) => p,
            Option::None => {
                let ghost ps0 = self.port_list@;
                self.port_list.push((id, port));
                proof {
                    assert forall|p: int, q: int|
                        0 <= p < q < self.port_list@.len() implies (#[trigger] self.port_list@[p]).0
                        != (#[trigger] self.port_list@[q]).0 by {
                        if q == ps0.len() {
                            if self.port_list@[p].0 == id {
                                lemma_pair_get_at(ps0, p);
                            }
                        }
                    }
                    lemma_pair_get_at(self.port_list@, ps0.len() as int);
                }
                port
            },
        };
        self.set_node(id, Node { paused: false });
        chosen
    }

    /// The port registered for a node id, if any.
    fn lookup_port(&self, id: u8) -> (r: Option<u16>)
        requires
            self.wf(),
        ensures
            r == pair_get(self.ports(), id),
    {
        let n = self.port_list.len();
        let mut k: usize = 0;
        while k < n
            invariant
                self.wf(),
                n == self.port_list@.len(),
                k <= n,
                forall|m: int| 0 <= m < k ==> (#[trigger] self.port_list@[m]).0 != id,
            decreases n - k,
        {
            if self.port_list[k].0 == id {
                proof {
                    lemma_pair_get_at(self.port_list@, k as int);
                }
                return Option::Some(self.port_list[k].1);
            }
            k = k + 1;
        }
        proof {
            assert(!pair_has(self.ports(), id));
        }
        Option::None
    }

    /// Replaces or appends the node entry for `id`.
    fn set_node(&mut self, id: u8, node: Node)
        requires
            old(self).wf(),
        ensures
            final(self).wf(),
            final(self).ports() == old(self).ports(),
            pair_get(final(self).nodes(), id) == Option::Some(node),
            pair_has(final(self).nodes(), id),
            forall|other: u8|
                other != id ==> pair_get(final(self).nodes(), other) == pair_get(
                    old(self).nodes(),
                    other,
                ),
    {
        let ghost ns0 = old(self).nodes();
        let n = self.node_list.len();
        let mut k: usize = 0;
        while k < n
            invariant
                *self == *old(self),
                old(self).wf(),
                ns0 == self.node_list@,
                n == self.node_list@.len(),
                pair_unique(ns0),
                k <= n,
                forall|m: int| 0 <= m < k ==> (#[trigger] ns0[m]).0 != id,
            decreases n - k,
        {
            if self.node_list[k].0 == id {
                let _ = self.node_list.remove(k);
                self.node_list.insert(k, (id, node));
                proof {
                    let ns2 = self.node_list@;
                    assert(ns2 =~= ns0.update(k as int, (id, node)));
                    assert(forall|m: int| 0 <= m < ns2.len() ==> (#[trigger] ns2[m]).0 == ns0[m].0);
                    assert(pair_unique(ns2));
                    lemma_pair_get_at(ns2, k as int);
                    assert forall|other: u8|
                        other != id implies pair_get(ns2, other) == pair_get(ns0, other) by {
                        if pair_has(ns0, other) {
                            let m = choose|m: int| 0 <= m < ns0.len() && ns0[m].0 == other;
                            assert(m != k as int);
                            assert(ns2[m] == ns0[m]);
                            lemma_pair_get_at(ns0, m);
                            lemma_pair_get_at(ns2, m);
                        } else if pair_has(ns2, other) {
                            let m = choose|m: int| 0 <= m < ns2.len() && ns2[m].0 == other;
                            assert(ns0[m].0 == other);
                        }
                    }
                }
                return ;
            }
            k = k + 1;
        }
        let ghost before = self.node_list@;
        self.node_list.push((id, node));
        proof {
            let ns2 = self.node_list@;
            assert(forall|m: int| 0 <= m < before.len() ==> #[trigger] ns2[m] == before[m]);
            assert(ns2[before.len() as int] == (id, node));
            assert forall|p: int, q: int|
                0 <= p < q < ns2.len() implies (#[trigger] ns2[p]).0 != (#[trigger] ns2[q]).0 by {
                if q == before.len() as int {
                    assert(before[p].0 != id);
                }
            }
            lemma_pair_get_at(ns2, before.len() as int);
            assert forall|other: u8|
                other != id implies pair_get(ns2, other) == pair_get(before, other) by {
                if pair_has(before, other) {
                    let m = choose|m: int| 0 <= m < before.len() && before[m].0 == other;
                    assert(ns2[m] == before[m]);
                    lemma_pair_get_at(before, m);
                    lemma_pair_get_at(ns2, m);
                } else if pair_has(ns2, other) {
                    let m = choose|m: int| 0 <= m < ns2.len() && ns2[m].0 == other;
                    assert(m < before.len());
                    assert(before[m].0 == other);
                }
            }
        }
    }

    /// The canonical id string of a node: the URI built from its registered
    /// port, matching the endpoint the node itself serves under.
    pub fn get_node_id(&self, id: u8) -> (r: String)
        requires
            self.wf(),
            pair_has(self.ports(), id),
        ensures
            r@ == uri_of(pair_get(self.ports(), id).unwrap()),
    {
        let port = match self.lookup_port(id) {
            Option::Some(p) => p,
            Option::None => {
                proof {
                    assert(false);
                }
                0
            },
        };
        let mut out = String::from_str("http://localhost:");
        push_dec(&mut out, port);
        out.append("/");
        proof {
            assert(out@ =~= uri_of(port));
        }
        out
    }

    /// Forgets node `id`: the supervisor terminates the process.
    pub fn stop(&mut self, id: u8)
        requires
            old(self).wf(),
        ensures
            final(self).wf(),
            final(self).ports() == old(self).ports(),
            !pair_has(final(self).nodes(), id),
            forall|other: u8|
                other != id ==> pair_get(final(self).nodes(), other) == pair_get(
                    old(self).nodes(),
                    other,
                ),
    {
        let ghost ns0 = old(self).nodes();
        let n = self.node_list.len();
        let mut k: usize = 0;
        while k < n
            invariant
                *self == *old(self),
                old(self).wf(),
                ns0 == self.node_list@,
                n == self.node_list@.len(),
                pair_unique(ns0),
                k <= n,
                forall|m: int| 0 <= m < k ==> (#[trigger] ns0[m]).0 != id,
            decreases n - k,
        {
            if self.node_list[k].0 == id {
                let _ = self.node_list.remove(k);
                proof {
                    let ns2 = self.node_list@;
                    assert(ns2 =~= ns0.remove(k as int));
                    assert(forall|m: int| 0 <= m < k ==> #[trigger] ns2[m] == ns0[m]);
                    assert(forall|m: int|
                        k <= m < ns2.len() ==> #[trigger] ns2[m] == ns0[m + 1]);
                    assert forall|p: int, q: int|
                        0 <= p < q < ns2.len() implies (#[trigger] ns2[p]).0 != (
                        #[trigger] ns2[q]).0 by {
                        if p < k as int && q >= k as int {
                            assert(ns2[p] == ns0[p] && ns2[q] == ns0[q + 1]);
                        }
                    }
                    assert forall|m: int| 0 <= m < ns2.len() implies (#[trigger] ns2[m]).0
                        != id by {
                        if m >= k {
                            assert(ns2[m] == ns0[m + 1]);
                        }
                    }
                    assert forall|other: u8|
                        other != id implies pair_get(ns2, other) == pair_get(ns0, other) by {
                        if pair_has(ns0, other) {
                            let m = choose|m: int| 0 <= m < ns0.len() && ns0[m].0 == other;
                            assert(m != k as int);
                            lemma_pair_get_at(ns0, m);
                            if m < k as int {
                                assert(ns2[m] == ns0[m]);
                                lemma_pair_get_at(ns2, m);
                            } else {
                                assert(ns2[m - 1] == ns0[m]);
                                lemma_pair_get_at(ns2, m - 1);
                            }
                        } else if pair_has(ns2, other) {
                            let m = choose|m: int| 0 <= m < ns2.len() && ns2[m].0 == other;
                            if m < k as int {
                                assert(ns0[m].0 == other);
                            } else {
                                assert(ns0[m + 1].0 == other);
                            }
                        }
                    }
                }
                return ;
            }
            k = k + 1;
        }
        proof {
            assert(!pair_has(self.nodes(), id));
        }
    }

    /// Suspends node `id`; it must be running.
    pub fn pause(&mut self, id: u8)
        requires
            old(self).wf(),
            pair_has(old(self).nodes(), id),
        ensures
            final(self).wf(),
            final(self).ports() == old(self).ports(),
            pair_get(final(self).nodes(), id) matches Some(nd) && nd.spec_paused(),
            forall|other: u8|
                other != id ==> pair_get(final(self).nodes(), other) == pair_get(
                    old(self).nodes(),
                    other,
                ),
    {
        self.set_node(id, Node { paused: true });
    }

    /// Resumes node `id`; it must be running.
    pub fn unpause(&mut self, id: u8)
        requires
            old(self).wf(),
            pair_has(old(self).nodes(), id),
        ensures
            final(self).wf(),
            final(self).ports() == old(self).ports(),
            pair_get(final(self).nodes(), id) matches Some(nd) && !nd.spec_paused(),
            forall|other: u8|
                other != id ==> pair_get(final(self).nodes(), other) == pair_get(
                    old(self).nodes(),
                    other,
                ),
    {
        self.set_node(id, Node { paused: false });
    }

    /// Forgets every node: what tearing the environment down does.
    pub fn stop_all(&mut self)
        ensures
            final(self).nodes().len() == 0,
            final(self).ports() == old(self).ports(),
    {
        self.node_list.clear();
    }
}

// ---------------------------------------------------------------------------
// Convergence helpers
// ---------------------------------------------------------------------------

/// One poll agrees when every node answered and every answer equals the
/// first one.
pub open spec fn all_agree<T: PartialEqSpec>(rr: Seq<Option<T>>) -> bool {
    forall|m: int|
        0 <= m < rr.len() ==> (#[trigger] rr[m]) is Some && T::eq_spec(
            &rr[m].unwrap(),
            &rr[0].unwrap(),
        )
}

/// The consensus a single poll reached: the common value when every node
/// answered the same thing, `None` as soon as any node differs or errors.
pub fn consensus_of<T: Eq + PartialEqSpec>(rr: Vec<Option<T>>) -> (r: Option<T>)
    requires
        rr@.len() > 0,
    ensures
        T::obeys_eq_spec() ==> r == (if all_agree(rr@) {
            rr@[0]
        } else {
            Option::<T>::None
        }),
{
    let mut rr = rr;
    let n = rr.len();
    let mut ok = true;
    let mut idx: usize = 0;
    while idx < n
        invariant
            n == rr@.len(),
            0 < n,
            idx <= n,
            T::obeys_eq_spec() ==> (ok <==> (forall|m: int|
                0 <= m < idx ==> (#[trigger] rr@[m]) is Some && T::eq_spec(
                    &rr@[m].unwrap(),
                    &rr@[0].unwrap(),
                ))),
        decreases n - idx,
    {
        if rr[idx].is_none() {
            ok = false;
        }
        if rr[idx] != rr[0] {
            ok = false;
        }
        idx = idx + 1;
    }
    if ok {
        let first = rr.remove(0);
        first
    } else {
        Option::None
    }
}

/// A poll that justifies returning `v`: every node was asked and answered
/// `rr`, and (for well-behaved equality) all answers agree on `v`.
pub open spec fn consensus_witness<T: PartialEqSpec, F: Fn(u8) -> Option<T>>(
    f: F,
    nodes: Seq<u8>,
    v: T,
    rr: Seq<Option<T>>,
) -> bool {
    &&& rr.len() == nodes.len()
    &&& (forall|m: int| 0 <= m < rr.len() ==> call_ensures(f, (nodes[m],), #[trigger] rr[m]))
    &&& (T::obeys_eq_spec() ==> all_agree(rr) && rr[0] == Option::Some(v))
}

/// Polls every node until all agree on a value, giving up once `timeout` has
/// been spent. A `Some(v)` answer means a whole poll returned `v` from every
/// node; `None` means the deadline passed first. Release of the result is
/// eventual: a poll that disagrees is simply retried.
pub fn wait_for_consensus<T, F: Fn(u8) -> Option<T>>(timeout: Duration, nodes: Vec<u8>, f: F) -> (r:
    Option<T>) where T: Eq + Clone + PartialEqSpec
    requires
        nodes@.len() > 0,
        forall|id: u8| #[trigger] f.requires((id,)),
    ensures
        r matches Some(v) ==> exists|rr: Seq<Option<T>>|
            #[trigger] consensus_witness(f, nodes@, v, rr),
        forall|c: T|
            (T::obeys_eq_spec() && #[trigger] T::eq_spec(&c, &c) && (forall|id: u8, w: Option<T>|
                #[trigger] call_ensures(f, (id,), w) ==> w == Option::Some(c))) ==> r
                == Option::Some(c),
{
    let mut remaining = duration_millis(&timeout);
    loop
        invariant
            nodes@.len() > 0,
            forall|id: u8| #[trigger] f.requires((id,)),
        decreases remaining,
    {
        let start = clock_now();
        let n = nodes.len();
        let mut rr: Vec<Option<T>> = Vec::new();
        let mut idx: usize = 0;
        while idx < n
            invariant
                n == nodes@.len(),
                idx <= n,
                rr@.len() == idx,
                forall|id: u8| #[trigger] f.requires((id,)),
                forall|m: int|
                    0 <= m < idx ==> call_ensures(f, (nodes@[m],), #[trigger] rr@[m]),
            decreases n - idx,
        {
            let answer = f(nodes[idx]);
            rr.push(answer);
            idx = idx + 1;
        }
        let ghost round = rr@;
        let decided = consensus_of(rr);
        match decided {
            Option::Some(v) => {
                proof {
                    if T::obeys_eq_spec() {
                        assert(all_agree(round) && round[0] == Option::Some(v));
                    }
                    // this poll is the witness for the returned value
                    assert(consensus_witness(f, nodes@, v, round));
                }
                return Option::Some(v);
            },
            Option::None => {},
        }
        let end = clock_now();
        // charge every poll at least one millisecond so a deadline is
        // always reached even when the clock reading has not advanced
        let mut elapsed = millis_between(&start, &end);
        if elapsed == 0 {
            elapsed = 1;
        }
        if remaining < elapsed {
            return Option::None;
        }
        remaining = remaining - elapsed;
    }
}

/// Polls `f` until it returns `should_be`, giving up once `timeout` has been
/// spent. `true` means some poll returned the expected value.
pub fn eventually<T, F: Fn() -> T>(timeout: Duration, should_be: T, f: F) -> (r: bool) where
    T: Eq + PartialEqSpec,
    requires
        f.requires(()),
    ensures
        T::obeys_eq_spec() ==> (r ==> exists|w: T|
            #[trigger] call_ensures(f, (), w) && T::eq_spec(&w, &should_be)),
        (T::obeys_eq_spec() && (forall|w: T|
            #[trigger] call_ensures(f, (), w) ==> T::eq_spec(&w, &should_be))) ==> r,
{
    let mut remaining = duration_millis(&timeout);
    loop
        invariant
            f.requires(()),
        decreases remaining,
    {
        let start = clock_now();
        let res = f();
        if res == should_be {
            return true;
        }
        let end = clock_now();
        // charge every poll at least one millisecond so a deadline is
        // always reached even when the clock reading has not advanced
        let mut elapsed = millis_between(&start, &end);
        if elapsed == 0 {
            elapsed = 1;
        }
        if remaining < elapsed {
            return false;
        }
        remaining = remaining - elapsed;
    }
}

} // verus!
