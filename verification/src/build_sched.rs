//! Build scheduling over the dependency graph.
//!
//! A node may start as soon as its last in-graph dependency completes. The
//! first failure stops the world: running builds finish, and no new one is
//! handed out. [`Scheduler`] makes every decision; whoever runs the jobs asks
//! it for the next one and reports how each ended.

use crate::text::{list_contains, texts};
use vstd::prelude::*;

verus! {

/// Maximum number of concurrent builds between packages. A fixed number and
/// not the processor count: every worker runs a full toolchain invocation, so
/// memory and I/O multiply with concurrency.
pub const MAX_PARALLEL_BUILD_WORKERS: usize = 3;

/// Why a scheduled run stopped short of building every node.
#[derive(Debug)]
pub struct FailedBuilds {
    /// Nodes whose job ran and failed: name and rendered error, in completion
    /// order.
    pub failed: Vec<(String, String)>,
    /// Nodes that never started: dependents of a failure and unschedulable
    /// (cyclic) nodes, in declaration order.
    pub skipped: Vec<String>,
}

/// What a worker that asks for a job is told.
#[derive(Debug, PartialEq, Eq, Structural, Clone, Copy)]
pub enum Step {
    /// Run the job of this node, then report it finished.
    Run(usize),
    /// Nothing is ready, but a running job may still release something.
    Wait,
    /// Nothing will be handed out any more.
    Drained,
}

/// The scheduler's state: nodes are numbered in declaration order.
#[verifier::ext_equal]
pub struct State {
    /// For each node the nodes that depend on it.
    pub dependents: Seq<Seq<int>>,
    /// For each node the number of its dependencies that are not done.
    pub remaining: Seq<int>,
    /// Nodes waiting to be handed out, first come first served.
    pub ready: Seq<int>,
    /// The nodes that are done.
    pub done: Seq<bool>,
    /// Nodes whose job was handed out and has not finished.
    pub running: Seq<int>,
    /// Set by the first failure.
    pub stop: bool,
    /// The failed nodes with their errors, in completion order.
    pub failures: Seq<(int, Seq<char>)>,
}

/// A dependency graph: each node's name with the names it depends on.
pub open spec fn graph_names(g: Seq<(String, Vec<String>)>) -> Seq<Seq<char>> {
    g.map_values(|n: (String, Vec<String>)| n.0@)
}

/// Whether node `i` depends on node `j`. Names outside the graph are no
/// nodes, and a node that names itself does not wait for itself.
pub open spec fn edge(g: Seq<(String, Vec<String>)>, i: int, j: int) -> bool {
    i != j && texts(g[i].1@).contains(g[j].0@)
}

/// The nodes below `n` that depend on node `j`.
pub open spec fn dependents_of(g: Seq<(String, Vec<String>)>, j: int, n: int) -> Seq<int>
    decreases n,
{
    if n <= 0 {
        Seq::empty()
    } else if edge(g, n - 1, j) {
        dependents_of(g, j, n - 1).push(n - 1)
    } else {
        dependents_of(g, j, n - 1)
    }
}

/// The number of nodes below `n` that node `i` depends on.
pub open spec fn degree(g: Seq<(String, Vec<String>)>, i: int, n: int) -> int
    decreases n,
{
    if n <= 0 {
        0
    } else if edge(g, i, n - 1) {
        degree(g, i, n - 1) + 1
    } else {
        degree(g, i, n - 1)
    }
}

/// `v` without its entries `x`.
pub open spec fn without(v: Seq<int>, x: int) -> Seq<int>
    decreases v.len(),
{
    if v.len() == 0 {
        v
    } else if v.last() == x {
        without(v.drop_last(), x)
    } else {
        without(v.drop_last(), x).push(v.last())
    }
}

/// One dependent `d` of a completed node: one dependency fewer to wait for,
/// and ready if that was the last one.
pub open spec fn release_one(s: State, d: int) -> State {
    let left = if s.remaining[d] > 0 {
        s.remaining[d] - 1
    } else {
        0
    };
    State {
        remaining: s.remaining.update(d, left),
        ready: if left == 0 && !s.done[d] && !s.ready.contains(d) {
            s.ready.push(d)
        } else {
            s.ready
        },
        ..s
    }
}

/// Releases the dependents `ds` in order.
pub open spec fn release(s: State, ds: Seq<int>) -> State
    decreases ds.len(),
{
    if ds.len() == 0 {
        s
    } else {
        release_one(release(s, ds.drop_last()), ds.last())
    }
}

/// Node `i` is done; its dependents are released.
pub open spec fn complete(s: State, i: int) -> State {
    release(State { done: s.done.update(i, true), ..s }, s.dependents[i])
}

/// The state before any node is done.
pub open spec fn fresh(g: Seq<(String, Vec<String>)>) -> State {
    State {
        dependents: Seq::new(g.len(), |j: int| dependents_of(g, j, g.len() as int)),
        remaining: Seq::new(g.len(), |i: int| degree(g, i, g.len() as int)),
        ready: Seq::empty(),
        done: Seq::new(g.len(), |i: int| false),
        running: Seq::empty(),
        stop: false,
        failures: Seq::empty(),
    }
}

/// The nodes below `n` that were done beforehand complete in order.
pub open spec fn complete_known(
    g: Seq<(String, Vec<String>)>,
    known: Seq<Seq<char>>,
    n: int,
) -> State
    decreases n,
{
    if n <= 0 {
        fresh(g)
    } else if known.contains(g[n - 1].0@) {
        complete(complete_known(g, known, n - 1), n - 1)
    } else {
        complete_known(g, known, n - 1)
    }
}

/// The nodes below `n` that wait for nothing join the queue in order.
pub open spec fn seed(s: State, n: int) -> State
    decreases n,
{
    if n <= 0 {
        s
    } else {
        let t = seed(s, n - 1);
        if !t.done[n - 1] && t.remaining[n - 1] == 0 && !t.ready.contains(n - 1) {
            State { ready: t.ready.push(n - 1), ..t }
        } else {
            t
        }
    }
}

/// The state in which scheduling starts.
pub open spec fn initial(g: Seq<(String, Vec<String>)>, known: Seq<Seq<char>>) -> State {
    seed(complete_known(g, known, g.len() as int), g.len() as int)
}

/// Drops the nodes at the front of the queue that are done.
pub open spec fn skip_done(ready: Seq<int>, done: Seq<bool>) -> Seq<int>
    decreases ready.len(),
{
    if ready.len() > 0 && done[ready[0]] {
        skip_done(ready.skip(1), done)
    } else {
        ready
    }
}

/// What a worker that asks for a job is told, and the state it leaves.
pub open spec fn taken(s: State) -> (Step, State) {
    let queue = skip_done(s.ready, s.done);
    if s.stop {
        (Step::Drained, s)
    } else if queue.len() > 0 {
        (
            Step::Run(queue[0] as usize),
            State { ready: queue.skip(1), running: s.running.push(queue[0]), ..s },
        )
    } else if s.running.len() == 0 {
        (Step::Drained, State { ready: queue, ..s })
    } else {
        (Step::Wait, State { ready: queue, ..s })
    }
}

/// The state after the job of node `i` ended with `outcome`.
pub open spec fn finished(s: State, i: int, outcome: Result<(), Seq<char>>) -> State {
    let rest = State { running: without(s.running, i), ..s };
    match outcome {
        Ok(_) => complete(rest, i),
        Err(e) => State { stop: true, failures: s.failures.push((i, e)), ..rest },
    }
}

/// The number of nodes below `n` that node `i` depends on and that are not
/// done.
pub open spec fn pending(dependents: Seq<Seq<int>>, done: Seq<bool>, i: int, n: int) -> int
    decreases n,
{
    if n <= 0 {
        0
    } else if !done[n - 1] && dependents[n - 1].contains(i) {
        pending(dependents, done, i, n - 1) + 1
    } else {
        pending(dependents, done, i, n - 1)
    }
}

/// Whether node `i` has failed.
pub open spec fn has_failed(s: State, i: int) -> bool {
    exists|k: int| 0 <= k < s.failures.len() && (#[trigger] s.failures[k]).0 == i
}

/// A list of distinct nodes of a graph of `n`.
pub open spec fn distinct_nodes(v: Seq<int>, n: int) -> bool {
    &&& v.no_duplicates()
    &&& forall|k: int| 0 <= k < v.len() ==> 0 <= #[trigger] v[k] < n
}

/// What every state of a graph of `n` nodes keeps, between any two decisions.
pub open spec fn consistent(s: State, n: int) -> bool {
    &&& s.dependents.len() == n && s.remaining.len() == n && s.done.len() == n
    &&& forall|j: int| 0 <= j < n ==> distinct_nodes(#[trigger] s.dependents[j], n)
    &&& forall|j: int| 0 <= j < n ==> !(#[trigger] s.dependents[j]).contains(j)
    &&& forall|i: int|
        0 <= i < n ==> #[trigger] s.remaining[i] == pending(s.dependents, s.done, i, n)
    &&& distinct_nodes(s.ready, n)
    &&& forall|k: int| 0 <= k < s.ready.len() ==> s.remaining[#[trigger] s.ready[k]] == 0
    &&& distinct_nodes(s.running, n)
    &&& forall|k: int|
        0 <= k < s.running.len() ==> s.remaining[#[trigger] s.running[k]] == 0
            && !s.done[s.running[k]] && !s.ready.contains(s.running[k]) && !has_failed(
            s,
            s.running[k],
        )
    &&& forall|k: int|
        0 <= k < s.failures.len() ==> 0 <= (#[trigger] s.failures[k]).0 < n
            && s.remaining[s.failures[k].0] == 0 && !s.done[s.failures[k].0] && !s.ready.contains(
            s.failures[k].0,
        )
    &&& s.stop == (s.failures.len() > 0)
}

/// Every node that waits for nothing has its turn: it is done, queued,
/// running or failed.
pub open spec fn nobody_forgotten(s: State, n: int) -> bool {
    forall|i: int|
        0 <= i < n && !s.done[i] && #[trigger] s.remaining[i] == 0 ==> s.ready.contains(i)
            || s.running.contains(i) || has_failed(s, i)
}

proof fn lemma_without(v: Seq<int>, x: int)
    ensures
        forall|y: int| #[trigger] without(v, x).contains(y) <==> v.contains(y) && y != x,
        v.no_duplicates() ==> without(v, x).no_duplicates(),
        without(v, x).len() <= v.len(),
    decreases v.len(),
{
    if v.len() > 0 {
        let w = v.drop_last();
        lemma_without(w, x);
        assert forall|y: int| #[trigger]
            without(v, x).contains(y) <==> v.contains(y) && y != x by {
            let r = without(w, x);
            if v.contains(y) && y != x {
                let k = choose|k: int| 0 <= k < v.len() && v[k] == y;
                if k < w.len() {
                    assert(w[k] == y);
                    assert(w.contains(y));
                    assert(without(w, x).contains(y));
                    let m = choose|m: int| 0 <= m < r.len() && r[m] == y;
                    assert(without(v, x)[m] == y);
                } else {
                    assert(without(v, x)[r.len() as int] == y);
                }
            }
            if without(v, x).contains(y) {
                let m = choose|m: int| 0 <= m < without(v, x).len() && without(v, x)[m] == y;
                if m < r.len() {
                    assert(r[m] == y);
                    assert(without(w, x).contains(y));
                    let k = choose|k: int| 0 <= k < w.len() && w[k] == y;
                    assert(v[k] == y);
                } else {
                    assert(v[v.len() - 1] == y);
                }
            }
        }
        if v.no_duplicates() {
            assert(w.no_duplicates());
            let r = without(w, x);
            assert forall|a: int, b: int|
                0 <= a < without(v, x).len() && 0 <= b < without(v, x).len() && a
                    != b implies without(v, x)[a] != without(v, x)[b] by {
                if v.last() != x {
                    if a == r.len() {
                        assert(without(w, x).contains(r[b]));
                        let k = choose|k: int| 0 <= k < w.len() && w[k] == r[b];
                        assert(v[k] == r[b]);
                    } else if b == r.len() {
                        assert(without(w, x).contains(r[a]));
                        let k = choose|k: int| 0 <= k < w.len() && w[k] == r[a];
                        assert(v[k] == r[a]);
                    }
                }
            }
        }
    }
}

proof fn lemma_pending_bounds(dependents: Seq<Seq<int>>, done: Seq<bool>, i: int, n: int)
    ensures
        pending(dependents, done, i, n) >= 0,
        pending(dependents, done, i, n) == 0 ==> forall|j: int|
            0 <= j < n && (#[trigger] dependents[j]).contains(i) ==> done[j],
        pending(dependents, done, i, n) > 0 ==> exists|j: int|
            0 <= j < n && (#[trigger] dependents[j]).contains(i) && !done[j],
    decreases n,
{
    if n > 0 {
        lemma_pending_bounds(dependents, done, i, n - 1);
    }
}

/// Completing node `k` takes one from the count of exactly those that depend
/// on it.
proof fn lemma_pending_complete(
    dependents: Seq<Seq<int>>,
    done: Seq<bool>,
    k: int,
    i: int,
    n: int,
)
    requires
        0 <= k < done.len(),
        !done[k],
        n <= done.len(),
    ensures
        pending(dependents, done.update(k, true), i, n) == pending(dependents, done, i, n) - (
        if k < n && dependents[k].contains(i) {
            1int
        } else {
            0
        }),
    decreases n,
{
    if n > 0 {
        lemma_pending_complete(dependents, done, k, i, n - 1);
    }
}

/// What releasing a list of distinct dependents does to each part of the
/// state.
proof fn lemma_release(s: State, ds: Seq<int>, n: int)
    requires
        distinct_nodes(ds, n),
        s.remaining.len() == n,
        s.done.len() == n,
        distinct_nodes(s.ready, n),
        forall|i: int| 0 <= i < n ==> #[trigger] s.remaining[i] >= 0,
    ensures
        ({
            let t = release(s, ds);
            &&& t.dependents == s.dependents && t.done == s.done && t.running == s.running
            &&& t.stop == s.stop && t.failures == s.failures
            &&& t.remaining.len() == n
            &&& forall|i: int|
                0 <= i < n ==> #[trigger] t.remaining[i] == (if ds.contains(i)
                    && s.remaining[i] > 0 {
                    s.remaining[i] - 1
                } else {
                    s.remaining[i]
                })
            &&& distinct_nodes(t.ready, n)
            &&& forall|i: int| #[trigger]
                t.ready.contains(i) <==> s.ready.contains(i) || (ds.contains(i)
                    && t.remaining[i] == 0 && !s.done[i])
        }),
    decreases ds.len(),
{
    if ds.len() > 0 {
        let es = ds.drop_last();
        let d = ds.last();
        assert(distinct_nodes(es, n)) by {
            assert forall|k: int| 0 <= k < es.len() implies 0 <= #[trigger] es[k] < n by {
                assert(es[k] == ds[k]);
            }
        }
        lemma_release(s, es, n);
        let u = release(s, es);
        let t = release(s, ds);
        assert(ds[ds.len() - 1] == d);
        assert(!es.contains(d)) by {
            if es.contains(d) {
                let k = choose|k: int| 0 <= k < es.len() && es[k] == d;
                assert(ds[k] == ds[ds.len() - 1]);
            }
        }
        assert forall|i: int| ds.contains(i) <==> es.contains(i) || i == d by {
            if ds.contains(i) {
                let k = choose|k: int| 0 <= k < ds.len() && ds[k] == i;
                if k < es.len() {
                    assert(es[k] == i);
                }
            }
            if es.contains(i) {
                let k = choose|k: int| 0 <= k < es.len() && es[k] == i;
                assert(ds[k] == i);
            }
        }
        assert forall|i: int| #[trigger]
            t.ready.contains(i) <==> s.ready.contains(i) || (ds.contains(i) && t.remaining[i] == 0
                && !s.done[i]) by {
            if t.ready.contains(i) {
                let k = choose|k: int| 0 <= k < t.ready.len() && t.ready[k] == i;
                if k < u.ready.len() {
                    assert(u.ready[k] == i);
                    assert(u.ready.contains(i));
                }
            }
            if u.ready.contains(i) {
                let k = choose|k: int| 0 <= k < u.ready.len() && u.ready[k] == i;
                assert(t.ready[k] == i);
            }
            if t.ready.len() > u.ready.len() {
                assert(t.ready[u.ready.len() as int] == d);
            }
        }
    }
}

/// Completing a node that was not done keeps the state consistent.
proof fn lemma_complete(s: State, i: int, n: int)
    requires
        consistent(s, n),
        0 <= i < n,
        !s.done[i],
        !s.running.contains(i),
        !has_failed(s, i),
    ensures
        consistent(complete(s, i), n),
        nobody_forgotten(s, n) ==> nobody_forgotten(complete(s, i), n),
        complete(s, i).done == s.done.update(i, true),
        complete(s, i).stop == s.stop,
        complete(s, i).failures == s.failures,
        complete(s, i).running == s.running,
        complete(s, i).dependents == s.dependents,
{
    let m = State { done: s.done.update(i, true), ..s };
    let ds = s.dependents[i];
    let t = complete(s, i);
    assert forall|x: int| 0 <= x < n implies #[trigger] s.remaining[x] >= 0 by {
        lemma_pending_bounds(s.dependents, s.done, x, n);
    }
    lemma_release(m, ds, n);
    assert forall|x: int| 0 <= x < n implies #[trigger] t.remaining[x] == pending(
        t.dependents,
        t.done,
        x,
        n,
    ) by {
        lemma_pending_complete(s.dependents, s.done, i, x, n);
        lemma_pending_bounds(s.dependents, s.done, x, n);
        lemma_pending_bounds(t.dependents, t.done, x, n);
        assert(s.remaining[x] == pending(s.dependents, s.done, x, n));
    }
    assert forall|k: int| 0 <= k < t.ready.len() implies t.remaining[#[trigger] t.ready[k]]
        == 0 by {
        let x = t.ready[k];
        assert(t.ready.contains(x));
        if s.ready.contains(x) {
            let m0 = choose|m0: int| 0 <= m0 < s.ready.len() && s.ready[m0] == x;
            assert(s.remaining[s.ready[m0]] == 0);
        }
    }
    assert forall|k: int| 0 <= k < t.running.len() implies t.remaining[#[trigger] t.running[k]] == 0
        && !t.done[t.running[k]] && !t.ready.contains(t.running[k]) && !has_failed(
        t,
        t.running[k],
    ) by {
        let x = s.running[k];
        assert(s.running.contains(x));
        assert(!has_failed(s, x));
        if ds.contains(x) {
            // A running node has no dependency that is not done.
            lemma_pending_bounds(s.dependents, s.done, x, n);
            assert(s.dependents[i].contains(x));
        }
    }
    assert forall|k: int| 0 <= k < t.failures.len() implies 0 <= (#[trigger] t.failures[k]).0 < n
        && t.remaining[t.failures[k].0] == 0 && !t.done[t.failures[k].0] && !t.ready.contains(
        t.failures[k].0,
    ) by {
        let x = s.failures[k].0;
        assert(has_failed(s, x));
        if ds.contains(x) {
            lemma_pending_bounds(s.dependents, s.done, x, n);
            assert(s.dependents[i].contains(x));
        }
    }
    if nobody_forgotten(s, n) {
        assert forall|x: int|
            0 <= x < n && !t.done[x] && #[trigger] t.remaining[x] == 0 implies t.ready.contains(x)
            || t.running.contains(x) || has_failed(t, x) by {
            if !ds.contains(x) || s.remaining[x] == 0 {
                assert(s.remaining[x] == 0);
                if has_failed(s, x) {
                    let k = choose|k: int| 0 <= k < s.failures.len() && (#[trigger] s.failures[k]).0 == x;
                    assert(t.failures[k].0 == x);
                }
            }
        }
    }
}

/// A worker's request keeps the state consistent.
pub proof fn law_taking_keeps_consistency(s: State, n: int)
    requires
        consistent(s, n),
    ensures
        consistent(taken(s).1, n),
        nobody_forgotten(s, n) ==> nobody_forgotten(taken(s).1, n),
{
    let queue = skip_done(s.ready, s.done);
    lemma_skip_done(s.ready, s.done, n);
    let t = taken(s).1;
    if !s.stop {
        assert(s.failures.len() == 0);
        assert forall|k: int| 0 <= k < t.ready.len() implies s.ready.contains(
            #[trigger] t.ready[k],
        ) && t.remaining[t.ready[k]] == 0 && 0 <= t.ready[k] < n by {
            let x = t.ready[k];
            assert(queue.contains(x)) by {
                if queue.len() > 0 {
                    assert(queue[k + 1] == x);
                } else {
                    assert(queue[k] == x);
                }
            }
            let m = choose|m: int| 0 <= m < s.ready.len() && s.ready[m] == x;
            assert(s.remaining[s.ready[m]] == 0);
        }
        assert forall|k: int| 0 <= k < t.running.len() implies 0 <= t.running[k] < n
            && t.remaining[#[trigger] t.running[k]] == 0 && !t.done[t.running[k]]
            && !t.ready.contains(t.running[k]) && !has_failed(t, t.running[k]) by {
            let x = t.running[k];
            if k < s.running.len() {
                assert(s.running[k] == x);
                if t.ready.contains(x) {
                    let m = choose|m: int| 0 <= m < t.ready.len() && t.ready[m] == x;
                    assert(s.ready.contains(t.ready[m]));
                }
            } else {
                assert(queue[0] == x);
                assert(queue.contains(x));
                let m = choose|m: int| 0 <= m < s.ready.len() && s.ready[m] == x;
                assert(s.remaining[s.ready[m]] == 0);
                if t.ready.contains(x) {
                    let m2 = choose|m2: int| 0 <= m2 < t.ready.len() && t.ready[m2] == x;
                    assert(queue[m2 + 1] == queue[0]);
                }
            }
        }
        assert(t.running.no_duplicates()) by {
            assert forall|a: int, b: int|
                0 <= a < t.running.len() && 0 <= b < t.running.len() && a != b implies t.running[a]
                != t.running[b] by {
                if queue.len() > 0 {
                    assert(queue.contains(queue[0]));
                    if a == s.running.len() {
                        assert(s.running[b] == t.running[b]);
                    } else if b == s.running.len() {
                        assert(s.running[a] == t.running[a]);
                    } else {
                        assert(s.running[a] == t.running[a] && s.running[b] == t.running[b]);
                    }
                }
            }
        }
        if nobody_forgotten(s, n) {
            assert forall|x: int|
                0 <= x < n && !t.done[x] && #[trigger] t.remaining[x] == 0 implies t.ready.contains(
                x,
            ) || t.running.contains(x) || has_failed(t, x) by {
                assert(s.remaining[x] == 0);
                if s.ready.contains(x) {
                    assert(queue.contains(x));
                    let m = choose|m: int| 0 <= m < queue.len() && queue[m] == x;
                    if m == 0 {
                        assert(t.running[s.running.len() as int] == x);
                    } else {
                        assert(t.ready[m - 1] == x);
                    }
                } else if s.running.contains(x) {
                    let m = choose|m: int| 0 <= m < s.running.len() && s.running[m] == x;
                    assert(t.running[m] == x);
                }
            }
        }
    }
}

proof fn lemma_skip_done(ready: Seq<int>, done: Seq<bool>, n: int)
    requires
        distinct_nodes(ready, n),
    ensures
        ({
            let q = skip_done(ready, done);
            &&& distinct_nodes(q, n)
            &&& forall|x: int| #[trigger] q.contains(x) ==> ready.contains(x)
            &&& forall|x: int| ready.contains(x) && !done[x] ==> #[trigger] q.contains(x)
            &&& q.len() > 0 ==> !done[q[0]]
            &&& q.len() <= ready.len()
        }),
    decreases ready.len(),
{
    if ready.len() > 0 && done[ready[0]] {
        let r = ready.skip(1);
        assert(distinct_nodes(r, n)) by {
            assert forall|k: int| 0 <= k < r.len() implies 0 <= #[trigger] r[k] < n by {
                assert(r[k] == ready[k + 1]);
            }
        }
        lemma_skip_done(r, done, n);
        let q = skip_done(ready, done);
        assert forall|x: int| #[trigger] q.contains(x) implies ready.contains(x) by {
            assert(r.contains(x));
            let k = choose|k: int| 0 <= k < r.len() && r[k] == x;
            assert(ready[k + 1] == x);
        }
        assert forall|x: int| ready.contains(x) && !done[x] implies #[trigger] q.contains(x) by {
            let k = choose|k: int| 0 <= k < ready.len() && ready[k] == x;
            assert(r[k - 1] == x);
            assert(r.contains(x));
        }
    }
}

/// A finished job keeps the state consistent.
pub proof fn law_finishing_keeps_consistency(
    s: State,
    i: int,
    outcome: Result<(), Seq<char>>,
    n: int,
)
    requires
        consistent(s, n),
        s.running.contains(i),
    ensures
        consistent(finished(s, i, outcome), n),
        nobody_forgotten(s, n) ==> nobody_forgotten(finished(s, i, outcome), n),
{
    let rest = State { running: without(s.running, i), ..s };
    lemma_without(s.running, i);
    let w = without(s.running, i);
    let at = choose|k: int| 0 <= k < s.running.len() && s.running[k] == i;
    assert(s.running[at] == i);
    assert forall|k: int| 0 <= k < w.len() implies s.running.contains(#[trigger] w[k]) && w[k]
        != i by {
        assert(without(s.running, i).contains(w[k]));
    }
    assert forall|k: int| 0 <= k < w.len() implies 0 <= #[trigger] w[k] < n && s.remaining[w[k]]
        == 0 && !s.done[w[k]] && !s.ready.contains(w[k]) && !has_failed(s, w[k]) by {
        let m = choose|m: int| 0 <= m < s.running.len() && s.running[m] == w[k];
        assert(s.running[m] == w[k]);
    }
    match outcome {
        Ok(_) => {
            assert forall|k: int| 0 <= k < w.len() implies !has_failed(
                rest,
                #[trigger] rest.running[k],
            ) by {
                assert(!has_failed(s, w[k]));
                if has_failed(rest, w[k]) {
                    let m = choose|m: int|
                        0 <= m < rest.failures.len() && (#[trigger] rest.failures[m]).0 == w[k];
                    assert(s.failures[m].0 == w[k]);
                }
            }
            assert(consistent(rest, n));
            if has_failed(rest, i) {
                let m = choose|m: int|
                    0 <= m < rest.failures.len() && (#[trigger] rest.failures[m]).0 == i;
                assert(s.failures[m].0 == i);
                assert(has_failed(s, i));
            }
            assert(!rest.running.contains(i)) by {
                assert(without(s.running, i).contains(i) <==> s.running.contains(i) && i != i);
            }
            lemma_complete(rest, i, n);
            let t = complete(rest, i);
            if nobody_forgotten(s, n) {
                assert forall|x: int|
                    0 <= x < n && !t.done[x] && #[trigger] t.remaining[x]
                        == 0 implies t.ready.contains(x) || t.running.contains(x) || has_failed(
                    t,
                    x,
                ) by {
                    lemma_completed_turn(s, rest, i, x, n);
                }
            }
        },
        Err(e) => {
            let t = finished(s, i, outcome);
            assert(t.failures[s.failures.len() as int] == (i, e));
            assert forall|k: int| 0 <= k < t.running.len() implies !has_failed(
                t,
                #[trigger] t.running[k],
            ) by {
                if has_failed(t, w[k]) {
                    let m = choose|m: int|
                        0 <= m < t.failures.len() && (#[trigger] t.failures[m]).0 == w[k];
                    if m < s.failures.len() {
                        assert(s.failures[m].0 == w[k]);
                        assert(has_failed(s, w[k]));
                    }
                }
            }
            assert forall|k: int| 0 <= k < t.failures.len() implies 0 <= (
            #[trigger] t.failures[k]).0 < n && t.remaining[t.failures[k].0] == 0
                && !t.done[t.failures[k].0] && !t.ready.contains(t.failures[k].0) by {
                if k < s.failures.len() {
                    assert(s.failures[k] == t.failures[k]);
                }
            }
            if nobody_forgotten(s, n) {
                assert forall|x: int|
                    0 <= x < n && !t.done[x] && #[trigger] t.remaining[x]
                        == 0 implies t.ready.contains(x) || t.running.contains(x) || has_failed(
                    t,
                    x,
                ) by {
                    assert(s.remaining[x] == 0);
                    if x == i {
                        assert(has_failed(t, x));
                    } else if s.running.contains(x) {
                        assert(without(s.running, i).contains(x));
                    } else if has_failed(s, x) {
                        let m = choose|m: int|
                            0 <= m < s.failures.len() && (#[trigger] s.failures[m]).0 == x;
                        assert(t.failures[m].0 == x);
                    }
                }
            }
        },
    }
}

/// After node `i` completed, node `x` has its turn if it waits for nothing.
proof fn lemma_completed_turn(s: State, rest: State, i: int, x: int, n: int)
    requires
        consistent(s, n),
        consistent(rest, n),
        nobody_forgotten(s, n),
        s.running.contains(i),
        rest == (State { running: without(s.running, i), ..s }),
        0 <= i < n,
        0 <= x < n,
        !complete(rest, i).done[x],
        complete(rest, i).remaining[x] == 0,
    ensures
        ({
            let t = complete(rest, i);
            t.ready.contains(x) || t.running.contains(x) || has_failed(t, x)
        }),
{
    let t = complete(rest, i);
    let m = State { done: rest.done.update(i, true), ..rest };
    assert forall|y: int| 0 <= y < n implies #[trigger] m.remaining[y] >= 0 by {
        lemma_pending_bounds(rest.dependents, rest.done, y, n);
        assert(rest.remaining[y] == pending(rest.dependents, rest.done, y, n));
    }
    lemma_release(m, rest.dependents[i], n);
    lemma_without(s.running, i);
    assert(m.remaining[x] >= 0);
    if rest.dependents[i].contains(x) {
        assert(t.ready.contains(x));
    } else {
        assert(t.remaining[x] == m.remaining[x]);
        assert(s.remaining[x] == 0);
        if s.running.contains(x) {
            if x == i {
                assert(t.done[x]);
            }
            assert(without(s.running, i).contains(x));
        } else if has_failed(s, x) {
            let k = choose|k: int| 0 <= k < s.failures.len() && (#[trigger] s.failures[k]).0 == x;
            assert(t.failures[k].0 == x);
        }
    }
}

/// A node is handed out only when everything it depends on is done, never
/// after a failure, and never a second time.
pub proof fn law_handed_out_once_and_in_order(s: State, n: int)
    requires
        consistent(s, n),
        taken(s).0 is Run,
        n <= usize::MAX,
    ensures
        ({
            let i = taken(s).0->Run_0 as int;
            &&& 0 <= i < n
            &&& !s.stop
            &&& !s.done[i] && !s.running.contains(i) && !has_failed(s, i)
            &&& taken(s).1.running.contains(i)
            &&& forall|j: int| 0 <= j < n && (#[trigger] s.dependents[j]).contains(i) ==> s.done[j]
        }),
{
    let queue = skip_done(s.ready, s.done);
    lemma_skip_done(s.ready, s.done, n);
    let i = queue[0];
    assert(queue.contains(i));
    let m = choose|m: int| 0 <= m < s.ready.len() && s.ready[m] == i;
    assert(s.remaining[s.ready[m]] == 0);
    lemma_pending_bounds(s.dependents, s.done, i, n);
    assert(s.remaining[i] == pending(s.dependents, s.done, i, n));
    if s.running.contains(i) {
        let k = choose|k: int| 0 <= k < s.running.len() && s.running[k] == i;
        assert(!s.ready.contains(s.running[k]));
    }
    if has_failed(s, i) {
        let k = choose|k: int| 0 <= k < s.failures.len() && (#[trigger] s.failures[k]).0 == i;
        assert(!s.ready.contains(s.failures[k].0));
    }
    assert(taken(s).1.running[s.running.len() as int] == i);
}

/// A node that was handed out stays running, done or failed: later requests
/// and reports never make it available again.
pub proof fn law_progress_is_kept(s: State, i: int, k: int, outcome: Result<(), Seq<char>>, n: int)
    requires
        consistent(s, n),
        s.running.contains(k),
        0 <= i < n,
        s.running.contains(i) || s.done[i] || has_failed(s, i),
    ensures
        ({
            let t = taken(s).1;
            t.running.contains(i) || t.done[i] || has_failed(t, i)
        }),
        ({
            let t = finished(s, k, outcome);
            t.running.contains(i) || t.done[i] || has_failed(t, i)
        }),
        s.stop ==> taken(s).1.stop && finished(s, k, outcome).stop,
{
    let t = taken(s).1;
    if s.running.contains(i) {
        let m = choose|m: int| 0 <= m < s.running.len() && s.running[m] == i;
        assert(t.running[m] == i);
    }
    let u = finished(s, k, outcome);
    lemma_without(s.running, k);
    let rest = State { running: without(s.running, k), ..s };
    let at = choose|m: int| 0 <= m < s.running.len() && s.running[m] == k;
    assert(s.running[at] == k);
    match outcome {
        Ok(_) => {
            assert forall|x: int| 0 <= x < n implies #[trigger] s.remaining[x] >= 0 by {
                lemma_pending_bounds(s.dependents, s.done, x, n);
            }
            let m = State { done: rest.done.update(k, true), ..rest };
            lemma_release(m, rest.dependents[k], n);
            if has_failed(s, i) {
                let f = choose|f: int| 0 <= f < s.failures.len() && (#[trigger] s.failures[f]).0 == i;
                assert(u.failures[f].0 == i);
            } else if s.running.contains(i) && i != k {
                assert(without(s.running, k).contains(i));
            }
        },
        Err(e) => {
            if has_failed(s, i) {
                let f = choose|f: int| 0 <= f < s.failures.len() && (#[trigger] s.failures[f]).0 == i;
                assert(u.failures[f].0 == i);
            } else if s.running.contains(i) {
                if i == k {
                    assert(u.failures[s.failures.len() as int].0 == i);
                } else {
                    assert(without(s.running, k).contains(i));
                }
            }
        },
    }
    if has_failed(s, i) {
        let f = choose|f: int| 0 <= f < s.failures.len() && (#[trigger] s.failures[f]).0 == i;
        assert(t.failures[f].0 == i);
    }
}

/// When the pool drains without a failure, every unfinished node waits for
/// another unfinished node: only a cycle leaves work undone.
pub proof fn law_only_cycles_are_left(s: State, n: int)
    requires
        consistent(s, n),
        nobody_forgotten(s, n),
        !s.stop,
        taken(s).0 is Drained,
    ensures
        forall|i: int|
            0 <= i < n && !#[trigger] s.done[i] ==> exists|j: int|
                0 <= j < n && !s.done[j] && (#[trigger] s.dependents[j]).contains(i),
{
    lemma_skip_done(s.ready, s.done, n);
    assert forall|i: int| 0 <= i < n && !#[trigger] s.done[i] implies exists|j: int|
        0 <= j < n && !s.done[j] && (#[trigger] s.dependents[j]).contains(i) by {
        lemma_pending_bounds(s.dependents, s.done, i, n);
        assert(s.remaining[i] == pending(s.dependents, s.done, i, n));
        if s.remaining[i] == 0 {
            if s.ready.contains(i) {
                assert(skip_done(s.ready, s.done).contains(i));
            }
            assert(!has_failed(s, i));
        }
    }
}

proof fn lemma_dependents_of(g: Seq<(String, Vec<String>)>, j: int, n: int)
    requires
        0 <= n <= g.len(),
    ensures
        forall|i: int| #[trigger] dependents_of(g, j, n).contains(i) <==> 0 <= i < n && edge(g, i, j),
        distinct_nodes(dependents_of(g, j, n), n),
    decreases n,
{
    if n > 0 {
        lemma_dependents_of(g, j, n - 1);
        let d = dependents_of(g, j, n);
        let e = dependents_of(g, j, n - 1);
        assert forall|k: int| 0 <= k < e.len() implies 0 <= #[trigger] e[k] < n - 1 by {
            assert(dependents_of(g, j, n - 1).contains(e[k]));
        }
        assert forall|i: int| #[trigger] d.contains(i) <==> 0 <= i < n && edge(g, i, j) by {
            if d.contains(i) {
                let k = choose|k: int| 0 <= k < d.len() && d[k] == i;
                if k < e.len() {
                    assert(e[k] == i);
                    assert(dependents_of(g, j, n - 1).contains(i));
                }
            }
            if 0 <= i < n && edge(g, i, j) {
                if i < n - 1 {
                    assert(dependents_of(g, j, n - 1).contains(i));
                    let k = choose|k: int| 0 <= k < e.len() && e[k] == i;
                    assert(d[k] == i);
                } else {
                    assert(d[e.len() as int] == i);
                }
            }
        }
    }
}

/// Before anything is done the pending dependencies are all of them.
proof fn lemma_degree(g: Seq<(String, Vec<String>)>, i: int, n: int)
    requires
        0 <= n <= g.len(),
        0 <= i < g.len(),
    ensures
        degree(g, i, n) == pending(fresh(g).dependents, fresh(g).done, i, n),
    decreases n,
{
    if n > 0 {
        lemma_degree(g, i, n - 1);
        lemma_dependents_of(g, n - 1, g.len() as int);
        assert(fresh(g).dependents[n - 1] == dependents_of(g, n - 1, g.len() as int));
    }
}

proof fn lemma_fresh(g: Seq<(String, Vec<String>)>)
    ensures
        consistent(fresh(g), g.len() as int),
{
    let s = fresh(g);
    let n = g.len() as int;
    assert forall|j: int| 0 <= j < n implies distinct_nodes(#[trigger] s.dependents[j], n)
        && !s.dependents[j].contains(j) by {
        lemma_dependents_of(g, j, n);
    }
    assert forall|i: int| 0 <= i < n implies #[trigger] s.remaining[i] == pending(
        s.dependents,
        s.done,
        i,
        n,
    ) by {
        lemma_degree(g, i, n);
    }
}

proof fn lemma_complete_known(g: Seq<(String, Vec<String>)>, known: Seq<Seq<char>>, n: int)
    requires
        0 <= n <= g.len(),
    ensures
        ({
            let s = complete_known(g, known, n);
            &&& consistent(s, g.len() as int)
            &&& s.running.len() == 0 && s.failures.len() == 0 && !s.stop
            &&& s.dependents == fresh(g).dependents
            &&& forall|i: int|
                0 <= i < g.len() ==> #[trigger] s.done[i] == (i < n && known.contains(g[i].0@))
        }),
    decreases n,
{
    if n == 0 {
        lemma_fresh(g);
    } else {
        lemma_complete_known(g, known, n - 1);
        if known.contains(g[n - 1].0@) {
            lemma_complete(complete_known(g, known, n - 1), n - 1, g.len() as int);
        }
    }
}

proof fn lemma_seed(s: State, n: int, total: int)
    requires
        0 <= n <= total,
        consistent(s, total),
        s.running.len() == 0,
        s.failures.len() == 0,
    ensures
        ({
            let t = seed(s, n);
            &&& consistent(t, total)
            &&& t == (State { ready: t.ready, ..s })
            &&& forall|i: int|
                0 <= i < n && !t.done[i] && #[trigger] t.remaining[i] == 0 ==> t.ready.contains(i)
        }),
    decreases n,
{
    if n > 0 {
        lemma_seed(s, n - 1, total);
        let u = seed(s, n - 1);
        let t = seed(s, n);
        assert forall|i: int|
            0 <= i < n && !t.done[i] && #[trigger] t.remaining[i] == 0 implies t.ready.contains(
            i,
        ) by {
            if i < n - 1 {
                assert(u.remaining[i] == 0);
                let k = choose|k: int| 0 <= k < u.ready.len() && u.ready[k] == i;
                assert(t.ready[k] == i);
            } else if !u.ready.contains(n - 1) {
                assert(t.ready[u.ready.len() as int] == i);
            }
        }
    }
}

/// Scheduling starts in a consistent state in which nothing runs, exactly the
/// known nodes are done, and every node that waits for nothing is queued.
pub proof fn law_start_is_consistent(g: Seq<(String, Vec<String>)>, known: Seq<Seq<char>>)
    ensures
        ({
            let s = initial(g, known);
            let n = g.len() as int;
            &&& consistent(s, n)
            &&& nobody_forgotten(s, n)
            &&& s.running.len() == 0 && !s.stop
            &&& forall|i: int| 0 <= i < n ==> #[trigger] s.done[i] == known.contains(g[i].0@)
            &&& forall|i: int, j: int|
                #![trigger s.dependents[j].contains(i)]
                0 <= j < n ==> (s.dependents[j].contains(i) <==> 0 <= i < n && edge(g, i, j))
        }),
{
    let n = g.len() as int;
    lemma_complete_known(g, known, n);
    lemma_seed(complete_known(g, known, n), n, n);
    let s = initial(g, known);
    assert forall|i: int, j: int|
        #![trigger s.dependents[j].contains(i)]
        0 <= j < n implies (s.dependents[j].contains(i) <==> 0 <= i < n && edge(g, i, j)) by {
        lemma_dependents_of(g, j, n);
        assert(s.dependents[j] == dependents_of(g, j, n));
    }
}

/// The list of nodes with the given numbers.
pub open spec fn nodes(v: Seq<usize>) -> Seq<int> {
    v.map_values(|x: usize| x as int)
}

/// The failed nodes with their errors.
pub open spec fn failure_list(v: Seq<(usize, String)>) -> Seq<(int, Seq<char>)> {
    v.map_values(|f: (usize, String)| (f.0 as int, f.1@))
}

/// How a job ended, with the text of its error.
pub open spec fn outcome_text(o: Result<(), String>) -> Result<(), Seq<char>> {
    match o {
        Ok(_) => Ok(()),
        Err(e) => Err(e@),
    }
}

/// Decides which build may start, and keeps what it needs to decide it.
pub struct Scheduler {
    names: Vec<String>,
    dependents: Vec<Vec<usize>>,
    remaining: Vec<usize>,
    ready: Vec<usize>,
    queued: Vec<bool>,
    done: Vec<bool>,
    running: Vec<usize>,
    stop: bool,
    failures: Vec<(usize, String)>,
}

impl View for Scheduler {
    type V = State;

    closed spec fn view(&self) -> State {
        State {
            dependents: self.dependents@.map_values(|v: Vec<usize>| nodes(v@)),
            remaining: nodes(self.remaining@),
            ready: nodes(self.ready@),
            done: self.done@,
            running: nodes(self.running@),
            stop: self.stop,
            failures: failure_list(self.failures@),
        }
    }
}

impl Scheduler {
    /// The names of the nodes, in declaration order.
    pub closed spec fn names(&self) -> Seq<Seq<char>> {
        texts(self.names@)
    }

    /// Well-formed: one entry for each node, the state consistent, and the
    /// queue flags in step with the queue.
    pub closed spec fn wf(&self) -> bool {
        let n = self.names@.len() as int;
        &&& consistent(self@, n)
        &&& self.queued@.len() == n
        &&& forall|i: int| 0 <= i < n ==> #[trigger] self.queued@[i] == self@.ready.contains(i)
    }

    /// The number of nodes.
    pub fn len(&self) -> (r: usize)
        ensures
            r == self.names().len(),
    {
        self.names.len()
    }

    /// The name of node `i`.
    pub fn name(&self, i: usize) -> (r: &String)
        requires
            i < self.names().len(),
        ensures
            r@ == self.names()[i as int],
    {
        &self.names[i]
    }

    /// One dependent of a completed node has one dependency fewer to wait for.
    fn release_dependent(&mut self, d: usize)
        requires
            d < old(self).names@.len(),
            old(self).remaining@.len() == old(self).names@.len(),
            old(self).done@.len() == old(self).names@.len(),
            old(self).queued@.len() == old(self).names@.len(),
            forall|i: int|
                0 <= i < old(self).names@.len() ==> #[trigger] old(self).queued@[i]
                    == old(self)@.ready.contains(i),
        ensures
            final(self)@ == release_one(old(self)@, d as int),
            final(self).names == old(self).names,
            final(self).dependents == old(self).dependents,
            final(self).queued@.len() == old(self).queued@.len(),
            final(self).remaining@.len() == old(self).remaining@.len(),
            final(self).done == old(self).done,
            forall|i: int|
                0 <= i < final(self).names@.len() ==> #[trigger] final(self).queued@[i]
                    == final(self)@.ready.contains(i),
    {
        let left: usize = if self.remaining[d] > 0 {
            self.remaining[d] - 1
        } else {
            0
        };
        let ghost before = self@;
        let ghost flags = self.queued@;
        self.remaining[d] = left;
        assert(nodes(self.remaining@) =~= before.remaining.update(d as int, left as int));
        if left == 0 && !self.done[d] && !self.queued[d] {
            self.queued[d] = true;
            let ghost r = self.ready@;
            self.ready.push(d);
            assert(nodes(self.ready@) =~= before.ready.push(d as int));
            assert forall|i: int| 0 <= i < self.names@.len() implies #[trigger] self.queued@[i]
                == self@.ready.contains(i) by {
                let q = before.ready;
                let p = q.push(d as int);
                assert(flags[i] == q.contains(i));
                if q.contains(i) {
                    let k = choose|k: int| 0 <= k < q.len() && q[k] == i;
                    assert(p[k] == i);
                }
                if p.contains(i) {
                    let k = choose|k: int| 0 <= k < p.len() && p[k] == i;
                    if k < q.len() {
                        assert(q[k] == i);
                    }
                }
                assert(p[q.len() as int] == d as int);
            }
        }
        assert(self@ =~= release_one(before, d as int));
    }

    /// Node `i` is done; its dependents are released.
    fn mark_complete(&mut self, i: usize)
        requires
            old(self).wf(),
            i < old(self).names().len(),
            !old(self)@.done[i as int],
            !old(self)@.running.contains(i as int),
            !has_failed(old(self)@, i as int),
        ensures
            final(self).wf(),
            final(self)@ == complete(old(self)@, i as int),
            final(self).names() == old(self).names(),
    {
        let ghost start = self@;
        let ghost n = self.names@.len() as int;
        self.done[i] = true;
        let ghost m = State { done: start.done.update(i as int, true), ..start };
        assert(self@ =~= m);
        let count: usize = self.dependents[i].len();
        let ghost ds = start.dependents[i as int];
        assert(ds =~= nodes(self.dependents@[i as int]@));
        let mut k: usize = 0;
        assert(release(m, ds.take(0)) == m);
        while k < count
            invariant
                k <= count,
                n == self.names@.len(),
                i < n,
                self.names == old(self).names,
                self.dependents == old(self).dependents,
                count == self.dependents@[i as int]@.len(),
                ds == nodes(self.dependents@[i as int]@),
                self.dependents@.len() == n,
                distinct_nodes(ds, n),
                self.remaining@.len() == n,
                self.done@.len() == n,
                self.queued@.len() == n,
                self@ == release(m, ds.take(k as int)),
                forall|x: int|
                    0 <= x < n ==> #[trigger] self.queued@[x] == self@.ready.contains(x),
            decreases count - k,
        {
            let d = self.dependents[i][k];
            assert(ds[k as int] == d as int);
            assert(ds.take(k + 1).drop_last() =~= ds.take(k as int));
            assert(ds.take(k + 1).last() == d as int);
            self.release_dependent(d);
            k += 1;
        }
        assert(ds.take(count as int) =~= ds);
        proof {
            lemma_complete(start, i as int, n);
        }
    }

    /// Prepares the schedule of `graph`: each node's name with the names it
    /// depends on. The nodes named in `known` are done beforehand.
    pub fn new(graph: &Vec<(String, Vec<String>)>, known: &Vec<String>) -> (r: Scheduler)
        ensures
            r.wf(),
            r.names() == graph_names(graph@),
            r@ == initial(graph@, texts(known@)),
    {
        let n: usize = graph.len();
        let ghost g = graph@;
        let ghost k = texts(known@);
        let mut names: Vec<String> = Vec::new();
        let mut dependents: Vec<Vec<usize>> = Vec::new();
        let mut remaining: Vec<usize> = Vec::new();
        let mut queued: Vec<bool> = Vec::new();
        let mut done: Vec<bool> = Vec::new();
        let mut j: usize = 0;
        while j < n
            invariant
                n == g.len(),
                g == graph@,
                j <= n,
                names@.len() == j,
                dependents@.len() == j,
                remaining@.len() == j,
                queued@.len() == j,
                done@.len() == j,
                forall|x: int| 0 <= x < j ==> (#[trigger] names@[x])@ == g[x].0@,
                forall|x: int|
                    0 <= x < j ==> nodes((#[trigger] dependents@[x])@) == dependents_of(
                        g,
                        x,
                        n as int,
                    ),
                forall|x: int| 0 <= x < j ==> #[trigger] remaining@[x] == degree(g, x, n as int),
                forall|x: int| 0 <= x < j ==> !#[trigger] queued@[x],
                forall|x: int| 0 <= x < j ==> !#[trigger] done@[x],
            decreases n - j,
        {
            let mut list: Vec<usize> = Vec::new();
            let mut count: usize = 0;
            let mut i: usize = 0;
            while i < n
                invariant
                    n == g.len(),
                    g == graph@,
                    j < n,
                    i <= n,
                    count <= i,
                    nodes(list@) == dependents_of(g, j as int, i as int),
                    count == degree(g, j as int, i as int),
                decreases n - i,
            {
                if i != j && list_contains(&graph[i].1, graph[j].0.as_str()) {
                    let ghost before = list@;
                    list.push(i);
                    assert(nodes(list@) =~= nodes(before).push(i as int));
                }
                if i != j && list_contains(&graph[j].1, graph[i].0.as_str()) {
                    count += 1;
                }
                i += 1;
            }
            names.push(graph[j].0.clone());
            dependents.push(list);
            remaining.push(count);
            queued.push(false);
            done.push(false);
            j += 1;
        }
        let mut s = Scheduler {
            names,
            dependents,
            remaining,
            ready: Vec::new(),
            queued,
            done,
            running: Vec::new(),
            stop: false,
            failures: Vec::new(),
        };
        proof {
            assert(s@ =~= fresh(g)) by {
                assert(s@.dependents =~= fresh(g).dependents);
                assert(s@.remaining =~= fresh(g).remaining);
                assert(s@.done =~= fresh(g).done);
                assert(s@.ready =~= fresh(g).ready);
                assert(s@.running =~= fresh(g).running);
                assert(s@.failures =~= fresh(g).failures);
            }
            lemma_fresh(g);
            assert(s.names() =~= graph_names(g));
        }
        let mut i: usize = 0;
        while i < n
            invariant
                n == g.len(),
                g == graph@,
                k == texts(known@),
                i <= n,
                s.wf(),
                s.names() == graph_names(g),
                s@ == complete_known(g, k, i as int),
            decreases n - i,
        {
            if list_contains(known, graph[i].0.as_str()) {
                proof {
                    lemma_complete_known(g, k, i as int);
                }
                s.mark_complete(i);
            }
            i += 1;
        }
        proof {
            lemma_complete_known(g, k, n as int);
        }
        let ghost base = s@;
        let mut i: usize = 0;
        while i < n
            invariant
                n == g.len(),
                i <= n,
                s.wf(),
                s.names@.len() == n,
                s.names() == graph_names(g),
                consistent(base, n as int),
                base.running.len() == 0,
                base.failures.len() == 0,
                s@ == seed(base, i as int),
            decreases n - i,
        {
            proof {
                lemma_seed(base, i as int, n as int);
                lemma_seed(base, i + 1, n as int);
            }
            let ghost before = s@;
            let ghost flags = s.queued@;
            if !s.done[i] && s.remaining[i] == 0 && !s.queued[i] {
                s.queued[i] = true;
                s.ready.push(i);
                assert(s@.ready =~= before.ready.push(i as int));
                assert(s@ =~= seed(base, i + 1));
                assert forall|x: int| 0 <= x < n implies #[trigger] s.queued@[x]
                    == s@.ready.contains(x) by {
                    let q = before.ready;
                    let p = q.push(i as int);
                    assert(flags[x] == q.contains(x));
                    if q.contains(x) {
                        let a = choose|a: int| 0 <= a < q.len() && q[a] == x;
                        assert(p[a] == x);
                    }
                    if p.contains(x) {
                        let a = choose|a: int| 0 <= a < p.len() && p[a] == x;
                        if a < q.len() {
                            assert(q[a] == x);
                        }
                    }
                    assert(p[q.len() as int] == i as int);
                }
            }
            i += 1;
        }
        s
    }

    /// What a worker that asks for a job is told.
    pub fn take(&mut self) -> (r: Step)
        requires
            old(self).wf(),
        ensures
            final(self).wf(),
            final(self).names() == old(self).names(),
            r == taken(old(self)@).0,
            final(self)@ == taken(old(self)@).1,
    {
        let ghost start = self@;
        let ghost n = self.names@.len() as int;
        proof {
            law_taking_keeps_consistency(start, n);
        }
        if self.stop {
            return Step::Drained;
        }
        while self.ready.len() > 0
            invariant
                n == self.names@.len(),
                self.names == old(self).names,
                self.stop == false,
                self@ == (State { ready: self@.ready, ..start }),
                consistent(start, n),
                distinct_nodes(self@.ready, n),
                skip_done(start.ready, start.done) == skip_done(self@.ready, start.done),
                self.queued@.len() == n,
                consistent(taken(start).1, n),
                start == old(self)@,
                !start.stop,
                forall|x: int|
                    0 <= x < n ==> #[trigger] self.queued@[x] == self@.ready.contains(x),
            decreases self.ready.len(),
        {
            let ghost before = self@.ready;
            let ghost flags = self.queued@;
            let ghost raw = self.ready@;
            let i = self.ready.remove(0);
            assert(before[0] == i as int);
            assert(self@.ready =~= before.skip(1));
            self.queued[i] = false;
            assert forall|x: int| 0 <= x < n implies #[trigger] self.queued@[x]
                == self@.ready.contains(x) by {
                let q = before.skip(1);
                assert(flags[x] == before.contains(x));
                if before.contains(x) && x != i {
                    let a = choose|a: int| 0 <= a < before.len() && before[a] == x;
                    assert(q[a - 1] == x);
                }
                if q.contains(x) {
                    let a = choose|a: int| 0 <= a < q.len() && q[a] == x;
                    assert(before[a + 1] == x);
                }
            }
            if !self.done[i] {
                let ghost running = self.running@;
                self.running.push(i);
                assert(nodes(self.running@) =~= start.running.push(i as int));
                assert(self@ =~= taken(start).1);
                return Step::Run(i);
            }
        }
        assert(self@.ready =~= Seq::<int>::empty());
        assert(self@ =~= taken(start).1);
        if self.running.len() == 0 {
            Step::Drained
        } else {
            Step::Wait
        }
    }

    /// Reports that the job of node `i` ended.
    pub fn finish(&mut self, i: usize, outcome: Result<(), String>)
        requires
            old(self).wf(),
            old(self)@.running.contains(i as int),
        ensures
            final(self).wf(),
            final(self).names() == old(self).names(),
            final(self)@ == finished(old(self)@, i as int, outcome_text(outcome)),
    {
        let ghost start = self@;
        let ghost n = self.names@.len() as int;
        let mut kept: Vec<usize> = Vec::new();
        let mut k: usize = 0;
        assert(start.running.take(0) =~= Seq::<int>::empty());
        while k < self.running.len()
            invariant
                k <= self.running.len(),
                start.running == nodes(self.running@),
                nodes(kept@) == without(start.running.take(k as int), i as int),
            decreases self.running.len() - k,
        {
            let x = self.running[k];
            assert(start.running.take(k + 1).drop_last() =~= start.running.take(k as int));
            assert(start.running.take(k + 1).last() == x as int);
            if x != i {
                let ghost before = kept@;
                kept.push(x);
                assert(nodes(kept@) =~= nodes(before).push(x as int));
            }
            k += 1;
        }
        assert(start.running.take(k as int) =~= start.running);
        let ghost model = outcome_text(outcome);
        proof {
            law_finishing_keeps_consistency(start, i as int, model, n);
            law_finishing_keeps_consistency(start, i as int, Err(Seq::empty()), n);
            lemma_without(start.running, i as int);
            let at = choose|m: int| 0 <= m < start.running.len() && start.running[m] == i as int;
            assert(start.running[at] == i as int);
        }
        self.running = kept;
        let ghost rest = State { running: without(start.running, i as int), ..start };
        assert(self@ =~= rest);
        match outcome {
            Ok(_) => {
                proof {
                    lemma_rest(start, i as int, n);
                }
                self.mark_complete(i);
            },
            Err(e) => {
                self.stop = true;
                let ghost before = self.failures@;
                self.failures.push((i, e));
                assert(failure_list(self.failures@) =~= failure_list(before).push((i as int, e@)));
                assert(self@ =~= finished(start, i as int, model));
            },
        }
    }
}

/// Taking node `i` off the running list alone keeps the state consistent.
proof fn lemma_rest(s: State, i: int, n: int)
    requires
        consistent(s, n),
        s.running.contains(i),
    ensures
        ({
            let rest = State { running: without(s.running, i), ..s };
            &&& consistent(rest, n)
            &&& 0 <= i < n && !rest.done[i] && !rest.running.contains(i) && !has_failed(rest, i)
        }),
{
    let rest = State { running: without(s.running, i), ..s };
    lemma_without(s.running, i);
    let w = without(s.running, i);
    let at = choose|k: int| 0 <= k < s.running.len() && s.running[k] == i;
    assert(s.running[at] == i);
    assert forall|x: int| has_failed(rest, x) implies has_failed(s, x) by {
        let m = choose|m: int| 0 <= m < rest.failures.len() && (#[trigger] rest.failures[m]).0 == x;
        assert(s.failures[m].0 == x);
    }
    assert forall|k: int| 0 <= k < w.len() implies 0 <= #[trigger] w[k] < n && s.remaining[w[k]]
        == 0 && !s.done[w[k]] && !s.ready.contains(w[k]) && !has_failed(rest, w[k]) by {
        assert(without(s.running, i).contains(w[k]));
        let m = choose|m: int| 0 <= m < s.running.len() && s.running[m] == w[k];
        assert(s.running[m] == w[k]);
    }
    assert(without(s.running, i).contains(i) <==> s.running.contains(i) && i != i);
}

/// While a node has failed, nothing that depends on it is queued or running,
/// and nothing at all is handed out.
pub proof fn law_failure_blocks_dependents(s: State, i: int, d: int, n: int)
    requires
        consistent(s, n),
        0 <= i < n,
        has_failed(s, i),
        s.dependents[i].contains(d),
    ensures
        !s.ready.contains(d),
        !s.running.contains(d),
        taken(s).0 is Drained,
{
    let f = choose|f: int| 0 <= f < s.failures.len() && (#[trigger] s.failures[f]).0 == i;
    assert(!s.done[s.failures[f].0]);
    let ds = s.dependents[i];
    let k = choose|k: int| 0 <= k < ds.len() && ds[k] == d;
    assert(0 <= ds[k] < n);
    lemma_pending_bounds(s.dependents, s.done, d, n);
    assert(s.remaining[d] == pending(s.dependents, s.done, d, n));
    if s.ready.contains(d) {
        let m = choose|m: int| 0 <= m < s.ready.len() && s.ready[m] == d;
        assert(s.remaining[s.ready[m]] == 0);
    }
    if s.running.contains(d) {
        let m = choose|m: int| 0 <= m < s.running.len() && s.running[m] == d;
        assert(s.remaining[s.running[m]] == 0);
    }
}

/// The names below `n` whose nodes are neither done nor among `failed`.
pub open spec fn unstarted(
    names: Seq<Seq<char>>,
    done: Seq<bool>,
    failed: Seq<Seq<char>>,
    n: int,
) -> Seq<Seq<char>>
    decreases n,
{
    if n <= 0 {
        Seq::empty()
    } else if !done[n - 1] && !failed.contains(names[n - 1]) {
        unstarted(names, done, failed, n - 1).push(names[n - 1])
    } else {
        unstarted(names, done, failed, n - 1)
    }
}

/// The names of the failed nodes, in completion order.
pub open spec fn failed_names(names: Seq<Seq<char>>, s: State) -> Seq<Seq<char>> {
    s.failures.map_values(|f: (int, Seq<char>)| names[f.0])
}

/// The contents of a list of pairs of strings.
pub open spec fn pair_texts(v: Seq<(String, String)>) -> Seq<(Seq<char>, Seq<char>)> {
    v.map_values(|p: (String, String)| (p.0@, p.1@))
}

/// Whether `r` says how a drained run ended: nothing where every node is
/// done, else the failed nodes with their errors and the unstarted ones.
pub open spec fn outcome_of(r: Result<(), FailedBuilds>, names: Seq<Seq<char>>, s: State) -> bool {
    let left = unstarted(names, s.done, failed_names(names, s), names.len() as int);
    if s.failures.len() == 0 && left.len() == 0 {
        r is Ok
    } else {
        &&& r is Err
        &&& pair_texts(r->Err_0.failed@) == s.failures.map_values(
            |f: (int, Seq<char>)| (names[f.0], f.1),
        )
        &&& texts(r->Err_0.skipped@) == left
    }
}

/// No name is left where every node is done, and only there as long as none
/// has failed.
proof fn lemma_unstarted(names: Seq<Seq<char>>, done: Seq<bool>, n: int)
    requires
        0 <= n <= done.len(),
    ensures
        unstarted(names, done, Seq::empty(), n).len() == 0 <==> forall|i: int|
            0 <= i < n ==> #[trigger] done[i],
    decreases n,
{
    if n > 0 {
        lemma_unstarted(names, done, n - 1);
    }
}

/// A run ends well exactly where every node is done.
pub proof fn law_success_is_everything_done(
    r: Result<(), FailedBuilds>,
    names: Seq<Seq<char>>,
    s: State,
)
    requires
        consistent(s, names.len() as int),
        outcome_of(r, names, s),
    ensures
        r is Ok <==> forall|i: int| 0 <= i < names.len() ==> #[trigger] s.done[i],
{
    if s.failures.len() == 0 {
        assert(failed_names(names, s) =~= Seq::empty());
        lemma_unstarted(names, s.done, names.len() as int);
    } else {
        assert(!s.done[s.failures[0].0]);
    }
}

impl Scheduler {
    /// How the run ended, once the pool is drained. Nodes that are left
    /// without any failure form a cycle, and are named as skipped.
    pub fn outcome(&self) -> (r: Result<(), FailedBuilds>)
        requires
            self.wf(),
        ensures
            outcome_of(r, self.names(), self@),
    {
        let ghost names = self.names();
        let ghost s = self@;
        let mut failed: Vec<(String, String)> = Vec::new();
        let mut bad: Vec<String> = Vec::new();
        let ghost expect = s.failures.map_values(|f: (int, Seq<char>)| (names[f.0], f.1));
        let mut k: usize = 0;
        while k < self.failures.len()
            invariant
                self.wf(),
                names == self.names(),
                s == self@,
                expect == s.failures.map_values(|f: (int, Seq<char>)| (names[f.0], f.1)),
                k <= self.failures.len(),
                pair_texts(failed@) == expect.take(k as int),
                texts(bad@) == failed_names(names, s).take(k as int),
            decreases self.failures.len() - k,
        {
            let i: usize = self.failures[k].0;
            assert(s.failures[k as int] == (i as int, self.failures@[k as int].1@));
            let ghost f0 = failed@;
            let ghost b0 = bad@;
            failed.push((self.names[i].clone(), self.failures[k].1.clone()));
            bad.push(self.names[i].clone());
            assert(pair_texts(failed@) =~= pair_texts(f0).push(expect[k as int]));
            assert(expect.take(k + 1) =~= expect.take(k as int).push(expect[k as int]));
            assert(texts(bad@) =~= texts(b0).push(names[i as int]));
            assert(failed_names(names, s).take(k + 1) =~= failed_names(names, s).take(
                k as int,
            ).push(names[i as int]));
            k += 1;
        }
        assert(expect.take(k as int) =~= expect);
        assert(failed_names(names, s).take(k as int) =~= failed_names(names, s));
        let mut skipped: Vec<String> = Vec::new();
        let mut i: usize = 0;
        while i < self.names.len()
            invariant
                self.wf(),
                names == self.names(),
                s == self@,
                i <= self.names.len(),
                texts(bad@) == failed_names(names, s),
                texts(skipped@) == unstarted(names, s.done, failed_names(names, s), i as int),
            decreases self.names.len() - i,
        {
            if !self.done[i] && !list_contains(&bad, self.names[i].as_str()) {
                let ghost before = skipped@;
                skipped.push(self.names[i].clone());
                assert(texts(skipped@) =~= texts(before).push(names[i as int]));
            }
            i += 1;
        }
        if failed.len() == 0 && skipped.len() == 0 {
            assert(texts(skipped@).len() == 0);
            return Ok(());
        }
        assert(texts(skipped@).len() == skipped@.len());
        Err(FailedBuilds { failed, skipped })
    }
}

// ── The pool ──

/// The number of workers for `nodes` nodes: at most `max_workers`, at most
/// one for each node, and at least one.
pub open spec fn pool_size(max_workers: int, nodes: int) -> int {
    if max_workers < 1 || nodes < 1 {
        1
    } else if max_workers < nodes {
        max_workers
    } else {
        nodes
    }
}

/// The number of workers for `nodes` nodes.
pub fn worker_count(max_workers: usize, nodes: usize) -> (r: usize)
    ensures
        r == pool_size(max_workers as int, nodes as int),
{
    let most: usize = if nodes < 1 {
        1
    } else {
        nodes
    };
    if max_workers < 1 {
        1
    } else if max_workers > most {
        most
    } else {
        max_workers
    }
}

/// What a worker that asks for a job is told where no more than `limit` jobs
/// may run at once, and the state it leaves.
pub open spec fn bounded_take(s: State, limit: int) -> (Step, State) {
    if !s.stop && s.running.len() >= limit {
        (Step::Wait, s)
    } else {
        taken(s)
    }
}

/// A scheduler that hands out no more jobs at once than it has workers.
pub struct Pool {
    scheduler: Scheduler,
    workers: usize,
}

impl Pool {
    /// The scheduler's state.
    pub closed spec fn state(&self) -> State {
        self.scheduler@
    }

    /// The names of the nodes, in declaration order.
    pub closed spec fn names(&self) -> Seq<Seq<char>> {
        self.scheduler.names()
    }

    /// How many jobs may run at once.
    pub closed spec fn limit(&self) -> int {
        self.workers as int
    }

    /// Well-formed: the scheduler is, there is a worker, and no more jobs run
    /// than there are workers.
    pub closed spec fn wf(&self) -> bool {
        &&& self.scheduler.wf()
        &&& self.limit() >= 1
        &&& self.state().running.len() <= self.limit()
    }

    /// Prepares the schedule of `graph` for at most `max_workers` jobs at once.
    /// The nodes named in `known` are done beforehand.
    pub fn new(graph: &Vec<(String, Vec<String>)>, known: &Vec<String>, max_workers: usize) -> (r:
        Pool)
        ensures
            r.wf(),
            r.names() == graph_names(graph@),
            r.limit() == pool_size(max_workers as int, graph@.len() as int),
            r.state() == initial(graph@, texts(known@)),
    {
        let scheduler = Scheduler::new(graph, known);
        proof {
            lemma_initial_running(graph@, texts(known@));
        }
        let workers = worker_count(max_workers, scheduler.len());
        Pool { scheduler, workers }
    }

    /// The number of workers.
    pub fn workers(&self) -> (r: usize)
        ensures
            r == self.limit(),
    {
        self.workers
    }

    /// The name of node `i`.
    pub fn name(&self, i: usize) -> (r: &String)
        requires
            i < self.names().len(),
        ensures
            r@ == self.names()[i as int],
    {
        self.scheduler.name(i)
    }

    /// What a worker that asks for a job is told.
    pub fn take(&mut self) -> (r: Step)
        requires
            old(self).wf(),
        ensures
            final(self).wf(),
            final(self).names() == old(self).names(),
            final(self).limit() == old(self).limit(),
            r == bounded_take(old(self).state(), old(self).limit()).0,
            final(self).state() == bounded_take(old(self).state(), old(self).limit()).1,
    {
        let (stopped, running) = self.scheduler.progress();
        if !stopped && running >= self.workers {
            return Step::Wait;
        }
        self.scheduler.take()
    }

    /// Reports that the job of node `i` ended.
    pub fn finish(&mut self, i: usize, outcome: Result<(), String>)
        requires
            old(self).wf(),
            old(self).state().running.contains(i as int),
        ensures
            final(self).wf(),
            final(self).names() == old(self).names(),
            final(self).limit() == old(self).limit(),
            final(self).state() == finished(old(self).state(), i as int, outcome_text(outcome)),
    {
        proof {
            law_workers_are_bounded(
                self.state(),
                i as int,
                outcome_text(outcome),
                self.limit(),
            );
        }
        self.scheduler.finish(i, outcome);
    }

    /// How the run ended, once the pool is drained.
    pub fn outcome(&self) -> (r: Result<(), FailedBuilds>)
        requires
            self.wf(),
        ensures
            outcome_of(r, self.names(), self.state()),
    {
        self.scheduler.outcome()
    }
}

impl Scheduler {
    /// Whether a failure has stopped the run, and how many jobs are running.
    pub fn progress(&self) -> (r: (bool, usize))
        ensures
            r.0 == self@.stop,
            r.1 == self@.running.len(),
    {
        (self.stop, self.running.len())
    }
}

proof fn lemma_release_running(s: State, ds: Seq<int>)
    ensures
        release(s, ds).running == s.running,
    decreases ds.len(),
{
    if ds.len() > 0 {
        lemma_release_running(s, ds.drop_last());
    }
}

proof fn lemma_known_running(g: Seq<(String, Vec<String>)>, known: Seq<Seq<char>>, n: int)
    ensures
        complete_known(g, known, n).running.len() == 0,
    decreases n,
{
    if n > 0 {
        lemma_known_running(g, known, n - 1);
        let before = complete_known(g, known, n - 1);
        lemma_release_running(
            State { done: before.done.update(n - 1, true), ..before },
            before.dependents[n - 1],
        );
    }
}

proof fn lemma_seed_running(s: State, n: int)
    ensures
        seed(s, n).running == s.running,
    decreases n,
{
    if n > 0 {
        lemma_seed_running(s, n - 1);
    }
}

/// Nothing runs at the start.
proof fn lemma_initial_running(g: Seq<(String, Vec<String>)>, known: Seq<Seq<char>>)
    ensures
        initial(g, known).running.len() == 0,
{
    lemma_known_running(g, known, g.len() as int);
    lemma_seed_running(complete_known(g, known, g.len() as int), g.len() as int);
}

/// Where no more jobs run than the limit allows, taking a job and finishing one
/// keep it so; the limit itself is never over `max_workers`, or one where that
/// is none; and at the start nothing runs.
pub proof fn law_workers_are_bounded(
    s: State,
    i: int,
    outcome: Result<(), Seq<char>>,
    limit: int,
)
    requires
        s.running.len() <= limit,
    ensures
        bounded_take(s, limit).1.running.len() <= limit,
        finished(s, i, outcome).running.len() <= limit,
        forall|max_workers: int, nodes: int| #[trigger]
            pool_size(max_workers, nodes) >= 1 && pool_size(max_workers, nodes) <= (
            if max_workers < 1 {
                1
            } else {
                max_workers
            }),
        forall|g: Seq<(String, Vec<String>)>, known: Seq<Seq<char>>|
            (#[trigger] initial(g, known)).running.len() == 0,
{
    lemma_without(s.running, i);
    let rest = State { running: without(s.running, i), ..s };
    lemma_release_running(
        State { done: rest.done.update(i, true), ..rest },
        rest.dependents[i],
    );
    assert forall|g: Seq<(String, Vec<String>)>, known: Seq<Seq<char>>|
        (#[trigger] initial(g, known)).running.len() == 0 by {
        lemma_initial_running(g, known);
    }
}

/// The limit holds nothing back for good: where nothing runs, a worker is told
/// what it would be told without a limit; it is sent away only where it would
/// be without one; and it waits only while a job is running.
pub proof fn law_limits_hold_nothing_back(s: State, max_workers: int, nodes: int)
    ensures
        s.running.len() == 0 ==> bounded_take(s, pool_size(max_workers, nodes)) == taken(s),
        bounded_take(s, pool_size(max_workers, nodes)).0 is Drained ==> taken(s).0 is Drained,
        bounded_take(s, pool_size(max_workers, nodes)).0 is Wait ==> s.running.len() > 0,
{
}

/// What is left of a run is every name whose node is neither done nor failed,
/// and nothing else.
pub proof fn law_unstarted_nodes_are_named(
    names: Seq<Seq<char>>,
    done: Seq<bool>,
    failed: Seq<Seq<char>>,
    n: int,
    x: Seq<char>,
)
    requires
        0 <= n <= names.len(),
    ensures
        unstarted(names, done, failed, n).contains(x) <==> exists|i: int|
            0 <= i < n && #[trigger] names[i] == x && !done[i] && !failed.contains(x),
    decreases n,
{
    if n > 0 {
        law_unstarted_nodes_are_named(names, done, failed, n - 1, x);
        let before = unstarted(names, done, failed, n - 1);
        let u = unstarted(names, done, failed, n);
        if u.contains(x) {
            let k = choose|k: int| 0 <= k < u.len() && u[k] == x;
            if k < before.len() {
                assert(before[k] == x);
            } else {
                assert(names[n - 1] == x);
            }
        }
        if exists|i: int|
            0 <= i < n && #[trigger] names[i] == x && !done[i] && !failed.contains(x) {
            let i = choose|i: int|
                0 <= i < n && #[trigger] names[i] == x && !done[i] && !failed.contains(x);
            if i == n - 1 {
                assert(u[before.len() as int] == x);
            } else {
                assert(before.contains(x));
                let k = choose|k: int| 0 <= k < before.len() && before[k] == x;
                assert(u[k] == x);
            }
        }
    }
}

/// A pool has at least one worker, never more than are allowed or than there
/// are nodes for, and no fewer than it could.
pub proof fn law_pools_are_as_large_as_useful(max_workers: int, nodes: int, w: int)
    ensures
        1 <= pool_size(max_workers, nodes),
        1 <= max_workers ==> pool_size(max_workers, nodes) <= max_workers,
        1 <= nodes ==> pool_size(max_workers, nodes) <= nodes,
        1 <= w <= max_workers && w <= nodes ==> w <= pool_size(max_workers, nodes),
{
}

} // verus!
