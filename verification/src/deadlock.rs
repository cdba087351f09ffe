//! Wait-for-graph deadlock detection.
//!
//! The graph is a list of waiter-to-holder edges. Detection searches for a
//! transaction that can reach itself; among all such transactions the
//! youngest (highest id) is the victim. Every loop carries a `decreases`
//! measure, so detection terminates on any finite graph.

use vstd::prelude::*;
use vstd::seq_lib::*;
use vstd::set_lib::lemma_len_subset;

verus! {

/// The model of one wait-for edge.
pub struct EdgeM {
    pub waiter: u64,
    pub holder: u64,
    pub table: Seq<char>,
}

/// One wait-for edge: `waiter` wants a lock on `table` that `holder` has.
#[derive(PartialEq, Eq, Debug)]
pub struct WaitEdge {
    pub waiter: u64,
    pub holder: u64,
    pub table: String,
}

impl DeepView for WaitEdge {
    type V = EdgeM;

    open spec fn deep_view(&self) -> EdgeM {
        EdgeM { waiter: self.waiter, holder: self.holder, table: self.table@ }
    }
}

/// Whether the graph has an edge from `a` to `b`.
pub open spec fn has_edge(es: Seq<EdgeM>, a: u64, b: u64) -> bool {
    exists|i: int| 0 <= i < es.len() && es[i].waiter == a && es[i].holder == b
}

/// Whether step `i` of `p` walks along an edge.
pub open spec fn path_step(es: Seq<EdgeM>, p: Seq<u64>, i: int) -> bool {
    has_edge(es, p[i], p[i + 1])
}

/// Whether `p` walks along edges of the graph.
pub open spec fn is_path(es: Seq<EdgeM>, p: Seq<u64>) -> bool {
    p.len() >= 1 && forall|i: int| 0 <= i < p.len() - 1 ==> #[trigger] path_step(es, p, i)
}

/// Whether `b` can be reached from `a` along at least one edge.
pub open spec fn reaches(es: Seq<EdgeM>, a: u64, b: u64) -> bool {
    exists|p: Seq<u64>| is_path(es, p) && p.len() >= 2 && p[0] == a && p.last() == b
}

/// Whether `n` lies on a cycle of the graph.
pub open spec fn on_cycle(es: Seq<EdgeM>, n: u64) -> bool {
    reaches(es, n, n)
}

/// Keeping every edge not incident to `tx`.
pub open spec fn not_incident(tx: u64) -> spec_fn(EdgeM) -> bool {
    |e: EdgeM| e.waiter != tx && e.holder != tx
}

/// Membership in a pushed sequence.
proof fn lemma_push_contains(s: Seq<u64>, x: u64, v: u64)
    ensures
        s.push(x).contains(v) <==> (s.contains(v) || v == x),
{
    if s.push(x).contains(v) {
        let j = choose|j: int| 0 <= j < s.push(x).len() && s.push(x)[j] == v;
        if j < s.len() {
            assert(s[j] == v);
        }
    }
    if s.contains(v) {
        let j = choose|j: int| 0 <= j < s.len() && s[j] == v;
        assert(s.push(x)[j] == v);
    }
    if v == x {
        assert(s.push(x)[s.len() as int] == v);
    }
}

/// The two-node walk along one edge is a path.
proof fn lemma_two_step(es: Seq<EdgeM>, a: u64, b: u64)
    requires
        has_edge(es, a, b),
    ensures
        reaches(es, a, b),
{
    let p = seq![a, b];
    assert(p.len() == 2 && p[0] == a && p.last() == b);
    assert forall|i: int| 0 <= i < p.len() - 1 implies #[trigger] path_step(es, p, i) by {
        assert(p[i] == a && p[i + 1] == b);
    }
    assert(is_path(es, p));
}

/// A path extended along an edge is still a path.
proof fn lemma_path_extend(es: Seq<EdgeM>, p: Seq<u64>, h: u64)
    requires
        is_path(es, p),
        has_edge(es, p.last(), h),
    ensures
        is_path(es, p.push(h)),
        p.push(h).last() == h,
        p.push(h)[0] == p[0],
        p.push(h).len() == p.len() + 1,
{
    let q = p.push(h);
    assert forall|i: int| 0 <= i < q.len() - 1 implies #[trigger] path_step(es, q, i) by {
        if i < p.len() - 1 {
            assert(path_step(es, p, i));
            assert(q[i] == p[i] && q[i + 1] == p[i + 1]);
        } else {
            assert(q[i] == p.last() && q[i + 1] == h);
        }
    }
}

/// A path starting at `start` cannot leave a set that contains all of
/// `start`'s successors and is closed under successors.
proof fn lemma_closed_set(es: Seq<EdgeM>, p: Seq<u64>, start: u64, c: Set<u64>)
    requires
        is_path(es, p),
        p.len() >= 2,
        p[0] == start,
        forall|b: u64| has_edge(es, start, b) ==> c.contains(b),
        forall|a: u64, b: u64| c.contains(a) && has_edge(es, a, b) ==> c.contains(b),
    ensures
        c.contains(p.last()),
    decreases p.len(),
{
    if p.len() == 2 {
        assert(path_step(es, p, 0));
        assert(has_edge(es, p[0], p[1]));
    } else {
        let q = p.drop_last();
        assert(is_path(es, q)) by {
            assert forall|i: int| 0 <= i < q.len() - 1 implies #[trigger] path_step(es, q, i) by {
                assert(path_step(es, p, i));
                assert(q[i] == p[i] && q[i + 1] == p[i + 1]);
            }
        }
        lemma_closed_set(es, q, start, c);
        assert(path_step(es, p, p.len() - 2));
        assert(has_edge(es, p[p.len() - 2], p[p.len() - 1]));
        assert(q.last() == p[p.len() - 2]);
    }
}

/// The holders named by the edges.
spec fn holders_of(es: Seq<EdgeM>) -> Seq<u64> {
    es.map_values(|e: EdgeM| e.holder)
}

fn vec_has_u64(v: &Vec<u64>, x: u64) -> (r: bool)
    ensures
        r == v@.contains(x),
{
    let n = v.len();
    let mut i: usize = 0;
    while i < n
        invariant
            n == v.len(),
            i <= n,
            forall|j: int| 0 <= j < i ==> v@[j] != x,
        decreases n - i,
    {
        if v[i] == x {
            return true;
        }
        i = i + 1;
    }
    false
}

/// A distinct list of holders cannot outnumber the edges.
proof fn lemma_visited_bound(es: Seq<EdgeM>, visited: Seq<u64>)
    requires
        visited.no_duplicates(),
        forall|v: u64| visited.contains(v) ==> holders_of(es).contains(v),
    ensures
        visited.len() <= es.len(),
{
    broadcast use vstd::set::group_set_axioms, seq_to_set_is_finite;

    visited.unique_seq_to_set();
    holders_of(es).lemma_cardinality_of_set();
    assert(visited.to_set().subset_of(holders_of(es).to_set())) by {
        assert forall|v: u64| visited.to_set().contains(v) implies holders_of(
            es,
        ).to_set().contains(v) by {
            assert(visited.contains(v));
            assert(holders_of(es).contains(v));
        }
    }
    lemma_len_subset(visited.to_set(), holders_of(es).to_set());
    assert(holders_of(es).len() == es.len());
}

/// Breadth-first search: whether `target` is reachable from `start` along
/// at least one edge.
fn reachable_from(edges: &Vec<WaitEdge>, start: u64, target: u64) -> (r: bool)
    ensures
        r == reaches(edges.deep_view(), start, target),
{
    let ghost es = edges.deep_view();
    let mut visited: Vec<u64> = Vec::new();
    let mut stack: Vec<u64> = Vec::new();
    let n = edges.len();
    let mut i: usize = 0;
    while i < n
        invariant
            n == edges.len(),
            es == edges.deep_view(),
            i <= n,
            visited@ =~= stack@,
            visited@.no_duplicates(),
            forall|v: u64| #[trigger]
                visited@.contains(v) ==> v != target && holders_of(es).contains(v) && reaches(
                    es,
                    start,
                    v,
                ),
            forall|j: int|
                0 <= j < i && es[j].waiter == start ==> visited@.contains(#[trigger] es[j].holder),
        decreases n - i,
    {
        if edges[i].waiter == start {
            let h = edges[i].holder;
            proof {
                assert(es[i as int].waiter == start && es[i as int].holder == h);
                assert(has_edge(es, start, h));
                assert(holders_of(es)[i as int] == h);
                assert(holders_of(es).contains(h));
                lemma_two_step(es, start, h);
            }
            if h == target {
                return true;
            }
            if !vec_has_u64(&visited, h) {
                let ghost v0 = visited@;
                let ghost s0 = stack@;
                visited.push(h);
                stack.push(h);
                proof {
                    assert(visited@ == v0.push(h));
                    assert(stack@ == s0.push(h));
                    assert forall|v: u64| #[trigger]
                        visited@.contains(v) implies v != target && holders_of(es).contains(v)
                        && reaches(es, start, v) by {
                        lemma_push_contains(v0, h, v);
                    }
                    assert(visited@.no_duplicates()) by {
                        lemma_push_contains(v0, h, h);
                        assert forall|a: int, b: int|
                            0 <= a < b < visited@.len() implies visited@[a] != visited@[b] by {
                            if b < v0.len() {
                            } else {
                                if visited@[a] == h {
                                    assert(v0[a] == h);
                                    assert(v0.contains(h));
                                }
                            }
                        }
                    }
                    assert forall|j: int|
                        0 <= j < i + 1 && es[j].waiter == start implies visited@.contains(
                        #[trigger] es[j].holder,
                    ) by {
                        lemma_push_contains(v0, h, es[j].holder);
                    }
                }
            } else {
                proof {
                    assert forall|j: int|
                        0 <= j < i + 1 && es[j].waiter == start implies visited@.contains(
                        #[trigger] es[j].holder,
                    ) by {}
                }
            }
        }
        i = i + 1;
    }
    proof {
        lemma_visited_bound(es, visited@);
    }
    while stack.len() > 0
        invariant
            es == edges.deep_view(),
            visited@.no_duplicates(),
            stack@.no_duplicates(),
            visited@.len() <= es.len(),
            forall|v: u64| #[trigger] stack@.contains(v) ==> visited@.contains(v),
            forall|v: u64| #[trigger]
                visited@.contains(v) ==> v != target && holders_of(es).contains(v) && reaches(
                    es,
                    start,
                    v,
                ),
            forall|b: u64| has_edge(es, start, b) ==> visited@.contains(b),
            forall|v: u64, b: u64|
                #![trigger visited@.contains(v), has_edge(es, v, b)]
                visited@.contains(v) && !stack@.contains(v) && has_edge(es, v, b)
                    ==> visited@.contains(b),
        decreases es.len() + 1 - visited@.len(), stack@.len(),
    {
        let ghost stack0 = stack@;
        let ghost visited_at_pop = visited@;
        let x = match stack.pop() {
            Some(x) => x,
            None => {
                proof {
                    assert(false);
                }
                return false;
            },
        };
        proof {
            assert(stack0.last() == x);
            assert(stack0.contains(x));
            assert(stack@ =~= stack0.drop_last());
            assert(visited@.contains(x));
            assert(!stack@.contains(x)) by {
                if stack@.contains(x) {
                    let j = choose|j: int| 0 <= j < stack@.len() && stack@[j] == x;
                    assert(stack0[j] == x && stack0[stack0.len() - 1] == x);
                }
            }
            assert(stack@.no_duplicates()) by {
                assert forall|a: int, b: int|
                    0 <= a < b < stack@.len() implies stack@[a] != stack@[b] by {
                    assert(stack0[a] == stack@[a] && stack0[b] == stack@[b]);
                }
            }
            assert forall|v: u64| #[trigger] stack@.contains(v) implies visited@.contains(v) by {
                let j = choose|j: int| 0 <= j < stack@.len() && stack@[j] == v;
                assert(stack0[j] == v);
                assert(stack0.contains(v));
            }
            assert forall|v: u64, b: u64|
                #![trigger visited@.contains(v), has_edge(es, v, b)]
                visited@.contains(v) && !stack@.contains(v) && v != x && has_edge(es, v, b)
                    implies visited@.contains(b) by {
                assert(!stack0.contains(v)) by {
                    if stack0.contains(v) {
                        let q = choose|q: int| 0 <= q < stack0.len() && stack0[q] == v;
                        if q == stack0.len() - 1 {
                            assert(v == x);
                        } else {
                            assert(stack@[q] == v);
                        }
                    }
                }
            }
        }
        let m = edges.len();
        let mut j: usize = 0;
        while j < m
            invariant
                m == edges.len(),
                es == edges.deep_view(),
                j <= m,
                visited@.no_duplicates(),
                stack@.no_duplicates(),
                visited@.len() <= es.len(),
                visited@.contains(x),
                !stack@.contains(x),
                forall|v: u64| #[trigger] stack@.contains(v) ==> visited@.contains(v),
                forall|v: u64| #[trigger]
                    visited@.contains(v) ==> v != target && holders_of(es).contains(v) && reaches(
                        es,
                        start,
                        v,
                    ),
                forall|b: u64| has_edge(es, start, b) ==> visited@.contains(b),
                forall|v: u64, b: u64|
                    #![trigger visited@.contains(v), has_edge(es, v, b)]
                    visited@.contains(v) && !stack@.contains(v) && v != x && has_edge(es, v, b)
                        ==> visited@.contains(b),
                forall|q: int|
                    0 <= q < j && es[q].waiter == x ==> visited@.contains(#[trigger] es[q].holder),
                visited_at_pop.len() <= visited@.len(),
                stack@.len() <= stack0.len() - 1 + (visited@.len() - visited_at_pop.len()),
            decreases m - j,
        {
            if edges[j].waiter == x {
                let h = edges[j].holder;
                proof {
                    assert(es[j as int].waiter == x && es[j as int].holder == h);
                    assert(has_edge(es, x, h));
                    assert(holders_of(es)[j as int] == h);
                    assert(holders_of(es).contains(h));
                    assert(reaches(es, start, x));
                    let p = choose|p: Seq<u64>|
                        is_path(es, p) && p.len() >= 2 && p[0] == start && p.last() == x;
                    lemma_path_extend(es, p, h);
                    assert(reaches(es, start, h));
                }
                if h == target {
                    return true;
                }
                if !vec_has_u64(&visited, h) {
                    let ghost v0 = visited@;
                    let ghost s0 = stack@;
                    visited.push(h);
                    stack.push(h);
                    proof {
                        assert(visited@ == v0.push(h));
                        assert(stack@ == s0.push(h));
                        assert forall|v: u64| #[trigger]
                            visited@.contains(v) implies v != target && holders_of(
                            es,
                        ).contains(v) && reaches(es, start, v) by {
                            lemma_push_contains(v0, h, v);
                        }
                        assert(visited@.no_duplicates()) by {
                            assert forall|a: int, b: int|
                                0 <= a < b < visited@.len() implies visited@[a] != visited@[b] by {
                                if b < v0.len() {
                                } else {
                                    if visited@[a] == h {
                                        assert(v0[a] == h);
                                        assert(v0.contains(h));
                                    }
                                }
                            }
                        }
                        assert(stack@.no_duplicates()) by {
                            assert(!s0.contains(h));
                            assert forall|a: int, b: int|
                                0 <= a < b < stack@.len() implies stack@[a] != stack@[b] by {
                                if b < s0.len() {
                                } else {
                                    if stack@[a] == h {
                                        assert(s0[a] == h);
                                        assert(s0.contains(h));
                                    }
                                }
                            }
                        }
                        assert forall|v: u64| #[trigger]
                            stack@.contains(v) implies visited@.contains(v) by {
                            lemma_push_contains(s0, h, v);
                            lemma_push_contains(v0, h, v);
                        }
                        assert(!stack@.contains(x)) by {
                            lemma_push_contains(s0, h, x);
                        }
                        assert(visited@.contains(x)) by {
                            lemma_push_contains(v0, h, x);
                        }
                        assert forall|v: u64, b: u64|
                            #![trigger visited@.contains(v), has_edge(es, v, b)]
                            visited@.contains(v) && !stack@.contains(v) && v != x && has_edge(
                                es,
                                v,
                                b,
                            ) implies visited@.contains(b) by {
                            lemma_push_contains(v0, h, v);
                            lemma_push_contains(s0, h, v);
                            lemma_push_contains(v0, h, b);
                            if v != h {
                                assert(v0.contains(v) && !s0.contains(v));
                            }
                        }
                        assert forall|q: int|
                            0 <= q < j + 1 && es[q].waiter == x implies visited@.contains(
                            #[trigger] es[q].holder,
                        ) by {
                            lemma_push_contains(v0, h, es[q].holder);
                        }
                        assert forall|b: u64| has_edge(es, start, b) implies visited@.contains(
                            b,
                        ) by {
                            lemma_push_contains(v0, h, b);
                        }
                        lemma_visited_bound(es, visited@);
                    }
                }
            }
            j = j + 1;
        }
        proof {
            assert forall|v: u64, b: u64|
                #![trigger visited@.contains(v), has_edge(es, v, b)]
                visited@.contains(v) && !stack@.contains(v) && has_edge(es, v, b)
                    implies visited@.contains(b) by {
                if v == x {
                    let q = choose|q: int|
                        0 <= q < es.len() && es[q].waiter == x && es[q].holder == b;
                    assert(visited@.contains(es[q].holder));
                }
            }
            if visited@.len() == visited_at_pop.len() {
                assert(stack@.len() < stack0.len());
            }
        }
    }
    proof {
        if reaches(es, start, target) {
            broadcast use vstd::set::group_set_axioms, seq_to_set_is_finite;

            let p = choose|p: Seq<u64>|
                is_path(es, p) && p.len() >= 2 && p[0] == start && p.last() == target;
            let c = visited@.to_set();
            assert forall|b: u64| has_edge(es, start, b) implies c.contains(b) by {
                assert(visited@.contains(b));
            }
            assert forall|a: u64, b: u64| c.contains(a) && has_edge(es, a, b) implies c.contains(
                b,
            ) by {
                assert(visited@.contains(a));
                assert(!stack@.contains(a));
                assert(visited@.contains(b));
            }
            lemma_closed_set(es, p, start, c);
            assert(visited@.contains(target));
            assert(false);
        }
    }
    false
}

/// The wait-for graph.
pub struct DeadlockDetector {
    edges: Vec<WaitEdge>,
}

impl View for DeadlockDetector {
    type V = Seq<EdgeM>;

    closed spec fn view(&self) -> Seq<EdgeM> {
        self.edges.deep_view()
    }
}

impl DeadlockDetector {
    /// An empty graph.
    pub fn new() -> (r: Self)
        ensures
            r@ == Seq::<EdgeM>::empty(),
    {
        let r = DeadlockDetector { edges: Vec::new() };
        proof {
            assert(r@ =~= Seq::<EdgeM>::empty());
        }
        r
    }

    /// Records that `waiter` waits for `holder` on `table`.
    pub fn add_wait(&mut self, waiter: u64, holder: u64, table: String)
        ensures
            final(self)@ == old(self)@.push(EdgeM { waiter, holder, table: table@ }),
    {
        let e = WaitEdge { waiter, holder, table };
        let ghost em = e.deep_view();
        self.edges.push(e);
        proof {
            assert(self@ =~= old(self)@.push(em));
        }
    }

    /// Forgets every edge incident to `tx_id`.
    pub fn remove_transaction(&mut self, tx_id: u64)
        ensures
            final(self)@ == old(self)@.filter(not_incident(tx_id)),
    {
        let ghost es0 = self@;
        let mut out: Vec<WaitEdge> = Vec::new();
        let n = self.edges.len();
        let mut i: usize = 0;
        while i < n
            invariant
                n == self.edges.len(),
                es0 == self.edges.deep_view(),
                i <= n,
                out.deep_view() == es0.take(i as int).filter(not_incident(tx_id)),
            decreases n - i,
        {
            proof {
                reveal(Seq::filter);
                assert(es0.take(i as int + 1).drop_last() =~= es0.take(i as int));
                assert(es0.take(i as int + 1).last() == es0[i as int]);
            }
            let e = &self.edges[i];
            if e.waiter != tx_id && e.holder != tx_id {
                let ghost prev = out.deep_view();
                out.push(WaitEdge { waiter: e.waiter, holder: e.holder, table: e.table.clone() });
                proof {
                    assert(out.deep_view() =~= prev.push(es0[i as int]));
                }
            }
            i = i + 1;
        }
        proof {
            assert(es0.take(n as int) =~= es0);
        }
        self.edges = out;
    }

    /// Searches the graph for a cycle; when one exists, answers the
    /// youngest transaction (highest id) lying on any cycle.
    pub fn detect_deadlock(&self) -> (r: Option<u64>)
        ensures
            match r {
                Some(v) => on_cycle(self@, v) && forall|n: u64| on_cycle(self@, n) ==> n <= v,
                None => forall|n: u64| !on_cycle(self@, n),
            },
    {
        let ghost es = self@;
        let n = self.edges.len();
        let mut best: Option<u64> = None;
        let mut i: usize = 0;
        while i < n
            invariant
                n == self.edges.len(),
                es == self.edges.deep_view(),
                i <= n,
                match best {
                    Some(v) => on_cycle(es, v) && forall|m: u64|
                        on_cycle(es, m) && (exists|j: int| 0 <= j < i && es[j].waiter == m) ==> m
                            <= v,
                    None => forall|m: u64|
                        !(on_cycle(es, m) && (exists|j: int| 0 <= j < i && es[j].waiter == m)),
                },
            decreases n - i,
        {
            let w = self.edges[i].waiter;
            proof {
                assert(es[i as int].waiter == w);
            }
            if reachable_from(&self.edges, w, w) {
                match best {
                    Some(v) => {
                        if w > v {
                            best = Some(w);
                        }
                    },
                    None => {
                        best = Some(w);
                    },
                }
            }
            i = i + 1;
        }
        proof {
            assert forall|m: u64| on_cycle(es, m) implies (exists|j: int|
                0 <= j < n && es[j].waiter == m) by {
                let p = choose|p: Seq<u64>|
                    is_path(es, p) && p.len() >= 2 && p[0] == m && p.last() == m;
                assert(path_step(es, p, 0));
                assert(has_edge(es, p[0], p[1]));
                let j = choose|j: int|
                    0 <= j < es.len() && es[j].waiter == m && es[j].holder == p[1];
                assert(es[j].waiter == m);
            }
        }
        best
    }
}

} // verus!
