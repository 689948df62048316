//! The path finder: breadth-first search over the graph with
//! parent-pointer path reconstruction.
//!
//! [`find_path`] returns the steps of a fewest-hops route between two node
//! identifiers. Its contract pins down the three cases the caller can see:
//! a trivial query (`start == end`) yields no steps, an unreachable end
//! yields no steps, and a reachable end yields the steps of a route whose
//! hop count no other route undercuts.

use vstd::prelude::*;

use crate::store::{contains_id, find_conn_index, find_index, graph_wf, has_edge};
use crate::types::{Connection, Node, Step};

verus! {

/// `p` is a walk through `g`: every consecutive pair of identifiers is
/// joined by a declared connection.
pub open spec fn is_route(g: Seq<Node>, p: Seq<usize>) -> bool {
    p.len() >= 1 && (forall|i: int|
        0 <= i < p.len() - 1 ==> #[trigger] has_edge(g, p[i], p[i + 1]))
}

/// `p` is a walk through `g` that starts at `s` and ends at `e`.
pub open spec fn connects(g: Seq<Node>, p: Seq<usize>, s: usize, e: usize) -> bool {
    is_route(g, p) && p[0] == s && p[p.len() - 1] == e
}

/// Some walk through `g` leads from `s` to `e`. Every identifier trivially
/// reaches itself by the one-element walk.
pub open spec fn reachable(g: Seq<Node>, s: usize, e: usize) -> bool {
    exists|p: Seq<usize>| connects(g, p, s, e)
}

/// `st` is the step the path construction emits for the hop from `a` to
/// `b`: the names are copied from the nodes carrying those identifiers,
/// direction and distance from the first connection of `a`'s node whose
/// target is `b`.
pub open spec fn step_matches(g: Seq<Node>, a: usize, b: usize, st: Step) -> bool {
    exists|i: int, ib: int, j: int|
        0 <= i < g.len() && (#[trigger] g[i]).id == a && 0 <= ib < g.len() && (
        #[trigger] g[ib]).id == b && 0 <= j < g[i].connections@.len()
            && (#[trigger] g[i].connections@[j]).to == b && (forall|k: int|
            0 <= k < j ==> (#[trigger] g[i].connections@[k]).to != b) && st.from == g[i].name
            && st.to == g[ib].name && st.direction == g[i].connections@[j].direction
            && st.distance == g[i].connections@[j].distance
}

/// `steps` spells out the route `ids` hop by hop, and no route between the
/// same endpoints has fewer hops.
pub open spec fn shortest_route_steps(
    g: Seq<Node>,
    start: usize,
    end: usize,
    ids: Seq<usize>,
    steps: Seq<Step>,
) -> bool {
    &&& connects(g, ids, start, end)
    &&& ids.len() == steps.len() + 1
    &&& forall|t: int| 0 <= t < steps.len() ==> step_matches(g, ids[t], ids[t + 1], #[trigger] steps[t])
    &&& forall|p: Seq<usize>| #[trigger] connects(g, p, start, end) ==> p.len() >= ids.len()
}

/// Everything [`find_path`] promises about the shape of its result.
pub open spec fn path_result(g: Seq<Node>, start: usize, end: usize, steps: Seq<Step>) -> bool {
    &&& start == end ==> steps.len() == 0
    &&& !reachable(g, start, end) ==> steps.len() == 0
    &&& reachable(g, start, end) ==> exists|ids: Seq<usize>|
        shortest_route_steps(g, start, end, ids, steps)
}

/// Index of the first node of `g` carrying `id`; `g.len()` when none does.
pub open spec fn first_idx(g: Seq<Node>, id: usize) -> int
    decreases g.len(),
{
    if g.len() == 0 {
        0
    } else if g[0].id == id {
        0
    } else {
        1 + first_idx(g.drop_first(), id)
    }
}

/// Index of the first connection of `conns` whose target is `to`;
/// `conns.len()` when none is.
pub open spec fn first_conn_idx(conns: Seq<Connection>, to: usize) -> int
    decreases conns.len(),
{
    if conns.len() == 0 {
        0
    } else if conns[0].to == to {
        0
    } else {
        1 + first_conn_idx(conns.drop_first(), to)
    }
}

/// The parent recorded for `key`: the value of the first entry carrying
/// that key.
pub open spec fn assoc_first(par: Seq<(usize, usize)>, key: usize) -> Option<usize>
    decreases par.len(),
{
    if par.len() == 0 {
        None
    } else if par[0].0 == key {
        Some(par[0].1)
    } else {
        assoc_first(par.drop_first(), key)
    }
}

/// Discovery of one identifier's connections, in declaration order: every
/// target not yet on the queue is appended to it, together with its
/// parent entry.
pub open spec fn push_unseen(
    q: Seq<usize>,
    par: Seq<(usize, usize)>,
    u: usize,
    conns: Seq<Connection>,
) -> (Seq<usize>, Seq<(usize, usize)>)
    decreases conns.len(),
{
    if conns.len() == 0 {
        (q, par)
    } else {
        let (q1, par1) = push_unseen(q, par, u, conns.drop_last());
        let c = conns.last();
        if q1.contains(c.to) {
            (q1, par1)
        } else {
            (q1.push(c.to), par1.push((c.to, u)))
        }
    }
}

/// The search loop as a function of its state: the head of the queue is
/// popped and its connections discovered, until `end` reaches the head or
/// the queue drains. `fuel` bounds the recursion; one unit per processed
/// identifier is enough for any state the search can reach.
pub open spec fn bfs_loop(
    g: Seq<Node>,
    q: Seq<usize>,
    par: Seq<(usize, usize)>,
    head: int,
    end: usize,
    fuel: nat,
) -> (Seq<usize>, Seq<(usize, usize)>, int)
    decreases fuel,
{
    if head >= q.len() || q[head] == end || fuel == 0 {
        (q, par, head)
    } else {
        let u = q[head];
        let step = push_unseen(q, par, u, g[first_idx(g, u)].connections@);
        bfs_loop(g, step.0, step.1, head + 1, end, (fuel - 1) as nat)
    }
}

/// The parent-chain walk from `cur`, child before parent. `fuel` bounds
/// the recursion; the chain any search run records is strictly shallower.
pub open spec fn walk_parents(par: Seq<(usize, usize)>, cur: usize, fuel: nat) -> Seq<usize>
    decreases fuel,
{
    if fuel == 0 {
        seq![cur]
    } else {
        match assoc_first(par, cur) {
            None => seq![cur],
            Some(p) => seq![cur] + walk_parents(par, p, (fuel - 1) as nat),
        }
    }
}

/// The step sequence spelling out the route `ids` hop by hop.
pub open spec fn steps_of(g: Seq<Node>, ids: Seq<usize>) -> Seq<Step> {
    if ids.len() == 0 {
        Seq::empty()
    } else {
        Seq::new((ids.len() - 1) as nat, |t: int| spec_step_of(g, ids[t], ids[t + 1]))
    }
}

/// The step emitted for the hop from `a` to `b`, built from the first
/// node carrying each identifier and the first matching connection.
pub open spec fn spec_step_of(g: Seq<Node>, a: usize, b: usize) -> Step {
    let ia = first_idx(g, a);
    let ib = first_idx(g, b);
    let cs = g[ia].connections@;
    let j = first_conn_idx(cs, b);
    Step { from: g[ia].name, to: g[ib].name, direction: cs[j].direction, distance: cs[j].distance }
}

/// The value [`find_path`] returns, as a function of the graph and the
/// endpoints alone: the search, the walk back through the recorded
/// parents, and the step construction. That the result is a function of
/// the inputs makes repeated queries yield identical output.
pub open spec fn spec_find_path(g: Seq<Node>, start: usize, end: usize) -> Seq<Step> {
    let run = bfs_loop(g, seq![start], Seq::<(usize, usize)>::empty(), 0, end, g.len());
    if run.2 < run.0.len() {
        steps_of(g, walk_parents(run.1, end, g.len()).reverse())
    } else {
        Seq::empty()
    }
}

/// Determinism: [`find_path`]'s contract pins its result to
/// [`spec_find_path`], a function of the graph and the endpoints alone,
/// so two results for the same query are identical.
pub proof fn lemma_find_path_deterministic(
    g: Seq<Node>,
    s: usize,
    e: usize,
    r1: Seq<Step>,
    r2: Seq<Step>,
)
    requires
        r1 == spec_find_path(g, s, e),
        r2 == spec_find_path(g, s, e),
    ensures
        r1 == r2,
{
}

/// A first occurrence at index `i` fixes [`first_idx`].
proof fn lemma_first_idx_is(g: Seq<Node>, id: usize, i: int)
    requires
        0 <= i < g.len(),
        g[i].id == id,
        forall|k: int| 0 <= k < i ==> (#[trigger] g[k]).id != id,
    ensures
        first_idx(g, id) == i,
    decreases g.len(),
{
    if g[0].id == id {
        assert(i == 0);
    } else {
        let gg = g.drop_first();
        assert(gg[i - 1] == g[i]);
        assert forall|k: int| 0 <= k < i - 1 implies (#[trigger] gg[k]).id != id by {
            assert(gg[k] == g[k + 1]);
        }
        lemma_first_idx_is(gg, id, i - 1);
    }
}

/// A first occurrence at index `j` fixes [`first_conn_idx`].
proof fn lemma_first_conn_idx_is(conns: Seq<Connection>, to: usize, j: int)
    requires
        0 <= j < conns.len(),
        conns[j].to == to,
        forall|k: int| 0 <= k < j ==> (#[trigger] conns[k]).to != to,
    ensures
        first_conn_idx(conns, to) == j,
    decreases conns.len(),
{
    if conns[0].to == to {
        assert(j == 0);
    } else {
        let cc = conns.drop_first();
        assert(cc[j - 1] == conns[j]);
        assert forall|k: int| 0 <= k < j - 1 implies (#[trigger] cc[k]).to != to by {
            assert(cc[k] == conns[k + 1]);
        }
        lemma_first_conn_idx_is(cc, to, j - 1);
    }
}

/// A first entry at index `i` fixes [`assoc_first`].
proof fn lemma_assoc_first_is_some(par: Seq<(usize, usize)>, key: usize, i: int)
    requires
        0 <= i < par.len(),
        par[i].0 == key,
        forall|k: int| 0 <= k < i ==> (#[trigger] par[k]).0 != key,
    ensures
        assoc_first(par, key) == Some(par[i].1),
    decreases par.len(),
{
    if par[0].0 == key {
        assert(i == 0);
    } else {
        let pp = par.drop_first();
        assert(pp[i - 1] == par[i]);
        assert forall|k: int| 0 <= k < i - 1 implies (#[trigger] pp[k]).0 != key by {
            assert(pp[k] == par[k + 1]);
        }
        lemma_assoc_first_is_some(pp, key, i - 1);
    }
}

/// Without an entry for `key` there is nothing for [`assoc_first`] to
/// find.
proof fn lemma_assoc_first_is_none(par: Seq<(usize, usize)>, key: usize)
    requires
        forall|k: int| 0 <= k < par.len() ==> (#[trigger] par[k]).0 != key,
    ensures
        assoc_first(par, key) is None,
    decreases par.len(),
{
    if par.len() > 0 {
        let pp = par.drop_first();
        assert forall|k: int| 0 <= k < pp.len() implies (#[trigger] pp[k]).0 != key by {
            assert(pp[k] == par[k + 1]);
        }
        lemma_assoc_first_is_none(pp, key);
    }
}

/// A duplicate-free sequence whose elements all occur in `q` is no longer
/// than `q`.
proof fn lemma_distinct_within(q: Seq<usize>, p: Seq<usize>)
    requires
        p.no_duplicates(),
        forall|t: int| 0 <= t < p.len() ==> q.contains(#[trigger] p[t]),
    ensures
        p.len() <= q.len(),
{
    broadcast use vstd::seq_lib::seq_to_set_is_finite;

    assert forall|x: usize| p.to_set().contains(x) implies q.to_set().contains(x) by {
        assert(p.contains(x));
        let t: int = choose|t: int| 0 <= t < p.len() && p[t] == x;
        assert(q.contains(p[t]));
    }
    assert(p.to_set().subset_of(q.to_set()));
    p.unique_seq_to_set();
    q.lemma_cardinality_of_set();
    vstd::set_lib::lemma_len_subset(p.to_set(), q.to_set());
}

/// The hop count of an answer is determined by the query alone: any two
/// step sequences that satisfy the path finder's contract for the same
/// graph and endpoints have the same length.
pub proof fn lemma_path_result_len_determined(
    g: Seq<Node>,
    s: usize,
    e: usize,
    st1: Seq<Step>,
    st2: Seq<Step>,
)
    requires
        path_result(g, s, e, st1),
        path_result(g, s, e, st2),
    ensures
        st1.len() == st2.len(),
{
    if reachable(g, s, e) {
        let ids1 = choose|ids: Seq<usize>| shortest_route_steps(g, s, e, ids, st1);
        let ids2 = choose|ids: Seq<usize>| shortest_route_steps(g, s, e, ids, st2);
        assert(connects(g, ids1, s, e));
        assert(connects(g, ids2, s, e));
        assert(ids1.len() >= ids2.len());
        assert(ids2.len() >= ids1.len());
    }
}

/// One recorded parent entry `(child, parent)` is consistent with the
/// search state: both ends were discovered, the child was first reached
/// over a declared connection from the parent, one layer deeper.
spec fn par_entry_ok(
    g: Seq<Node>,
    q: Seq<usize>,
    dep: Map<usize, int>,
    start: usize,
    e: (usize, usize),
) -> bool {
    &&& q.contains(e.0)
    &&& q.contains(e.1)
    &&& e.0 != start
    &&& has_edge(g, e.1, e.0)
    &&& dep.contains_key(e.0)
    &&& dep.contains_key(e.1)
    &&& dep[e.0] == dep[e.1] + 1
}

/// The parent list holds an entry for child `c`.
spec fn in_par(par: Seq<(usize, usize)>, c: usize) -> bool {
    exists|k: int| 0 <= k < par.len() && (#[trigger] par[k]).0 == c
}

/// A position on a walk whose tail has left the discovered set: the walk
/// crosses from a discovered but still pending identifier to an
/// undiscovered one.
spec fn frontier_point(q: Seq<usize>, head: int, p: Seq<usize>, m: int) -> bool {
    &&& 1 <= m < p.len()
    &&& q.contains(p[m - 1])
    &&& forall|i: int| 0 <= i < head ==> (#[trigger] q[i]) != p[m - 1]
    &&& !q.contains(p[m])
}

/// On any walk that starts inside the discovered set and ends outside it,
/// some hop leaves the set, and the identifier it leaves from has not been
/// processed yet (all processed identifiers have every neighbour
/// discovered).
proof fn lemma_route_frontier(g: Seq<Node>, q: Seq<usize>, head: int, p: Seq<usize>)
    requires
        0 <= head <= q.len(),
        is_route(g, p),
        q.contains(p[0]),
        !q.contains(p[p.len() - 1]),
        forall|i: int, b: usize| #![trigger has_edge(g, q[i], b)]
            0 <= i < head && has_edge(g, q[i], b) ==> q.contains(b),
    ensures
        exists|m: int| frontier_point(q, head, p, m),
    decreases p.len(),
{
    let n: int = p.len() as int;
    assert(n >= 2) by {
        if n == 1 {
            assert(p[0] == p[n - 1]);
        }
    }
    if q.contains(p[n - 2]) {
        if exists|i: int| 0 <= i < head && #[trigger] q[i] == p[n - 2] {
            let i0: int = choose|i0: int| 0 <= i0 < head && #[trigger] q[i0] == p[n - 2];
            let t: int = n - 2;
            assert(has_edge(g, p[t], p[t + 1]));
            assert(has_edge(g, p[n - 2], p[n - 1]));
            assert(has_edge(g, q[i0], p[n - 1]));
            assert(q.contains(p[n - 1]));
            assert(false);
        }
        assert(frontier_point(q, head, p, n - 1)) by {
            assert forall|i: int| 0 <= i < head implies (#[trigger] q[i]) != p[n - 2] by {
                if q[i] == p[n - 2] {
                    assert(exists|i2: int| 0 <= i2 < head && #[trigger] q[i2] == p[n - 2]);
                }
            }
        }
    } else {
        let pp = p.subrange(0, n - 1);
        assert(is_route(g, pp)) by {
            assert forall|t: int| 0 <= t < pp.len() - 1 implies #[trigger] has_edge(
                g,
                pp[t],
                pp[t + 1],
            ) by {
                assert(pp[t] == p[t]);
                assert(pp[t + 1] == p[t + 1]);
                assert(has_edge(g, p[t], p[t + 1]));
            }
        }
        assert(pp[0] == p[0]);
        assert(pp[pp.len() - 1] == p[n - 2]);
        lemma_route_frontier(g, q, head, pp);
        let m0: int = choose|m0: int| frontier_point(q, head, pp, m0);
        assert(pp[m0 - 1] == p[m0 - 1]);
        assert(pp[m0] == p[m0]);
        assert(frontier_point(q, head, p, m0));
    }
}

/// A duplicate-free sequence of identifiers that all occur in the graph is
/// no longer than the graph itself.
proof fn lemma_queue_bound(g: Seq<Node>, q: Seq<usize>)
    requires
        q.no_duplicates(),
        forall|i: int| 0 <= i < q.len() ==> contains_id(g, #[trigger] q[i]),
    ensures
        q.len() <= g.len(),
{
    broadcast use vstd::seq_lib::seq_to_set_is_finite;

    let ids = g.map_values(|n: Node| n.id);
    assert forall|x: usize| q.to_set().contains(x) implies ids.to_set().contains(x) by {
        assert(q.contains(x));
        let qi: int = choose|qi: int| 0 <= qi < q.len() && q[qi] == x;
        assert(contains_id(g, q[qi]));
        let i: int = choose|i: int| 0 <= i < g.len() && (#[trigger] g[i]).id == x;
        assert(ids[i] == x);
        assert(ids.contains(x));
    }
    assert(q.to_set().subset_of(ids.to_set()));
    q.unique_seq_to_set();
    ids.lemma_cardinality_of_set();
    vstd::set_lib::lemma_len_subset(q.to_set(), ids.to_set());
}

/// True iff `x` was already pushed onto the discovery queue.
fn id_seen(q: &Vec<usize>, x: usize) -> (r: bool)
    ensures
        r == q@.contains(x),
{
    let mut i: usize = 0;
    while i < q.len()
        invariant
            i <= q@.len(),
            forall|k: int| 0 <= k < i ==> (#[trigger] q@[k]) != x,
        decreases q@.len() - i,
    {
        if q[i] == x {
            assert(q@.contains(x));
            return true;
        }
        i += 1;
    }
    false
}

/// The parent recorded for `key`, if any: the first matching entry.
fn parent_of(par: &Vec<(usize, usize)>, key: usize) -> (r: Option<usize>)
    ensures
        r == assoc_first(par@, key),
        match r {
            Some(p) => exists|k: int| 0 <= k < par@.len() && (#[trigger] par@[k]) == (key, p),
            None => forall|k: int| 0 <= k < par@.len() ==> (#[trigger] par@[k]).0 != key,
        },
{
    let mut i: usize = 0;
    while i < par.len()
        invariant
            i <= par@.len(),
            forall|k: int| 0 <= k < i ==> (#[trigger] par@[k]).0 != key,
        decreases par@.len() - i,
    {
        if par[i].0 == key {
            let p = par[i].1;
            proof {
                assert(par@[i as int] == (key, p));
                lemma_assoc_first_is_some(par@, key, i as int);
            }
            return Some(p);
        }
        i += 1;
    }
    proof {
        lemma_assoc_first_is_none(par@, key);
    }
    None
}

/// Breadth-first search from `start`, stopping as soon as `end` is popped,
/// followed by a walk back through the recorded parents and the
/// construction of one step per hop.
///
/// Both identifiers must be present in a well-formed graph; the caller
/// validates them first. An unreachable `end` yields an empty step
/// sequence, indistinguishable from the trivial `start == end` query, as
/// the contract states.
#[verifier::loop_isolation(false)]
#[verifier::rlimit(60)]
pub fn find_path(map: &Vec<Node>, start: usize, end: usize) -> (r: Vec<Step>)
    requires
        graph_wf(map@),
        contains_id(map@, start),
        contains_id(map@, end),
    ensures
        path_result(map@, start, end, r@),
        r@ == spec_find_path(map@, start, end),
{
    let ghost g = map@;
    let mut q: Vec<usize> = Vec::new();
    q.push(start);
    let mut head: usize = 0;
    let mut par: Vec<(usize, usize)> = Vec::new();
    let ghost mut dep: Map<usize, int> = Map::empty().insert(start, 0);
    let ghost init_run = bfs_loop(g, seq![start], Seq::<(usize, usize)>::empty(), 0, end, g.len());

    proof {
        assert(q@[0] == start);
        assert(q@ =~= seq![start]);
        assert(par@ =~= Seq::<(usize, usize)>::empty());
        assert(g.len() >= 1) by {
            let i: int = choose|i: int| 0 <= i < g.len() && (#[trigger] g[i]).id == start;
        }
        assert forall|v: usize, p: Seq<usize>|
            q@.contains(v) && #[trigger] connects(g, p, start, v) implies p.len() >= dep[v]
            + 1 by {
            let qi: int = choose|qi: int| 0 <= qi < q@.len() && q@[qi] == v;
            assert(v == start);
        }
    }

    while head < q.len() && q[head] != end
        invariant
            head <= q@.len(),
            q@.len() >= 1,
            q@[0] == start,
            q@.no_duplicates(),
            dep[start] == 0,
            forall|i: int| 0 <= i < q@.len() ==> contains_id(g, #[trigger] q@[i]),
            forall|i: int| 0 <= i < q@.len() ==> dep.contains_key(#[trigger] q@[i]),
            forall|i: int| 0 <= i < q@.len() ==> dep[#[trigger] q@[i]] >= 0,
            forall|a: int, b: int| #![trigger dep[q@[a]], dep[q@[b]]]
                0 <= a <= b < q@.len() ==> dep[q@[a]] <= dep[q@[b]],
            forall|i: int|
                head <= i < q@.len() ==> dep[#[trigger] q@[i]] <= dep[q@[head as int]] + 1,
            forall|i: int| 0 <= i < head ==> (#[trigger] q@[i]) != end,
            forall|k: int|
                0 <= k < par@.len() ==> par_entry_ok(g, q@, dep, start, #[trigger] par@[k]),
            forall|i: int|
                0 <= i < q@.len() && (#[trigger] q@[i]) != start ==> in_par(par@, q@[i]),
            forall|i: int, b: usize| #![trigger has_edge(g, q@[i], b)]
                0 <= i < head && has_edge(g, q@[i], b) ==> q@.contains(b),
            forall|v: usize, p: Seq<usize>|
                q@.contains(v) && #[trigger] connects(g, p, start, v) ==> p.len() >= dep[v] + 1,
            q@.len() <= g.len(),
            bfs_loop(g, q@, par@, head as int, end, (g.len() - head) as nat) == init_run,
        decreases g.len() - head,
    {
        let u = q[head];
        proof {
            assert(contains_id(g, q@[head as int]));
        }
        let iu = match find_index(map, u) {
            Some(i) => i,
            None => {
                proof {
                    assert(false);
                }
                0
            },
        };
        proof {
            lemma_first_idx_is(g, u, iu as int);
        }
        let ghost qs = q@;
        let ghost pars = par@;
        let conns_len = map[iu].connections.len();
        proof {
            assert(g[iu as int].connections@.take(0) =~= Seq::<Connection>::empty());
        }
        let mut j: usize = 0;
        while j < conns_len
            invariant
                j <= conns_len,
                head < q@.len(),
                q@[head as int] == u,
                q@.len() >= 1,
                q@[0] == start,
                q@.no_duplicates(),
                dep[start] == 0,
                forall|i: int| 0 <= i < q@.len() ==> contains_id(g, #[trigger] q@[i]),
                forall|i: int| 0 <= i < q@.len() ==> dep.contains_key(#[trigger] q@[i]),
                forall|i: int| 0 <= i < q@.len() ==> dep[#[trigger] q@[i]] >= 0,
                forall|a: int, b: int| #![trigger dep[q@[a]], dep[q@[b]]]
                    0 <= a <= b < q@.len() ==> dep[q@[a]] <= dep[q@[b]],
                forall|i: int|
                    head <= i < q@.len() ==> dep[#[trigger] q@[i]] <= dep[q@[head as int]] + 1,
                forall|i: int| 0 <= i < head ==> (#[trigger] q@[i]) != end,
                forall|k: int|
                    0 <= k < par@.len() ==> par_entry_ok(g, q@, dep, start, #[trigger] par@[k]),
                forall|i: int|
                    0 <= i < q@.len() && (#[trigger] q@[i]) != start ==> in_par(par@, q@[i]),
                forall|i: int, b: usize| #![trigger has_edge(g, q@[i], b)]
                    0 <= i < head && has_edge(g, q@[i], b) ==> q@.contains(b),
                forall|v: usize, p: Seq<usize>|
                    q@.contains(v) && #[trigger] connects(g, p, start, v) ==> p.len() >= dep[v]
                        + 1,
                q@.len() <= g.len(),
                forall|k: int|
                    0 <= k < j ==> q@.contains((#[trigger] g[iu as int].connections@[k]).to),
                q@ == push_unseen(qs, pars, u, g[iu as int].connections@.take(j as int)).0,
                par@ == push_unseen(qs, pars, u, g[iu as int].connections@.take(j as int)).1,
            decreases conns_len - j,
        {
            let w = map[iu].connections[j].to;
            if !id_seen(&q, w) {
                let ghost q0 = q@;
                let ghost par0 = par@;
                let ghost dep0 = dep;
                q.push(w);
                par.push((w, u));
                proof {
                    dep = dep0.insert(w, dep0[u] + 1);
                    // General facts about the extension.
                    assert forall|i: int| 0 <= i < q0.len() implies (#[trigger] q0[i]) != w by {
                        if q0[i] == w {
                            assert(q0.contains(w));
                        }
                    }
                    assert forall|x: usize| q0.contains(x) implies q@.contains(x) by {
                        let ki: int = choose|ki: int| 0 <= ki < q0.len() && q0[ki] == x;
                        assert(q@[ki] == x);
                    }
                    assert(q@[q0.len() as int] == w);
                    assert(q@.contains(w));
                    assert(q0[head as int] == u);
                    assert(q0.contains(u));
                    assert(q0.contains(start));
                    assert(u != w);
                    assert(start != w);
                    assert(dep[u] == dep0[u]);
                    assert(dep[w] == dep0[u] + 1);
                    // The new identifier occurs in the graph: it is the
                    // target of a declared connection.
                    assert((iu as int) < g.len());
                    assert(g[iu as int].connections@[j as int].to == w);
                    assert(contains_id(g, w));
                    assert(has_edge(g, u, w)) by {
                        assert(g[iu as int].id == u && (j as int) < g[iu as int].connections@.len()
                            && g[iu as int].connections@[j as int].to == w);
                    }
                    // Uniqueness of queue entries.
                    assert(q@.no_duplicates()) by {
                        assert forall|a: int, b: int|
                            0 <= a < q@.len() && 0 <= b < q@.len() && a != b implies q@[a]
                            != q@[b] by {
                            if a < q0.len() && b < q0.len() {
                                assert(q0[a] != q0[b]);
                            } else if a == q0.len() {
                                assert(q@[a] == w && q@[b] == q0[b]);
                            } else {
                                assert(q@[b] == w && q@[a] == q0[a]);
                            }
                        }
                    }
                    // Depth bookkeeping survives the insertion.
                    assert forall|i: int| 0 <= i < q@.len() implies dep[#[trigger] q@[i]]
                        >= 0 by {
                        if i < q0.len() {
                            assert(dep[q0[i]] == dep0[q0[i]]);
                        }
                    }
                    assert forall|a: int, b: int| #![trigger dep[q@[a]], dep[q@[b]]]
                        0 <= a <= b < q@.len() implies dep[q@[a]] <= dep[q@[b]] by {
                        if b < q0.len() {
                            assert(dep0[q0[a]] <= dep0[q0[b]]);
                        } else {
                            assert(dep[q@[b]] == dep0[u] + 1);
                            if a < q0.len() {
                                if a >= head {
                                    assert(dep0[q0[a]] <= dep0[q0[head as int]] + 1);
                                } else {
                                    assert(dep0[q0[a]] <= dep0[q0[head as int]]);
                                }
                            }
                        }
                    }
                    assert forall|i: int| head <= i < q@.len() implies dep[#[trigger] q@[i]]
                        <= dep[q@[head as int]] + 1 by {
                        assert(q@[head as int] == u);
                        if i < q0.len() {
                            assert(dep0[q0[i]] <= dep0[q0[head as int]] + 1);
                        }
                    }
                    // Parent entries old and new.
                    assert forall|k: int| 0 <= k < par@.len() implies par_entry_ok(
                        g,
                        q@,
                        dep,
                        start,
                        #[trigger] par@[k],
                    ) by {
                        if k < par0.len() {
                            let e = par0[k];
                            assert(par_entry_ok(g, q0, dep0, start, e));
                            assert(e.0 != w && e.1 != w);
                            assert(dep[e.0] == dep0[e.0] && dep[e.1] == dep0[e.1]);
                            assert(q@.contains(e.0) && q@.contains(e.1));
                        } else {
                            assert(par@[k] == (w, u));
                        }
                    }
                    assert forall|i: int|
                        0 <= i < q@.len() && (#[trigger] q@[i]) != start implies in_par(
                        par@,
                        q@[i],
                    ) by {
                        if i < q0.len() {
                            assert(in_par(par0, q0[i]));
                            let k0: int = choose|k0: int|
                                0 <= k0 < par0.len() && (#[trigger] par0[k0]).0 == q0[i];
                            assert(par@[k0] == par0[k0]);
                        } else {
                            assert((#[trigger] par@[par0.len() as int]).0 == w);
                        }
                    }
                    // Processed identifiers keep every neighbour discovered.
                    assert forall|i: int, b: usize| #![trigger has_edge(g, q@[i], b)]
                        0 <= i < head && has_edge(g, q@[i], b) implies q@.contains(b) by {
                        assert(q@[i] == q0[i]);
                        assert(has_edge(g, q0[i], b));
                        assert(q0.contains(b));
                    }
                    // No walk from `start` undercuts the recorded depths.
                    // For the fresh identifier: any walk to it must first
                    // cross out of the discovered set, through a pending
                    // identifier at least as deep as `u`.
                    assert forall|p: Seq<usize>| #[trigger] connects(g, p, start, w) implies
                        p.len() >= dep0[u] + 2 by {
                        lemma_route_frontier(g, q0, head as int, p);
                        let m: int = choose|m: int| frontier_point(q0, head as int, p, m);
                        let x = p[m - 1];
                        let ix: int = choose|ix: int| 0 <= ix < q0.len() && q0[ix] == x;
                        assert(ix >= head);
                        assert(dep0[q0[head as int]] <= dep0[q0[ix]]);
                        let pre = p.subrange(0, m);
                        assert(is_route(g, pre)) by {
                            assert forall|t: int| 0 <= t < pre.len() - 1 implies
                                #[trigger] has_edge(g, pre[t], pre[t + 1]) by {
                                assert(pre[t] == p[t]);
                                assert(pre[t + 1] == p[t + 1]);
                                assert(has_edge(g, p[t], p[t + 1]));
                            }
                        }
                        assert(pre[0] == start);
                        assert(pre[pre.len() - 1] == x);
                        assert(connects(g, pre, start, x));
                        assert(q0.contains(x));
                        assert(pre.len() >= dep0[x] + 1);
                        assert(p.len() >= m + 1);
                    }
                    assert forall|v: usize, p: Seq<usize>|
                        q@.contains(v) && #[trigger] connects(g, p, start, v) implies p.len()
                        >= dep[v] + 1 by {
                        let qi: int = choose|qi: int| 0 <= qi < q@.len() && q@[qi] == v;
                        if qi < q0.len() {
                            assert(q0.contains(v));
                            assert(v != w);
                            assert(p.len() >= dep0[v] + 1);
                            assert(dep[v] == dep0[v]);
                        } else {
                            assert(v == w);
                            assert(p.len() >= dep0[u] + 2);
                        }
                    }
                    lemma_queue_bound(g, q@);
                    // The connections already handled stay discovered.
                    assert forall|k: int| 0 <= k < j + 1 implies q@.contains(
                        (#[trigger] g[iu as int].connections@[k]).to,
                    ) by {
                        if k < j {
                            assert(q0.contains(g[iu as int].connections@[k].to));
                        }
                    }
                    // The extension is one discovery step of the
                    // specification-level search.
                    let cs = g[iu as int].connections@;
                    assert(cs.take(j as int + 1).drop_last() =~= cs.take(j as int));
                    assert(cs.take(j as int + 1).last() == cs[j as int]);
                    assert(push_unseen(qs, pars, u, cs.take(j as int)) == (q0, par0));
                    assert(!q0.contains(cs[j as int].to));
                    assert(push_unseen(qs, pars, u, cs.take(j as int + 1)) == (q@, par@));
                }
            } else {
                proof {
                    let cs = g[iu as int].connections@;
                    assert(q@.contains(cs[j as int].to));
                    assert(cs.take(j as int + 1).drop_last() =~= cs.take(j as int));
                    assert(cs.take(j as int + 1).last() == cs[j as int]);
                    assert(push_unseen(qs, pars, u, cs.take(j as int)) == (q@, par@));
                    assert(push_unseen(qs, pars, u, cs.take(j as int + 1)) == (q@, par@));
                }
            }
            j += 1;
        }
        proof {
            // All of `u`'s neighbours are discovered now, so `u` may count
            // as processed.
            assert forall|b: usize| has_edge(g, u, b) implies q@.contains(b) by {
                let (i2, j2): (int, int) = choose|i2: int, j2: int|
                    0 <= i2 < g.len() && (#[trigger] g[i2]).id == u && 0 <= j2 < g[
                    i2
                ].connections@.len() && (#[trigger] g[i2].connections@[j2]).to == b;
                assert(i2 == iu as int);
                assert(q@.contains(g[iu as int].connections@[j2].to));
            }
            assert forall|i: int, b: usize| #![trigger has_edge(g, q@[i], b)]
                0 <= i < head + 1 && has_edge(g, q@[i], b) implies q@.contains(b) by {
                if i == head {
                    assert(q@[head as int] == u);
                    assert(has_edge(g, u, b));
                } else {
                    assert(has_edge(g, q@[i], b));
                }
            }
            assert forall|i: int| head + 1 <= i < q@.len() implies dep[#[trigger] q@[i]] <= dep[
                q@[head as int + 1]
            ] + 1 by {
                assert(dep[q@[i]] <= dep[q@[head as int]] + 1);
                assert(dep[q@[head as int]] <= dep[q@[head as int + 1]]);
            }
            assert(q@[head as int] != end);
            // One loop iteration is one unfolding of the
            // specification-level search.
            assert(g[iu as int].connections@.take(conns_len as int) =~= g[
                iu as int
            ].connections@);
            assert(push_unseen(qs, pars, u, g[iu as int].connections@) == (q@, par@));
            assert(bfs_loop(g, qs, pars, head as int, end, (g.len() - head) as nat) == bfs_loop(
                g,
                q@,
                par@,
                head as int + 1,
                end,
                (g.len() - head - 1) as nat,
            )) by {
                assert((head as int) < qs.len());
                assert(qs[head as int] == u);
                assert(u != end);
                assert((g.len() - head) as nat != 0);
                assert(first_idx(g, u) == iu as int);
            }
        }
        head += 1;
    }

    proof {
        // The loop stopped in a base case of the specification-level
        // search, so the final queue, parents and head are its value.
        assert(bfs_loop(g, q@, par@, head as int, end, (g.len() - head) as nat) == (
            q@,
            par@,
            head as int,
        ));
        assert(init_run == (q@, par@, head as int));
    }

    if head < q.len() {
        // `end` sits at the queue head: it was discovered, its recorded
        // depth is exact, and the parent chain spells out a route.
        proof {
            assert(q@[head as int] == end);
            assert(q@.contains(end));
        }
        let mut path_ids: Vec<usize> = Vec::new();
        path_ids.push(end);
        let mut cur: usize = end;
        proof {
            assert(dep[cur] >= 0) by {
                assert(dep[q@[head as int]] >= 0);
            }
            assert(walk_parents(par@, end, g.len()) == path_ids@.drop_last() + walk_parents(
                par@,
                cur,
                (g.len() - (path_ids@.len() - 1)) as nat,
            )) by {
                assert(path_ids@.drop_last() =~= Seq::<usize>::empty());
                assert((g.len() - (path_ids@.len() - 1)) as nat == g.len());
                assert(Seq::<usize>::empty() + walk_parents(par@, end, g.len()) =~= walk_parents(
                    par@,
                    end,
                    g.len(),
                ));
            }
        }
        #[verifier::loop_isolation(true)]
        loop
            invariant
                forall|k: int|
                    0 <= k < par@.len() ==> par_entry_ok(g, q@, dep, start, #[trigger] par@[k]),
                forall|i: int| 0 <= i < q@.len() ==> dep[#[trigger] q@[i]] >= 0,
                q@.len() <= g.len(),
                path_ids@.len() >= 1,
                path_ids@[0] == end,
                path_ids@[path_ids@.len() - 1] == cur,
                q@.contains(cur),
                dep[cur] >= 0,
                dep[cur] == dep[end] - (path_ids@.len() - 1),
                forall|t: int|
                    0 <= t < path_ids@.len() ==> dep[#[trigger] path_ids@[t]] == dep[end] - t,
                forall|t: int| 0 <= t < path_ids@.len() ==> q@.contains(#[trigger] path_ids@[t]),
                path_ids@.len() <= q@.len(),
                forall|t: int|
                    0 <= t < path_ids@.len() - 1 ==> #[trigger] has_edge(
                        g,
                        path_ids@[t + 1],
                        path_ids@[t],
                    ),
                walk_parents(par@, end, g.len()) == path_ids@.drop_last() + walk_parents(
                    par@,
                    cur,
                    (g.len() - (path_ids@.len() - 1)) as nat,
                ),
            ensures
                path_ids@.len() >= 1,
                path_ids@[0] == end,
                path_ids@[path_ids@.len() - 1] == cur,
                q@.contains(cur),
                dep[cur] == dep[end] - (path_ids@.len() - 1),
                forall|t: int|
                    0 <= t < path_ids@.len() - 1 ==> #[trigger] has_edge(
                        g,
                        path_ids@[t + 1],
                        path_ids@[t],
                    ),
                forall|k: int| 0 <= k < par@.len() ==> (#[trigger] par@[k]).0 != cur,
                walk_parents(par@, end, g.len()) == path_ids@,
            decreases dep[cur],
        {
            match parent_of(&par, cur) {
                Some(pv) => {
                    proof {
                        let k: int = choose|k: int|
                            0 <= k < par@.len() && (#[trigger] par@[k]) == (cur, pv);
                        assert(par_entry_ok(g, q@, dep, start, par@[k]));
                        assert(q@.contains(pv));
                        assert(has_edge(g, pv, cur));
                        assert(dep[cur] == dep[pv] + 1);
                        let pvi: int = choose|pvi: int| 0 <= pvi < q@.len() && q@[pvi] == pv;
                        assert(dep[q@[pvi]] >= 0);
                        // The extended chain is one unfolding of the
                        // specification-level walk.
                        let pl0 = path_ids@;
                        let flf: nat = (g.len() - (pl0.len() - 1)) as nat;
                        assert forall|t: int| 0 <= t < pl0.push(pv).len() implies dep[
                            #[trigger] pl0.push(pv)[t]
                        ] == dep[end] - t by {
                            if t < pl0.len() {
                                assert(dep[pl0[t]] == dep[end] - t);
                            }
                        }
                        assert forall|t1: int, t2: int|
                            0 <= t1 < pl0.push(pv).len() && 0 <= t2 < pl0.push(pv).len() && t1
                                != t2 implies pl0.push(pv)[t1] != pl0.push(pv)[t2] by {
                            assert(dep[pl0.push(pv)[t1]] == dep[end] - t1);
                            assert(dep[pl0.push(pv)[t2]] == dep[end] - t2);
                        }
                        assert(pl0.push(pv).no_duplicates());
                        assert forall|t: int| 0 <= t < pl0.push(pv).len() implies q@.contains(
                            #[trigger] pl0.push(pv)[t],
                        ) by {
                            if t < pl0.len() {
                                assert(q@.contains(pl0[t]));
                            }
                        }
                        lemma_distinct_within(q@, pl0.push(pv));
                        assert(flf >= 1);
                        assert(walk_parents(par@, cur, flf) == seq![cur] + walk_parents(
                            par@,
                            pv,
                            (flf - 1) as nat,
                        )) by {
                            assert(assoc_first(par@, cur) == Some(pv));
                            assert(flf != 0);
                        }
                        assert(pl0.drop_last() + seq![cur] =~= pl0);
                        assert((pl0.drop_last() + seq![cur]) + walk_parents(
                            par@,
                            pv,
                            (flf - 1) as nat,
                        ) =~= pl0.drop_last() + (seq![cur] + walk_parents(
                            par@,
                            pv,
                            (flf - 1) as nat,
                        )));
                        assert(pl0.push(pv).drop_last() =~= pl0);
                        assert(walk_parents(par@, end, g.len()) == pl0 + walk_parents(
                            par@,
                            pv,
                            (flf - 1) as nat,
                        ));
                        assert((flf - 1) as nat == (g.len() - (pl0.push(pv).len() - 1)) as nat);
                    }
                    path_ids.push(pv);
                    cur = pv;
                },
                None => {
                    proof {
                        assert(assoc_first(par@, cur) is None);
                        assert(walk_parents(
                            par@,
                            cur,
                            (g.len() - (path_ids@.len() - 1)) as nat,
                        ) == seq![cur]);
                        assert(path_ids@.drop_last() + seq![cur] =~= path_ids@);
                    }
                    break;
                },
            }
        }
        proof {
            // The walk can only stop at an identifier with no parent
            // entry; every discovered identifier but `start` has one.
            let ci: int = choose|ci: int| 0 <= ci < q@.len() && q@[ci] == cur;
            if cur != start {
                assert(in_par(par@, q@[ci]));
                let k0: int = choose|k0: int|
                    0 <= k0 < par@.len() && (#[trigger] par@[k0]).0 == cur;
                assert(false);
            }
            assert(cur == start);
            assert(path_ids@.len() == dep[end] + 1);
        }
        let mut ids: Vec<usize> = Vec::new();
        let mut k: usize = path_ids.len();
        while k > 0
            invariant
                k <= path_ids@.len(),
                ids@.len() == path_ids@.len() - k,
                forall|t: int|
                    0 <= t < ids@.len() ==> #[trigger] ids@[t] == path_ids@[path_ids@.len() - 1
                        - t],
            decreases k,
        {
            k -= 1;
            ids.push(path_ids[k]);
        }
        proof {
            assert(ids@.len() == path_ids@.len());
            assert(ids@[0] == path_ids@[path_ids@.len() - 1]);
            assert(ids@[ids@.len() - 1] == path_ids@[0]);
            assert(ids@ =~= path_ids@.reverse());
            assert(connects(g, ids@, start, end)) by {
                assert forall|t: int| 0 <= t < ids@.len() - 1 implies #[trigger] has_edge(
                    g,
                    ids@[t],
                    ids@[t + 1],
                ) by {
                    let n0: int = path_ids@.len() as int;
                    assert(ids@[t] == path_ids@[n0 - 1 - t]);
                    assert(ids@[t + 1] == path_ids@[n0 - 2 - t]);
                    assert(has_edge(g, path_ids@[(n0 - 2 - t) + 1], path_ids@[n0 - 2 - t]));
                }
            }
        }
        let n = ids.len();
        let mut steps: Vec<Step> = Vec::new();
        let mut i: usize = 0;
        while i + 1 < n
            invariant
                i + 1 <= n,
                steps@.len() == i,
                forall|t: int|
                    0 <= t < i ==> step_matches(g, ids@[t], ids@[t + 1], #[trigger] steps@[t]),
                forall|t: int|
                    0 <= t < i ==> #[trigger] steps@[t] == spec_step_of(g, ids@[t], ids@[t + 1]),
            decreases n - i,
        {
            let a = ids[i];
            let b = ids[i + 1];
            proof {
                assert(has_edge(g, ids@[i as int], ids@[i as int + 1]));
            }
            let ia = match find_index(map, a) {
                Some(x) => x,
                None => {
                    proof {
                        let (i2, j2): (int, int) = choose|i2: int, j2: int|
                            0 <= i2 < g.len() && (#[trigger] g[i2]).id == a && 0 <= j2 < g[
                            i2
                        ].connections@.len() && (#[trigger] g[i2].connections@[j2]).to == b;
                        assert(contains_id(g, a));
                        assert(false);
                    }
                    0
                },
            };
            let ib = match find_index(map, b) {
                Some(x) => x,
                None => {
                    proof {
                        let (i2, j2): (int, int) = choose|i2: int, j2: int|
                            0 <= i2 < g.len() && (#[trigger] g[i2]).id == a && 0 <= j2 < g[
                            i2
                        ].connections@.len() && (#[trigger] g[i2].connections@[j2]).to == b;
                        assert(contains_id(g, g[i2].connections@[j2].to));
                        assert(false);
                    }
                    0
                },
            };
            let cj = match find_conn_index(&map[ia].connections, b) {
                Some(x) => x,
                None => {
                    proof {
                        let (i2, j2): (int, int) = choose|i2: int, j2: int|
                            0 <= i2 < g.len() && (#[trigger] g[i2]).id == a && 0 <= j2 < g[
                            i2
                        ].connections@.len() && (#[trigger] g[i2].connections@[j2]).to == b;
                        assert(i2 == ia as int);
                        assert(g[ia as int].connections@[j2].to == b);
                        assert(false);
                    }
                    0
                },
            };
            let st = Step {
                from: map[ia].name.clone(),
                to: map[ib].name.clone(),
                direction: map[ia].connections[cj].direction.clone(),
                distance: map[ia].connections[cj].distance,
            };
            proof {
                assert(step_matches(g, a, b, st)) by {
                    assert((ia as int) < g.len() && g[ia as int].id == a && (ib as int)
                        < g.len() && g[ib as int].id == b && (cj as int) < g[
                        ia as int
                    ].connections@.len() && g[ia as int].connections@[cj as int].to == b && (
                    forall|k2: int|
                        0 <= k2 < cj ==> (#[trigger] g[ia as int].connections@[k2]).to != b)
                        && st.from == g[ia as int].name && st.to == g[ib as int].name
                        && st.direction == g[ia as int].connections@[cj as int].direction
                        && st.distance == g[ia as int].connections@[cj as int].distance);
                }
                lemma_first_idx_is(g, a, ia as int);
                lemma_first_idx_is(g, b, ib as int);
                lemma_first_conn_idx_is(g[ia as int].connections@, b, cj as int);
                assert(st == spec_step_of(g, a, b));
            }
            steps.push(st);
            i += 1;
        }
        proof {
            assert(i == n - 1);
            assert(steps@.len() == ids@.len() - 1);
            assert(reachable(g, start, end)) by {
                assert(connects(g, ids@, start, end));
            }
            assert forall|p: Seq<usize>| #[trigger] connects(g, p, start, end) implies p.len()
                >= ids@.len() by {
                assert(p.len() >= dep[end] + 1);
            }
            assert(shortest_route_steps(g, start, end, ids@, steps@));
            if start == end {
                assert(dep[end] == 0);
                assert(steps@.len() == 0);
            }
            // The constructed steps are exactly the specification-level
            // value of the whole search.
            assert(steps@ =~= steps_of(g, ids@)) by {
                assert(ids@.len() > 0);
                assert forall|t: int| 0 <= t < steps@.len() implies steps@[t] == steps_of(
                    g,
                    ids@,
                )[t] by {
                    assert(steps@[t] == spec_step_of(g, ids@[t], ids@[t + 1]));
                }
            }
            assert(spec_find_path(g, start, end) == steps@) by {
                assert(init_run == (q@, par@, head as int));
                assert((head as int) < q@.len());
                assert(walk_parents(par@, end, g.len()) == path_ids@);
                assert(ids@ == path_ids@.reverse());
            }
        }
        steps
    } else {
        // The queue drained without popping `end`: the discovered set is
        // closed under connections and misses `end`, so no route exists.
        proof {
            assert(head == q@.len());
            assert(!q@.contains(end)) by {
                if q@.contains(end) {
                    let i: int = choose|i: int| 0 <= i < q@.len() && q@[i] == end;
                }
            }
            if reachable(g, start, end) {
                let p = choose|p: Seq<usize>| connects(g, p, start, end);
                assert(q@.contains(start));
                lemma_route_frontier(g, q@, head as int, p);
                let m: int = choose|m: int| frontier_point(q@, head as int, p, m);
                let ix: int = choose|ix: int| 0 <= ix < q@.len() && q@[ix] == p[m - 1];
                assert(false);
            }
            assert(spec_find_path(g, start, end) == Seq::<Step>::empty()) by {
                assert(init_run == (q@, par@, head as int));
                assert(head as int >= q@.len());
            }
        }
        Vec::new()
    }
}

} // verus!
