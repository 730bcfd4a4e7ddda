//! Cycle detection over the dependency edges of a scan.
//!
//! Files become integer nodes, numbered in order of first appearance. A
//! depth-first traversal with an explicit stack reports a cycle for each
//! back-edge, read off the stack from the target of the edge to the top.

use vstd::prelude::*;
use crate::repository::DependencyEdge;

verus! {

/// Some edge leads from `a` to `b`.
pub open spec fn has_edge(edges: Seq<DependencyEdge>, a: Seq<char>, b: Seq<char>) -> bool {
    exists|i: int| 0 <= i < edges.len() && #[trigger] edges[i].from@ == a && edges[i].to@ == b
}

/// The index after `k` in a ring of `len` positions.
pub open spec fn wrap_next(k: int, len: int) -> int {
    if k + 1 < len {
        k + 1
    } else {
        0
    }
}

/// Following the edges from each path of `c` to the next, and from the last
/// back to the first, is possible.
pub open spec fn is_closed_walk(edges: Seq<DependencyEdge>, c: Seq<Seq<char>>) -> bool {
    &&& c.len() > 0
    &&& forall|k: int| 0 <= k < c.len() ==> has_edge(edges, #[trigger] c[k], c[wrap_next(k, c.len() as int)])
}

/// The edges contain a cycle.
pub open spec fn has_cycle(edges: Seq<DependencyEdge>) -> bool {
    exists|c: Seq<Seq<char>>| is_closed_walk(edges, c)
}

/// `a` is obtained from `b` by deleting elements, keeping the order.
pub open spec fn is_subsequence<T>(a: Seq<T>, b: Seq<T>) -> bool
    decreases b.len(),
{
    if a.len() == 0 {
        true
    } else if b.len() == 0 {
        false
    } else if a.last() == b.last() {
        is_subsequence(a.drop_last(), b.drop_last())
    } else {
        is_subsequence(a, b.drop_last())
    }
}

/// Paths are pairwise distinct.
pub open spec fn distinct_names(names: Seq<String>) -> bool {
    forall|i: int, j: int|
        0 <= i < names.len() && 0 <= j < names.len() && i != j ==> #[trigger] names[i]@
            != #[trigger] names[j]@
}

/// Every neighbour is a node.
pub open spec fn adjacency_wf(adj: Seq<Vec<usize>>, n: int) -> bool {
    &&& adj.len() == n
    &&& forall|u: int, j: int|
        0 <= u < n && 0 <= j < adj[u]@.len() ==> #[trigger] adj[u]@[j] < n
}

/// Each neighbour in the adjacency is backed by an edge.
pub open spec fn adjacency_sound(
    edges: Seq<DependencyEdge>,
    names: Seq<String>,
    adj: Seq<Vec<usize>>,
) -> bool {
    forall|u: int, j: int|
        0 <= u < adj.len() && 0 <= j < adj[u]@.len() ==> has_edge(
            edges,
            names[u]@,
            names[#[trigger] adj[u]@[j] as int]@,
        )
}

/// Edge `e` appears in the adjacency.
pub open spec fn edge_recorded(
    e: DependencyEdge,
    names: Seq<String>,
    adj: Seq<Vec<usize>>,
) -> bool {
    exists|u: int, v: int|
        0 <= u < names.len() && 0 <= v < names.len() && #[trigger] names[u]@ == e.from@
            && #[trigger] names[v]@ == e.to@ && adj[u]@.contains(v as usize)
}

/// The position of `s` among `names`.
fn position_of(names: &Vec<String>, s: &String) -> (r: Option<usize>)
    ensures
        match r {
            Some(i) => i < names@.len() && names@[i as int]@ == s@,
            None => forall|i: int| 0 <= i < names@.len() ==> #[trigger] names@[i]@ != s@,
        },
{
    let mut i: usize = 0;
    while i < names.len()
        invariant
            i <= names@.len(),
            forall|k: int| 0 <= k < i ==> #[trigger] names@[k]@ != s@,
        decreases names@.len() - i,
    {
        if names[i] == *s {
            return Some(i);
        }
        i = i + 1;
    }
    None
}

/// The node of `s`, added at the end when `s` is new.
fn intern(names: &mut Vec<String>, adj: &mut Vec<Vec<usize>>, s: &String) -> (r: usize)
    requires
        distinct_names(old(names)@),
        old(adj)@.len() == old(names)@.len(),
    ensures
        distinct_names(final(names)@),
        final(adj)@.len() == final(names)@.len(),
        r < final(names)@.len(),
        final(names)@[r as int]@ == s@,
        final(names)@.len() <= old(names)@.len() + 1,
        final(names)@.len() < old(names)@.len() + 1 ==> final(names)@ == old(names)@,
        final(names)@.len() < old(names)@.len() + 1 ==> final(adj)@ == old(adj)@,
        final(names)@.len() == old(names)@.len() + 1 ==> final(names)@ == old(names)@.push(*s),
        final(names)@.len() == old(names)@.len() + 1 ==> final(adj)@.len() == old(adj)@.len() + 1,
        final(names)@.len() == old(names)@.len() + 1 ==> final(adj)@.last()@.len() == 0,
        forall|u: int| 0 <= u < old(adj)@.len() ==> #[trigger] final(adj)@[u] == old(adj)@[u],
{
    match position_of(names, s) {
        Some(i) => i,
        None => {
            names.push(s.clone());
            adj.push(Vec::new());
            assert(distinct_names(names@)) by {
                assert forall|i: int, j: int|
                    0 <= i < names@.len() && 0 <= j < names@.len() && i != j implies #[trigger] names@[i]@
                    != #[trigger] names@[j]@ by {
                    if i < names@.len() - 1 && j < names@.len() - 1 {
                        assert(old(names)@[i] == names@[i]);
                        assert(old(names)@[j] == names@[j]);
                    } else if i < names@.len() - 1 {
                        assert(old(names)@[i] == names@[i]);
                    } else {
                        assert(old(names)@[j] == names@[j]);
                    }
                }
            }
            names.len() - 1
        },
    }
}

/// Numbers the paths of `edges` in order of first appearance and lists,
/// for each node, the targets of its outgoing edges in edge order.
fn build_graph(edges: &Vec<DependencyEdge>) -> (res: (Vec<String>, Vec<Vec<usize>>))
    ensures
        distinct_names(res.0@),
        adjacency_wf(res.1@, res.0@.len() as int),
        adjacency_sound(edges@, res.0@, res.1@),
        forall|i: int| 0 <= i < edges@.len() ==> edge_recorded(#[trigger] edges@[i], res.0@, res.1@),
{
    let mut names: Vec<String> = Vec::new();
    let mut adj: Vec<Vec<usize>> = Vec::new();
    let mut i: usize = 0;
    while i < edges.len()
        invariant
            i <= edges@.len(),
            distinct_names(names@),
            adjacency_wf(adj@, names@.len() as int),
            adjacency_sound(edges@, names@, adj@),
            forall|k: int| 0 <= k < i ==> edge_recorded(#[trigger] edges@[k], names@, adj@),
        decreases edges@.len() - i,
    {
        let ghost names0 = names@;
        let ghost adj0 = adj@;
        let a = intern(&mut names, &mut adj, &edges[i].from);
        let ghost names1 = names@;
        let ghost adj1 = adj@;
        let b = intern(&mut names, &mut adj, &edges[i].to);
        let ghost names2 = names@;
        let ghost adj2 = adj@;
        assert(names2[a as int] == names1[a as int]);
        let mut row = adj[a].clone();
        row.push(b);
        adj.set(a, row);
        assert forall|u: int, j: int| 0 <= u < adj@.len() && 0 <= j < adj@[u]@.len() implies #[trigger] adj@[u]@[j] < names@.len() && has_edge(
            edges@,
            names@[u]@,
            names@[adj@[u]@[j] as int]@,
        ) by {
            if u == a && j == adj@[u]@.len() - 1 {
                assert(edges@[i as int].from@ == names@[u]@);
            } else if u < adj0.len() {
                assert(adj@[u]@[j] == adj0[u]@[j]);
                assert(names@[u] == names0[u]);
                assert(names@[adj0[u]@[j] as int] == names0[adj0[u]@[j] as int]);
            } else {
                assert(adj@[u]@[j] == adj2[u]@[j]);
            }
        }
        assert forall|k: int| 0 <= k <= i implies edge_recorded(#[trigger] edges@[k], names@, adj@) by {
            if k == i {
                assert(adj@[a as int]@[adj@[a as int]@.len() - 1] == b);
                assert(names@[a as int]@ == edges@[k].from@);
                assert(names@[b as int]@ == edges@[k].to@);
            } else {
                let e = edges@[k];
                let (u, v) = choose|u: int, v: int|
                    0 <= u < names0.len() && 0 <= v < names0.len() && #[trigger] names0[u]@ == e.from@
                        && #[trigger] names0[v]@ == e.to@ && adj0[u]@.contains(v as usize);
                let j = choose|j: int| 0 <= j < adj0[u]@.len() && adj0[u]@[j] == v as usize;
                assert(names@[u] == names0[u]);
                assert(names@[v] == names0[v]);
                assert(adj@[u]@[j] == adj0[u]@[j]);
            }
        }
        i = i + 1;
    }
    (names, adj)
}

/// `c` is a closed walk of distinct nodes in the adjacency.
pub open spec fn is_node_cycle(adj: Seq<Vec<usize>>, c: Seq<usize>) -> bool {
    &&& c.no_duplicates()
    &&& is_node_walk(adj, c)
}

/// `c` is a closed walk in the adjacency.
pub open spec fn is_node_walk(adj: Seq<Vec<usize>>, c: Seq<usize>) -> bool {
    &&& c.len() > 0
    &&& forall|k: int| 0 <= k < c.len() ==> (#[trigger] c[k] as int) < adj.len()
    &&& forall|k: int|
        0 <= k < c.len() ==> adj[#[trigger] c[k] as int]@.contains(c[wrap_next(k, c.len() as int)])
}

/// The reported cycles are node cycles, none a subsequence of another.
pub open spec fn cycles_ok(adj: Seq<Vec<usize>>, cycles: Seq<Vec<usize>>) -> bool {
    &&& forall|i: int| 0 <= i < cycles.len() ==> is_node_cycle(adj, #[trigger] cycles[i]@)
    &&& forall|i: int, j: int|
        0 <= i < cycles.len() && 0 <= j < cycles.len() && i != j ==> !is_subsequence(
            #[trigger] cycles[i]@,
            #[trigger] cycles[j]@,
        )
}

/// Each edge leads from a higher rank to a strictly lower one.
pub open spec fn rank_descends(adj: Seq<Vec<usize>>, rank: Seq<int>) -> bool {
    forall|u: int, j: int|
        0 <= u < adj.len() && 0 <= j < adj[u]@.len() ==> rank[#[trigger] adj[u]@[j] as int]
            < rank[u]
}

/// Along a node cycle with descending ranks, the rank at position `k` is
/// at least `k` below the rank at the start.
proof fn lemma_rank_drops(adj: Seq<Vec<usize>>, rank: Seq<int>, c: Seq<usize>, k: int)
    requires
        rank_descends(adj, rank),
        is_node_walk(adj, c),
        0 <= k < c.len(),
    ensures
        rank[c[k] as int] <= rank[c[0] as int] - k,
    decreases k,
{
    if k > 0 {
        lemma_rank_drops(adj, rank, c, k - 1);
        assert(adj[c[k - 1] as int]@.contains(c[wrap_next(k - 1, c.len() as int)]));
        let j = choose|j: int|
            0 <= j < adj[c[k - 1] as int]@.len() && #[trigger] adj[c[k - 1] as int]@[j] == c[k];
        assert(rank[adj[c[k - 1] as int]@[j] as int] < rank[c[k - 1] as int]);
    }
}

/// A ranking that descends along every edge leaves no room for a cycle.
proof fn lemma_ranked_has_no_cycle(adj: Seq<Vec<usize>>, rank: Seq<int>, c: Seq<usize>)
    requires
        rank_descends(adj, rank),
    ensures
        !is_node_walk(adj, c),
{
    if is_node_walk(adj, c) {
        let k = c.len() - 1;
        lemma_rank_drops(adj, rank, c, k);
        assert(adj[c[k] as int]@.contains(c[wrap_next(k, c.len() as int)]));
        let j = choose|j: int| 0 <= j < adj[c[k] as int]@.len() && #[trigger] adj[c[k] as int]@[j] == c[0];
        assert(rank[adj[c[k] as int]@[j] as int] < rank[c[k] as int]);
    }
}

/// Whether `a` is a subsequence of `b`, matching from the back.
fn subsequence_of(a: &Vec<usize>, b: &Vec<usize>) -> (r: bool)
    ensures
        r == is_subsequence(a@, b@),
{
    let mut i: usize = a.len();
    let mut j: usize = b.len();
    assert(a@ =~= a@.subrange(0, i as int));
    assert(b@ =~= b@.subrange(0, j as int));
    while i > 0 && j > 0
        invariant
            i <= a@.len(),
            j <= b@.len(),
            is_subsequence(a@, b@) == is_subsequence(
                a@.subrange(0, i as int),
                b@.subrange(0, j as int),
            ),
        decreases j,
    {
        assert(a@.subrange(0, i as int).drop_last() =~= a@.subrange(0, i - 1));
        assert(b@.subrange(0, j as int).drop_last() =~= b@.subrange(0, j - 1));
        if a[i - 1] == b[j - 1] {
            i = i - 1;
        }
        j = j - 1;
    }
    i == 0
}

/// Remaining work of the traversal at node `u`: a white node still has to
/// be entered, its neighbours scanned and left; an entered one has its
/// unscanned neighbours and its exit left; a finished one nothing.
spec fn node_work(adj: Seq<Vec<usize>>, color: Seq<u8>, cur: Seq<usize>, u: int) -> int {
    if color[u] == 0 {
        adj[u]@.len() as int + 2
    } else if color[u] == 1 {
        adj[u]@.len() - cur[u] + 1
    } else {
        0
    }
}

/// Remaining work over the nodes below `k`.
spec fn total_work(adj: Seq<Vec<usize>>, color: Seq<u8>, cur: Seq<usize>, k: int) -> int
    decreases k,
{
    if k <= 0 {
        0
    } else {
        total_work(adj, color, cur, k - 1) + node_work(adj, color, cur, k - 1)
    }
}

proof fn lemma_work_update(
    adj: Seq<Vec<usize>>,
    c1: Seq<u8>,
    r1: Seq<usize>,
    c2: Seq<u8>,
    r2: Seq<usize>,
    x: int,
    k: int,
)
    requires
        0 <= x,
        forall|u: int|
            0 <= u < k && u != x ==> #[trigger] node_work(adj, c1, r1, u) == node_work(
                adj,
                c2,
                r2,
                u,
            ),
    ensures
        total_work(adj, c2, r2, k) == total_work(adj, c1, r1, k) + (if x < k {
            node_work(adj, c2, r2, x) - node_work(adj, c1, r1, x)
        } else {
            0
        }),
    decreases k,
{
    if k > 0 {
        lemma_work_update(adj, c1, r1, c2, r2, x, k - 1);
    }
}

proof fn lemma_work_nonneg(adj: Seq<Vec<usize>>, color: Seq<u8>, cur: Seq<usize>, k: int)
    requires
        forall|u: int| 0 <= u < k ==> (#[trigger] cur[u] as int) <= adj[u]@.len(),
    ensures
        total_work(adj, color, cur, k) >= 0,
    decreases k,
{
    if k > 0 {
        lemma_work_nonneg(adj, color, cur, k - 1);
        assert(cur[k - 1] as int <= adj[k - 1]@.len());
    }
}

/// What holds of the traversal state between steps. Colours: 0 not yet
/// entered, 1 on the stack, 2 finished. `cur[u]` counts the scanned
/// neighbours of `u`. While no cycle has been reported, finished nodes carry
/// ranks that descend along their edges.
spec fn traversal_inv(
    adj: Seq<Vec<usize>>,
    color: Seq<u8>,
    cur: Seq<usize>,
    path: Seq<usize>,
    cycles: Seq<Vec<usize>>,
    rank: Seq<int>,
    counter: int,
) -> bool {
    let n = adj.len() as int;
    &&& adjacency_wf(adj, n)
    &&& n <= usize::MAX
    &&& color.len() == n
    &&& cur.len() == n
    &&& rank.len() == n
    &&& forall|u: int|
        0 <= u < n ==> {
            &&& #[trigger] color[u] <= 2
            &&& cur[u] <= adj[u]@.len()
            &&& color[u] == 0 ==> cur[u] == 0
            &&& (color[u] == 1 <==> path.contains(u as usize))
        }
    &&& forall|k: int| 0 <= k < path.len() ==> (#[trigger] path[k] as int) < n
    &&& path.no_duplicates()
    &&& forall|k: int|
        0 <= k < path.len() - 1 ==> cur[#[trigger] path[k] as int] >= 1 && adj[path[k] as int]@[cur[path[k] as int] - 1]
            == path[k + 1]
    &&& cycles_ok(adj, cycles)
    &&& cycles.len() == 0 ==> {
        &&& forall|u: int| 0 <= u < n && #[trigger] color[u] == 2 ==> rank[u] < counter
        &&& forall|u: int, j: int|
            0 <= u < n && 0 <= j < adj[u]@.len() && color[u] == 2 ==> color[#[trigger] adj[u]@[j] as int] == 2
                && rank[adj[u]@[j] as int] < rank[u]
        &&& forall|u: int, j: int|
            0 <= u < n && 0 <= j < cur[u] && color[u] == 1 && color[#[trigger] adj[u]@[j] as int] != 2
                ==> j == cur[u] - 1 && u != path.last()
    }
}

/// The top of the stack from position `p` up, closed by an edge from the top
/// back to position `p`, is a node cycle.
proof fn lemma_stack_slice_is_cycle(adj: Seq<Vec<usize>>, cur: Seq<usize>, path: Seq<usize>, p: int)
    requires
        forall|k: int| 0 <= k < path.len() ==> (#[trigger] path[k] as int) < adj.len(),
        path.no_duplicates(),
        forall|k: int|
            0 <= k < path.len() - 1 ==> cur[#[trigger] path[k] as int] >= 1 && adj[path[k] as int]@[cur[path[k] as int] - 1]
                == path[k + 1],
        forall|k: int| 0 <= k < path.len() ==> cur[#[trigger] path[k] as int] <= adj[path[k] as int]@.len(),
        0 <= p < path.len(),
        adj[path.last() as int]@.contains(path[p]),
    ensures
        is_node_cycle(adj, path.subrange(p, path.len() as int)),
{
    let c = path.subrange(p, path.len() as int);
    assert forall|k: int| 0 <= k < c.len() implies adj[#[trigger] c[k] as int]@.contains(
        c[wrap_next(k, c.len() as int)],
    ) by {
        if k + 1 < c.len() {
            let w = path[p + k] as int;
            assert(c[k] == path[p + k]);
            assert(c[k + 1] == path[p + k + 1]);
            assert(cur[w] <= adj[w]@.len());
            assert(adj[w]@[cur[w] - 1] == path[p + k + 1]);
        } else {
            assert(c[k] == path.last());
            assert(c[0] == path[p]);
        }
    }
}

/// The cycle read off the stack from the position of `v` to the top.
fn stack_slice(path: &Vec<usize>, v: usize) -> (r: (Vec<usize>, Ghost<int>))
    requires
        path@.contains(v),
    ensures
        0 <= r.1@ < path@.len(),
        path@[r.1@] == v,
        r.0@ == path@.subrange(r.1@, path@.len() as int),
{
    let mut p: usize = 0;
    while path[p] != v
        invariant
            p < path@.len(),
            path@.contains(v),
            forall|k: int| 0 <= k < p ==> path@[k] != v,
        decreases path@.len() - p,
    {
        proof {
            let idx = choose|idx: int| 0 <= idx < path@.len() && path@[idx] == v;
            assert(idx > p);
        }
        assert(p + 1 < path.len());
        p = p + 1;
    }
    let mut c: Vec<usize> = Vec::new();
    let mut q: usize = p;
    while q < path.len()
        invariant
            p <= q <= path@.len(),
            c@ == path@.subrange(p as int, q as int),
        decreases path@.len() - q,
    {
        c.push(path[q]);
        q = q + 1;
        assert(c@ =~= path@.subrange(p as int, q as int));
    }
    (c, Ghost(p as int))
}

/// Some cycle of `cycles` is a subsequence of `c` or has `c` as one.
pub open spec fn covers(cycles: Seq<Vec<usize>>, c: Seq<usize>) -> bool {
    exists|i: int|
        0 <= i < cycles.len() && (is_subsequence(c, #[trigger] cycles[i]@) || is_subsequence(
            cycles[i]@,
            c,
        ))
}

proof fn lemma_subsequence_reflexive<T>(a: Seq<T>)
    ensures
        is_subsequence(a, a),
    decreases a.len(),
{
    if a.len() > 0 {
        lemma_subsequence_reflexive(a.drop_last());
    }
}

/// The elements of a subsequence occur in the sequence.
proof fn lemma_subsequence_contains<T>(a: Seq<T>, b: Seq<T>, k: int)
    requires
        is_subsequence(a, b),
        0 <= k < a.len(),
    ensures
        b.contains(a[k]),
    decreases b.len(),
{
    if a.last() == b.last() {
        if k == a.len() - 1 {
            assert(b[b.len() - 1] == a[k]);
        } else {
            lemma_subsequence_contains(a.drop_last(), b.drop_last(), k);
            let j = choose|j: int| 0 <= j < b.drop_last().len() && b.drop_last()[j] == a[k];
            assert(b[j] == a[k]);
        }
    } else {
        lemma_subsequence_contains(a, b.drop_last(), k);
        let j = choose|j: int| 0 <= j < b.drop_last().len() && b.drop_last()[j] == a[k];
        assert(b[j] == a[k]);
    }
}

/// Appends `cand` unless it is a subsequence of a reported cycle or one of
/// them is a subsequence of it.
fn record_cycle(cycles: &mut Vec<Vec<usize>>, cand: Vec<usize>, Ghost(adj): Ghost<Seq<Vec<usize>>>)
    requires
        cycles_ok(adj, old(cycles)@),
        is_node_cycle(adj, cand@),
    ensures
        cycles_ok(adj, final(cycles)@),
        final(cycles)@ == old(cycles)@ || final(cycles)@ == old(cycles)@.push(cand),
        covers(final(cycles)@, cand@),
{
    let mut fresh = true;
    let mut i: usize = 0;
    while i < cycles.len()
        invariant
            i <= cycles@.len(),
            fresh ==> forall|k: int|
                0 <= k < i ==> !is_subsequence(cand@, #[trigger] cycles@[k]@) && !is_subsequence(
                    cycles@[k]@,
                    cand@,
                ),
            !fresh ==> covers(cycles@, cand@),
        decreases cycles@.len() - i,
    {
        if subsequence_of(&cand, &cycles[i]) || subsequence_of(&cycles[i], &cand) {
            fresh = false;
            assert(is_subsequence(cand@, cycles@[i as int]@) || is_subsequence(cycles@[i as int]@, cand@));
        }
        i = i + 1;
    }
    if fresh {
        let ghost before = cycles@;
        proof {
            lemma_subsequence_reflexive(cand@);
        }
        cycles.push(cand);
        assert(cycles@[cycles@.len() - 1]@ == cand@);
        assert forall|a: int, b: int|
            0 <= a < cycles@.len() && 0 <= b < cycles@.len() && a != b implies !is_subsequence(
            #[trigger] cycles@[a]@,
            #[trigger] cycles@[b]@,
        ) by {
            if a < before.len() && b < before.len() {
                assert(cycles@[a] == before[a]);
                assert(cycles@[b] == before[b]);
            } else if a < before.len() {
                assert(cycles@[a] == before[a]);
            } else {
                assert(cycles@[b] == before[b]);
            }
        }
        assert forall|a: int| 0 <= a < cycles@.len() implies is_node_cycle(adj, #[trigger] cycles@[a]@) by {
            if a < before.len() {
                assert(cycles@[a] == before[a]);
            }
        }
    }
}

/// Entering an unentered root keeps the traversal invariant.
proof fn lemma_start(
    adj: Seq<Vec<usize>>,
    color: Seq<u8>,
    cur: Seq<usize>,
    cycles: Seq<Vec<usize>>,
    rank: Seq<int>,
    counter: int,
    s: int,
)
    requires
        traversal_inv(adj, color, cur, Seq::empty(), cycles, rank, counter),
        0 <= s < adj.len(),
        color[s] == 0,
    ensures
        traversal_inv(adj, color.update(s, 1), cur, seq![s as usize], cycles, rank, counter),
{
    let n = adj.len() as int;
    let color2 = color.update(s, 1);
    let path2 = seq![s as usize];
    assert forall|u: int| 0 <= u < n implies {
        &&& #[trigger] color2[u] <= 2
        &&& cur[u] <= adj[u]@.len()
        &&& color2[u] == 0 ==> cur[u] == 0
        &&& (color2[u] == 1 <==> path2.contains(u as usize))
    } by {
        assert(color[u] <= 2);
        assert(!Seq::<usize>::empty().contains(u as usize));
        if u == s {
            assert(path2[0] == u);
        } else {
            assert(!path2.contains(u as usize));
        }
    }
    if cycles.len() == 0 {
        assert forall|u: int, j: int|
            0 <= u < n && 0 <= j < adj[u]@.len() && color2[u] == 2 implies color2[#[trigger] adj[u]@[j] as int]
            == 2 && rank[adj[u]@[j] as int] < rank[u] by {
            assert(color[u] == 2);
            assert(color[adj[u]@[j] as int] == 2);
        }
        assert forall|u: int, j: int|
            0 <= u < n && 0 <= j < cur[u] && color2[u] == 1 && color2[#[trigger] adj[u]@[j] as int] != 2
            implies j == cur[u] - 1 && u != path2.last() by {
            if u != s {
                assert(color[u] == 1);
                assert(!Seq::<usize>::empty().contains(u as usize));
            }
        }
        assert forall|u: int| 0 <= u < n && #[trigger] color2[u] == 2 implies rank[u] < counter by {
            assert(color[u] == 2);
        }
    }
}

/// Scanning a neighbour `v` of the top node `u` that is not entered: it is
/// entered and pushed.
proof fn lemma_enter(
    adj: Seq<Vec<usize>>,
    color: Seq<u8>,
    cur: Seq<usize>,
    path: Seq<usize>,
    cycles: Seq<Vec<usize>>,
    rank: Seq<int>,
    counter: int,
)
    requires
        traversal_inv(adj, color, cur, path, cycles, rank, counter),
        path.len() > 0,
        cur[path.last() as int] < adj[path.last() as int]@.len(),
        adj[path.last() as int]@.len() <= usize::MAX,
        color[adj[path.last() as int]@[cur[path.last() as int] as int] as int] == 0,
    ensures
        ({
            let u = path.last() as int;
            let v = adj[u]@[cur[u] as int];
            traversal_inv(
                adj,
                color.update(v as int, 1),
                cur.update(u, (cur[u] + 1) as usize),
                path.push(v),
                cycles,
                rank,
                counter,
            )
        }),
{
    let n = adj.len() as int;
    let u = path.last() as int;
    let next = cur[u] as int;
    let v = adj[u]@[next];
    let color2 = color.update(v as int, 1);
    let cur2 = cur.update(u, (cur[u] + 1) as usize);
    let path2 = path.push(v);
    assert(path.contains(u as usize));
    assert(color[u] == 1);
    assert(!path.contains(v));
    assert(u != v);
    assert forall|w: int| 0 <= w < n implies {
        &&& #[trigger] color2[w] <= 2
        &&& cur2[w] <= adj[w]@.len()
        &&& color2[w] == 0 ==> cur2[w] == 0
        &&& (color2[w] == 1 <==> path2.contains(w as usize))
    } by {
        assert(color[w] <= 2);
        if w == v {
            assert(path2[path.len() as int] == v);
        } else {
            if path.contains(w as usize) {
                let k = choose|k: int| 0 <= k < path.len() && path[k] == w as usize;
                assert(path2[k] == w);
            }
            if path2.contains(w as usize) {
                let k = choose|k: int| 0 <= k < path2.len() && path2[k] == w as usize;
                assert(k < path.len());
                assert(path[k] == w);
            }
        }
    }
    assert forall|k: int| 0 <= k < path2.len() implies (#[trigger] path2[k] as int) < n by {
        if k < path.len() {
            assert(path2[k] == path[k]);
        }
    }
    assert(path2.no_duplicates()) by {
        assert forall|i: int, j: int|
            0 <= i < path2.len() && 0 <= j < path2.len() && i != j implies path2[i] != path2[j] by {
            if i < path.len() && j < path.len() {
            } else if i < path.len() {
                assert(path.contains(path2[i]));
            } else {
                assert(path.contains(path2[j]));
            }
        }
    }
    assert forall|k: int| 0 <= k < path2.len() - 1 implies cur2[#[trigger] path2[k] as int] >= 1
        && adj[path2[k] as int]@[cur2[path2[k] as int] - 1] == path2[k + 1] by {
        if k < path.len() - 1 {
            assert(path2[k] == path[k]);
            assert(path[k] != path[path.len() - 1]);
            assert(cur2[path[k] as int] == cur[path[k] as int]);
        } else {
            assert(path2[k] == u);
        }
    }
    if cycles.len() == 0 {
        assert forall|w: int| 0 <= w < n && #[trigger] color2[w] == 2 implies rank[w] < counter by {
            assert(color[w] == 2);
        }
        assert forall|w: int, j: int|
            0 <= w < n && 0 <= j < adj[w]@.len() && color2[w] == 2 implies color2[#[trigger] adj[w]@[j] as int]
            == 2 && rank[adj[w]@[j] as int] < rank[w] by {
            assert(color[w] == 2);
            assert(color[adj[w]@[j] as int] == 2);
        }
        assert forall|w: int, j: int|
            0 <= w < n && 0 <= j < cur2[w] && color2[w] == 1 && color2[#[trigger] adj[w]@[j] as int] != 2
            implies j == cur2[w] - 1 && w != path2.last() by {
            let x = adj[w]@[j] as int;
            if w == v {
            } else if w == u {
                if j < next {
                    assert(color[x] == 2 || (j == cur[u] - 1 && u != path.last()));
                }
            } else {
                assert(color[w] == 1);
                assert(path.contains(w as usize));
                assert(color[x] != 2);
            }
        }
    }
}

/// Scanning a neighbour `v` of the top node that is finished, or that closes
/// a cycle which the reported cycles now account for.
proof fn lemma_scan_past(
    adj: Seq<Vec<usize>>,
    color: Seq<u8>,
    cur: Seq<usize>,
    path: Seq<usize>,
    cycles: Seq<Vec<usize>>,
    cycles2: Seq<Vec<usize>>,
    rank: Seq<int>,
    counter: int,
)
    requires
        traversal_inv(adj, color, cur, path, cycles, rank, counter),
        path.len() > 0,
        cur[path.last() as int] < adj[path.last() as int]@.len(),
        adj[path.last() as int]@.len() <= usize::MAX,
        cycles_ok(adj, cycles2),
        (cycles2 == cycles && color[adj[path.last() as int]@[cur[path.last() as int] as int] as int]
            == 2) || cycles2.len() > 0,
    ensures
        ({
            let u = path.last() as int;
            traversal_inv(
                adj,
                color,
                cur.update(u, (cur[u] + 1) as usize),
                path,
                cycles2,
                rank,
                counter,
            )
        }),
{
    let n = adj.len() as int;
    let u = path.last() as int;
    let next = cur[u] as int;
    let cur2 = cur.update(u, (cur[u] + 1) as usize);
    assert forall|w: int| 0 <= w < n implies {
        &&& #[trigger] color[w] <= 2
        &&& cur2[w] <= adj[w]@.len()
        &&& color[w] == 0 ==> cur2[w] == 0
        &&& (color[w] == 1 <==> path.contains(w as usize))
    } by {
        if w == u {
            assert(path[path.len() - 1] == u);
            assert(path.contains(u as usize));
        }
    }
    assert forall|k: int| 0 <= k < path.len() - 1 implies cur2[#[trigger] path[k] as int] >= 1
        && adj[path[k] as int]@[cur2[path[k] as int] - 1] == path[k + 1] by {
        assert(path[k] != path[path.len() - 1]);
    }
    if cycles2.len() == 0 {
        assert forall|w: int, j: int|
            0 <= w < n && 0 <= j < cur2[w] && color[w] == 1 && color[#[trigger] adj[w]@[j] as int] != 2
            implies j == cur2[w] - 1 && w != path.last() by {
            if w == u {
                if j < next {
                    assert(color[adj[w]@[j] as int] != 2 ==> j == cur[w] - 1 && w != path.last());
                }
            }
        }
    }
}

/// Leaving the top node once all its neighbours are scanned: it is finished
/// and ranked above everything finished before it.
proof fn lemma_leave(
    adj: Seq<Vec<usize>>,
    color: Seq<u8>,
    cur: Seq<usize>,
    path: Seq<usize>,
    cycles: Seq<Vec<usize>>,
    rank: Seq<int>,
    counter: int,
)
    requires
        traversal_inv(adj, color, cur, path, cycles, rank, counter),
        path.len() > 0,
        cur[path.last() as int] == adj[path.last() as int]@.len(),
    ensures
        ({
            let u = path.last() as int;
            traversal_inv(
                adj,
                color.update(u, 2),
                cur,
                path.drop_last(),
                cycles,
                rank.update(u, counter),
                counter + 1,
            )
        }),
{
    let n = adj.len() as int;
    let u = path.last() as int;
    let color2 = color.update(u, 2);
    let path2 = path.drop_last();
    let rank2 = rank.update(u, counter);
    assert(path.contains(u as usize));
    assert(!path2.contains(u as usize)) by {
        if path2.contains(u as usize) {
            let k = choose|k: int| 0 <= k < path2.len() && path2[k] == u as usize;
            assert(path[k] == path[path.len() - 1]);
        }
    }
    assert forall|w: int| 0 <= w < n implies {
        &&& #[trigger] color2[w] <= 2
        &&& cur[w] <= adj[w]@.len()
        &&& color2[w] == 0 ==> cur[w] == 0
        &&& (color2[w] == 1 <==> path2.contains(w as usize))
    } by {
        assert(color[w] <= 2);
        if w != u {
            if path.contains(w as usize) {
                let k = choose|k: int| 0 <= k < path.len() && path[k] == w as usize;
                assert(k != path.len() - 1);
                assert(path2[k] == w);
            }
            if path2.contains(w as usize) {
                let k = choose|k: int| 0 <= k < path2.len() && path2[k] == w as usize;
                assert(path[k] == w);
            }
        }
    }
    assert forall|k: int| 0 <= k < path2.len() implies (#[trigger] path2[k] as int) < n by {
        assert(path2[k] == path[k]);
    }
    assert forall|k: int| 0 <= k < path2.len() - 1 implies cur[#[trigger] path2[k] as int] >= 1
        && adj[path2[k] as int]@[cur[path2[k] as int] - 1] == path2[k + 1] by {
        assert(path2[k] == path[k]);
        assert(path2[k + 1] == path[k + 1]);
    }
    if cycles.len() == 0 {
        assert forall|j: int| 0 <= j < adj[u]@.len() implies color[#[trigger] adj[u]@[j] as int] == 2 by {
            let x = adj[u]@[j] as int;
            assert(color[x] != 2 ==> j == cur[u] - 1 && u != path.last());
        }
        assert forall|w: int| 0 <= w < n && #[trigger] color2[w] == 2 implies rank2[w] < counter
            + 1 by {
            if w != u {
                assert(color[w] == 2);
            }
        }
        assert forall|w: int, j: int|
            0 <= w < n && 0 <= j < adj[w]@.len() && color2[w] == 2 implies color2[#[trigger] adj[w]@[j] as int]
            == 2 && rank2[adj[w]@[j] as int] < rank2[w] by {
            let x = adj[w]@[j] as int;
            if w == u {
                assert(color[x] == 2);
            } else {
                assert(color[w] == 2);
                assert(color[x] == 2);
            }
        }
        assert forall|w: int, j: int|
            0 <= w < n && 0 <= j < cur[w] && color2[w] == 1 && color2[#[trigger] adj[w]@[j] as int] != 2
            implies j == cur[w] - 1 && w != path2.last() by {
            let x = adj[w]@[j] as int;
            assert(w != u);
            assert(color[w] == 1);
            assert(x != u);
            assert(color[x] != 2);
            assert(j == cur[w] - 1 && w != path.last());
            if path2.len() > 0 && w == path2.last() {
                assert(path[path.len() - 2] == w);
            }
        }
    }
}

/// The nodes of `c` were entered in the order listed.
spec fn time_increasing(time: Seq<int>, c: Seq<usize>) -> bool {
    forall|a: int, b: int|
        0 <= a < b < c.len() ==> time[#[trigger] c[a] as int] < time[#[trigger] c[b] as int]
}

/// Some reported cycle passes through node `u`.
pub open spec fn lists_node(cycles: Seq<Vec<usize>>, u: int) -> bool {
    exists|i: int, k: int|
        0 <= i < cycles.len() && 0 <= k < cycles[i]@.len() && #[trigger] cycles[i]@[k] as int == u
}

/// `b` is `a` read from some position round to that position again.
pub open spec fn is_rotation<T>(a: Seq<T>, b: Seq<T>) -> bool {
    exists|k: int| 0 <= k <= a.len() && b == a.subrange(k, a.len() as int) + a.subrange(0, k)
}

/// Entry times and scanned self-edges. `time[u]` is when `u` was entered;
/// the stack and every reported cycle list nodes in the order they were
/// entered, and every scanned self-edge has its node on a reported cycle.
spec fn order_inv(
    adj: Seq<Vec<usize>>,
    color: Seq<u8>,
    cur: Seq<usize>,
    path: Seq<usize>,
    cycles: Seq<Vec<usize>>,
    time: Seq<int>,
    clock: int,
) -> bool {
    let n = adj.len() as int;
    &&& time.len() == n
    &&& color.len() == n
    &&& forall|k: int| 0 <= k < path.len() ==> (#[trigger] path[k] as int) < n
    &&& forall|i: int, k: int|
        0 <= i < cycles.len() && 0 <= k < cycles[i]@.len() ==> (#[trigger] cycles[i]@[k] as int) < n
    &&& forall|u: int| 0 <= u < n && #[trigger] color[u] != 0 ==> time[u] < clock
    &&& forall|u: int| 0 <= u < n && #[trigger] color[u] == 2 ==> cur[u] == adj[u]@.len()
    &&& forall|k: int| 0 <= k < path.len() ==> color[#[trigger] path[k] as int] == 1
    &&& time_increasing(time, path)
    &&& forall|i: int| 0 <= i < cycles.len() ==> time_increasing(time, #[trigger] cycles[i]@)
    &&& forall|i: int, k: int|
        0 <= i < cycles.len() && 0 <= k < cycles[i]@.len() ==> color[#[trigger] cycles[i]@[k] as int]
            != 0
    &&& forall|u: int, j: int|
        0 <= u < n && 0 <= j < cur[u] && #[trigger] adj[u]@[j] as int == u ==> lists_node(cycles, u)
}

proof fn lemma_order_start(
    adj: Seq<Vec<usize>>,
    color: Seq<u8>,
    cur: Seq<usize>,
    cycles: Seq<Vec<usize>>,
    time: Seq<int>,
    clock: int,
    s: usize,
)
    requires
        order_inv(adj, color, cur, Seq::empty(), cycles, time, clock),
        color.len() == adj.len(),
        s < adj.len(),
        color[s as int] == 0,
    ensures
        order_inv(adj, color.update(s as int, 1), cur, seq![s], cycles, time.update(s as int, clock), clock + 1),
{
    let n = adj.len() as int;
    let color2 = color.update(s as int, 1);
    let time2 = time.update(s as int, clock);
    let path2 = seq![s];
    assert(path2[0] == s);
    assert forall|k: int| 0 <= k < path2.len() implies color2[#[trigger] path2[k] as int] == 1 by {}
    assert forall|u: int| 0 <= u < n && #[trigger] color2[u] != 0 implies time2[u] < clock + 1 by {
        if u != s as int {
            assert(color[u] != 0);
        }
    }
    assert forall|u: int| 0 <= u < n && #[trigger] color2[u] == 2 implies cur[u] == adj[u]@.len() by {
        assert(color[u] == 2);
    }
    assert forall|i: int| 0 <= i < cycles.len() implies time_increasing(time2, #[trigger] cycles[i]@) by {
        assert forall|a: int, b: int| 0 <= a < b < cycles[i]@.len() implies time2[#[trigger] cycles[i]@[a] as int]
            < time2[#[trigger] cycles[i]@[b] as int] by {
            assert(color[cycles[i]@[a] as int] != 0);
            assert(color[cycles[i]@[b] as int] != 0);
        }
    }
    assert forall|i: int, k: int|
        0 <= i < cycles.len() && 0 <= k < cycles[i]@.len() implies color2[#[trigger] cycles[i]@[k] as int]
        != 0 by {
        assert(color[cycles[i]@[k] as int] != 0);
    }
}

proof fn lemma_order_enter(
    adj: Seq<Vec<usize>>,
    color: Seq<u8>,
    cur: Seq<usize>,
    path: Seq<usize>,
    cycles: Seq<Vec<usize>>,
    time: Seq<int>,
    clock: int,
)
    requires
        order_inv(adj, color, cur, path, cycles, time, clock),
        color.len() == adj.len(),
        cur.len() == adj.len(),
        adjacency_wf(adj, adj.len() as int),
        path.len() > 0,
        (path.last() as int) < adj.len(),
        cur[path.last() as int] < adj[path.last() as int]@.len(),
        adj[path.last() as int]@.len() <= usize::MAX,
        color[adj[path.last() as int]@[cur[path.last() as int] as int] as int] == 0,
    ensures
        ({
            let u = path.last() as int;
            let v = adj[u]@[cur[u] as int];
            order_inv(
                adj,
                color.update(v as int, 1),
                cur.update(u, (cur[u] + 1) as usize),
                path.push(v),
                cycles,
                time.update(v as int, clock),
                clock + 1,
            )
        }),
{
    let n = adj.len() as int;
    let u = path.last() as int;
    let next = cur[u] as int;
    let v = adj[u]@[next] as int;
    let color2 = color.update(v, 1);
    let cur2 = cur.update(u, (cur[u] + 1) as usize);
    let path2 = path.push(v as usize);
    let time2 = time.update(v, clock);
    assert(color[u] == 1) by {
        assert(color[path[path.len() - 1] as int] == 1);
    }
    assert(u != v);
    assert forall|w: int| 0 <= w < n && #[trigger] color2[w] != 0 implies time2[w] < clock + 1 by {
        if w != v {
            assert(color[w] != 0);
        }
    }
    assert forall|w: int| 0 <= w < n && #[trigger] color2[w] == 2 implies cur2[w] == adj[w]@.len() by {
        assert(color[w] == 2);
    }
    assert forall|k: int| 0 <= k < path2.len() implies color2[#[trigger] path2[k] as int] == 1 by {
        if k < path.len() {
            assert(path2[k] == path[k]);
            assert(color[path[k] as int] == 1);
        }
    }
    assert forall|a: int, b: int| 0 <= a < b < path2.len() implies time2[#[trigger] path2[a] as int]
        < time2[#[trigger] path2[b] as int] by {
        assert(path2[a] == path[a]);
        assert(color[path[a] as int] == 1);
        if b < path.len() {
            assert(path2[b] == path[b]);
            assert(color[path[b] as int] == 1);
        }
    }
    assert forall|i: int| 0 <= i < cycles.len() implies time_increasing(time2, #[trigger] cycles[i]@) by {
        assert forall|a: int, b: int| 0 <= a < b < cycles[i]@.len() implies time2[#[trigger] cycles[i]@[a] as int]
            < time2[#[trigger] cycles[i]@[b] as int] by {
            assert(color[cycles[i]@[a] as int] != 0);
            assert(color[cycles[i]@[b] as int] != 0);
        }
    }
    assert forall|i: int, k: int|
        0 <= i < cycles.len() && 0 <= k < cycles[i]@.len() implies color2[#[trigger] cycles[i]@[k] as int]
        != 0 by {
        assert(color[cycles[i]@[k] as int] != 0);
    }
    assert forall|w: int, j: int|
        0 <= w < n && 0 <= j < cur2[w] && #[trigger] adj[w]@[j] as int == w implies lists_node(cycles, w) by {
        if w == u && j == next {
            assert(adj[w]@[j] as int == v);
        }
    }
}

proof fn lemma_order_scan(
    adj: Seq<Vec<usize>>,
    color: Seq<u8>,
    cur: Seq<usize>,
    path: Seq<usize>,
    cycles: Seq<Vec<usize>>,
    cycles2: Seq<Vec<usize>>,
    time: Seq<int>,
    clock: int,
    p: int,
)
    requires
        order_inv(adj, color, cur, path, cycles, time, clock),
        color.len() == adj.len(),
        cur.len() == adj.len(),
        path.len() > 0,
        (path.last() as int) < adj.len(),
        cur[path.last() as int] < adj[path.last() as int]@.len(),
        adj[path.last() as int]@.len() <= usize::MAX,
        0 <= p < path.len(),
        cycles2 == cycles || (cycles2.len() == cycles.len() + 1 && cycles2.drop_last() == cycles),
        cycles2 != cycles ==> cycles2.last()@ == path.subrange(p, path.len() as int),
        adj[path.last() as int]@[cur[path.last() as int] as int] == path.last() ==> lists_node(
            cycles2,
            path.last() as int,
        ),
    ensures
        ({
            let u = path.last() as int;
            order_inv(adj, color, cur.update(u, (cur[u] + 1) as usize), path, cycles2, time, clock)
        }),
{
    let n = adj.len() as int;
    let u = path.last() as int;
    let next = cur[u] as int;
    let cur2 = cur.update(u, (cur[u] + 1) as usize);
    assert(color[u] == 1) by {
        assert(color[path[path.len() - 1] as int] == 1);
    }
    assert forall|i: int| 0 <= i < cycles.len() implies cycles2[i] == cycles[i] by {
        if cycles2 != cycles {
            assert(cycles2.drop_last()[i] == cycles2[i]);
        }
    }
    assert forall|w: int| 0 <= w < n && #[trigger] color[w] == 2 implies cur2[w] == adj[w]@.len() by {}
    if cycles2 != cycles {
        let last = cycles2.len() - 1;
        assert forall|a: int, b: int| 0 <= a < b < cycles2[last]@.len() implies time[#[trigger] cycles2[last]@[a] as int]
            < time[#[trigger] cycles2[last]@[b] as int] by {
            assert(cycles2[last]@[a] == path[p + a]);
            assert(cycles2[last]@[b] == path[p + b]);
        }
        assert forall|k: int| 0 <= k < cycles2[last]@.len() implies color[#[trigger] cycles2[last]@[k] as int]
            != 0 by {
            assert(cycles2[last]@[k] == path[p + k]);
        }
    }
    assert forall|i: int| 0 <= i < cycles2.len() implies time_increasing(time, #[trigger] cycles2[i]@) by {
        if i < cycles.len() {
            assert(cycles2[i] == cycles[i]);
        }
    }
    assert forall|i: int, k: int|
        0 <= i < cycles2.len() && 0 <= k < cycles2[i]@.len() implies color[#[trigger] cycles2[i]@[k] as int]
        != 0 by {
        if i < cycles.len() {
            assert(cycles2[i] == cycles[i]);
        }
    }
    assert forall|w: int, j: int|
        0 <= w < n && 0 <= j < cur2[w] && #[trigger] adj[w]@[j] as int == w implies lists_node(cycles2, w) by {
        if w == u && j == next {
        } else {
            assert(lists_node(cycles, w));
            let (i, k) = choose|i: int, k: int|
                0 <= i < cycles.len() && 0 <= k < cycles[i]@.len() && #[trigger] cycles[i]@[k] as int == w;
            assert(cycles2[i] == cycles[i]);
            assert(cycles2[i]@[k] as int == w);
        }
    }
}

proof fn lemma_order_leave(
    adj: Seq<Vec<usize>>,
    color: Seq<u8>,
    cur: Seq<usize>,
    path: Seq<usize>,
    cycles: Seq<Vec<usize>>,
    time: Seq<int>,
    clock: int,
)
    requires
        order_inv(adj, color, cur, path, cycles, time, clock),
        color.len() == adj.len(),
        path.no_duplicates(),
        path.len() > 0,
        (path.last() as int) < adj.len(),
        cur[path.last() as int] == adj[path.last() as int]@.len(),
    ensures
        order_inv(adj, color.update(path.last() as int, 2), cur, path.drop_last(), cycles, time, clock),
{
    let n = adj.len() as int;
    let u = path.last() as int;
    let color2 = color.update(u, 2);
    let path2 = path.drop_last();
    assert(color[u] == 1) by {
        assert(color[path[path.len() - 1] as int] == 1);
    }
    assert forall|w: int| 0 <= w < n && #[trigger] color2[w] != 0 implies time[w] < clock by {
        assert(color[w] != 0);
    }
    assert forall|w: int| 0 <= w < n && #[trigger] color2[w] == 2 implies cur[w] == adj[w]@.len() by {
        if w != u {
            assert(color[w] == 2);
        }
    }
    assert forall|k: int| 0 <= k < path2.len() implies color2[#[trigger] path2[k] as int] == 1 by {
        assert(path2[k] == path[k]);
        assert(path[k] != path[path.len() - 1]);
        assert(color[path[k] as int] == 1);
    }
    assert forall|a: int, b: int| 0 <= a < b < path2.len() implies time[#[trigger] path2[a] as int]
        < time[#[trigger] path2[b] as int] by {
        assert(path2[a] == path[a]);
        assert(path2[b] == path[b]);
    }
    assert forall|i: int, k: int|
        0 <= i < cycles.len() && 0 <= k < cycles[i]@.len() implies color2[#[trigger] cycles[i]@[k] as int]
        != 0 by {
        assert(color[cycles[i]@[k] as int] != 0);
    }
}

/// A cycle covering the one-node cycle `[u]` passes through `u`.
proof fn lemma_covers_self_loop(adj: Seq<Vec<usize>>, cycles: Seq<Vec<usize>>, u: usize)
    requires
        cycles_ok(adj, cycles),
        covers(cycles, seq![u]),
    ensures
        lists_node(cycles, u as int),
{
    let i = choose|i: int|
        0 <= i < cycles.len() && (is_subsequence(seq![u], #[trigger] cycles[i]@) || is_subsequence(
            cycles[i]@,
            seq![u],
        ));
    assert(is_node_cycle(adj, cycles[i]@));
    assert(seq![u][0] == u);
    if is_subsequence(seq![u], cycles[i]@) {
        lemma_subsequence_contains(seq![u], cycles[i]@, 0);
    } else {
        lemma_subsequence_contains(cycles[i]@, seq![u], 0);
        assert(cycles[i]@[0] == u);
    }
    assert(cycles[i]@.contains(u));
    let k = choose|k: int| 0 <= k < cycles[i]@.len() && cycles[i]@[k] == u;
    assert(cycles[i]@[k] as int == u as int);
}

/// Two different cycles whose nodes were both listed in entry order are not
/// rotations of one another.
proof fn lemma_entry_order_no_rotation(time: Seq<int>, a: Seq<usize>, b: Seq<usize>)
    requires
        time_increasing(time, a),
        time_increasing(time, b),
        a != b,
    ensures
        !is_rotation(a, b),
{
    if is_rotation(a, b) {
        let k = choose|k: int| 0 <= k <= a.len() && b == a.subrange(k, a.len() as int) + a.subrange(0, k);
        let len = a.len() as int;
        if k == 0 {
            assert(b =~= a);
        } else if k == len {
            assert(b =~= a);
        } else {
            assert(b[0] == a[k]);
            assert(b[len - k] == a[0]);
            assert(time[b[0] as int] < time[b[len - k] as int]);
            assert(time[a[0] as int] < time[a[k] as int]);
        }
    }
}

/// Depth-first traversal from every node not yet entered, in node order,
/// reporting a cycle for each back-edge that is not already covered.
fn detect_node_cycles(adj: &Vec<Vec<usize>>) -> (cycles: Vec<Vec<usize>>)
    requires
        adjacency_wf(adj@, adj@.len() as int),
    ensures
        cycles_ok(adj@, cycles@),
        cycles@.len() == 0 ==> forall|c: Seq<usize>| !is_node_walk(adj@, c),
        forall|i: int, j: int|
            0 <= i < cycles@.len() && 0 <= j < cycles@.len() && i != j ==> !is_rotation(
                #[trigger] cycles@[i]@,
                #[trigger] cycles@[j]@,
            ),
        forall|u: int, j: int|
            0 <= u < adj@.len() && 0 <= j < adj@[u]@.len() && #[trigger] adj@[u]@[j] as int == u
                ==> lists_node(cycles@, u),
{
    let n = adj.len();
    let mut color: Vec<u8> = Vec::new();
    let mut cur: Vec<usize> = Vec::new();
    let mut i: usize = 0;
    while i < n
        invariant
            i <= n,
            color@ == Seq::new(i as nat, |u: int| 0u8),
            cur@ == Seq::new(i as nat, |u: int| 0usize),
        decreases n - i,
    {
        color.push(0);
        cur.push(0);
        i = i + 1;
        assert(color@ =~= Seq::new(i as nat, |u: int| 0u8));
        assert(cur@ =~= Seq::new(i as nat, |u: int| 0usize));
    }
    let ghost mut rank: Seq<int> = Seq::new(n as nat, |u: int| 0int);
    let ghost mut counter: int = 0;
    let ghost mut time: Seq<int> = Seq::new(n as nat, |u: int| 0int);
    let ghost mut clock: int = 0;
    let mut path: Vec<usize> = Vec::new();
    let mut cycles: Vec<Vec<usize>> = Vec::new();
    let mut s: usize = 0;
    while s < n
        invariant
            n == adj@.len(),
            s <= n,
            traversal_inv(adj@, color@, cur@, path@, cycles@, rank, counter),
            order_inv(adj@, color@, cur@, path@, cycles@, time, clock),
            path@.len() == 0,
            forall|u: int| 0 <= u < s ==> #[trigger] color@[u] == 2,
        decreases n - s,
    {
        if color[s] == 0 {
            let ghost color0 = color@;
            proof {
                assert(path@ =~= Seq::<usize>::empty());
                lemma_order_start(adj@, color@, cur@, cycles@, time, clock, s);
            }
            color.set(s, 1);
            path.push(s);
            proof {
                time = time.update(s as int, clock);
                clock = clock + 1;
                lemma_start(adj@, color0, cur@, cycles@, rank, counter, s as int);
                assert(path@ =~= seq![s]);
                assert forall|u: int| 0 <= u < s implies #[trigger] color@[u] == 2 by {
                    assert(color0[u] == 2);
                }
            }
            while path.len() > 0
                invariant
                    n == adj@.len(),
                    s < n,
                    traversal_inv(adj@, color@, cur@, path@, cycles@, rank, counter),
                    order_inv(adj@, color@, cur@, path@, cycles@, time, clock),
                    color@[s as int] != 0,
                    forall|u: int| 0 <= u < s ==> #[trigger] color@[u] == 2,
                decreases total_work(adj@, color@, cur@, n as int),
            {
                let ghost color0 = color@;
                let ghost cur0 = cur@;
                let ghost path0 = path@;
                let ghost cycles0 = cycles@;
                let top = path.len() - 1;
                let u = path[top];
                let next = cur[u];
                if next < adj[u].len() {
                    let v = adj[u][next];
                    if color[v] == 0 {
                        proof {
                            lemma_enter(adj@, color@, cur@, path@, cycles@, rank, counter);
                            lemma_order_enter(adj@, color@, cur@, path@, cycles@, time, clock);
                        }
                        cur.set(u, next + 1);
                        let ghost cur1 = cur@;
                        color.set(v, 1);
                        path.push(v);
                        proof {
                            time = time.update(v as int, clock);
                            clock = clock + 1;
                            lemma_work_update(adj@, color0, cur0, color0, cur1, u as int, n as int);
                            lemma_work_update(adj@, color0, cur1, color@, cur@, v as int, n as int);
                        }
                    } else {
                        let ghost mut start: int = 0;
                        if color[v] == 1 {
                            proof {
                                assert(path@.contains(v));
                                assert forall|k: int| 0 <= k < path@.len() implies cur0[#[trigger] path@[k] as int]
                                    <= adj@[path@[k] as int]@.len() by {
                                    assert(color0[path@[k] as int] <= 2);
                                }
                            }
                            let (cand, Ghost(p)) = stack_slice(&path, v);
                            proof {
                                assert(adj@[u as int]@[next as int] == v);
                                lemma_stack_slice_is_cycle(adj@, cur0, path@, p);
                            }
                            let ghost slice = cand@;
                            record_cycle(&mut cycles, cand, Ghost(adj@));
                            proof {
                                start = p;
                                if cycles@ != cycles0 {
                                    assert(cycles@.drop_last() =~= cycles0);
                                }
                                if v == u {
                                    assert(path@[p] == path@[top as int]);
                                    assert(p == top);
                                    assert(slice =~= seq![u]);
                                    lemma_covers_self_loop(adj@, cycles@, u);
                                }
                            }
                        }
                        proof {
                            assert(path@[top as int] == u);
                            assert(color@[u as int] == 1);
                            lemma_order_scan(adj@, color@, cur@, path@, cycles0, cycles@, time, clock, start);
                            lemma_scan_past(adj@, color@, cur@, path@, cycles0, cycles@, rank, counter);
                        }
                        cur.set(u, next + 1);
                        proof {
                            lemma_work_update(adj@, color0, cur0, color@, cur@, u as int, n as int);
                        }
                    }
                } else {
                    proof {
                        lemma_leave(adj@, color@, cur@, path@, cycles@, rank, counter);
                        lemma_order_leave(adj@, color@, cur@, path@, cycles@, time, clock);
                    }
                    color.set(u, 2);
                    path.pop();
                    proof {
                        lemma_work_update(adj@, color0, cur0, color@, cur@, u as int, n as int);
                        rank = rank.update(u as int, counter);
                        counter = counter + 1;
                    }
                }
                proof {
                    assert forall|w: int| 0 <= w < n implies (#[trigger] cur@[w] as int)
                        <= adj@[w]@.len() by {
                        assert(color@[w] <= 2);
                    }
                    lemma_work_nonneg(adj@, color@, cur@, n as int);
                }
            }
        }
        s = s + 1;
    }
    proof {
        assert forall|i: int, j: int|
            0 <= i < cycles@.len() && 0 <= j < cycles@.len() && i != j implies !is_rotation(
            #[trigger] cycles@[i]@,
            #[trigger] cycles@[j]@,
        ) by {
            lemma_subsequence_reflexive(cycles@[i]@);
            lemma_entry_order_no_rotation(time, cycles@[i]@, cycles@[j]@);
        }
        assert forall|u: int, j: int|
            0 <= u < adj@.len() && 0 <= j < adj@[u]@.len() && #[trigger] adj@[u]@[j] as int == u
            implies lists_node(cycles@, u) by {
            assert(color@[u] == 2);
        }
        if cycles@.len() == 0 {
            assert(rank_descends(adj@, rank));
            assert forall|c: Seq<usize>| !is_node_walk(adj@, c) by {
                lemma_ranked_has_no_cycle(adj@, rank, c);
            }
        }
    }
    cycles
}

/// The paths of the nodes of `c`.
pub open spec fn names_of(names: Seq<String>, c: Seq<usize>) -> Seq<Seq<char>> {
    c.map_values(|x: usize| names[x as int]@)
}

/// The node named `s`.
spec fn node_of(names: Seq<String>, s: Seq<char>) -> int {
    choose|u: int| 0 <= u < names.len() && #[trigger] names[u]@ == s
}

/// Naming nodes by distinct paths keeps the subsequence relation.
proof fn lemma_subsequence_of_names(names: Seq<String>, a: Seq<usize>, b: Seq<usize>)
    requires
        distinct_names(names),
        forall|k: int| 0 <= k < a.len() ==> (#[trigger] a[k] as int) < names.len(),
        forall|k: int| 0 <= k < b.len() ==> (#[trigger] b[k] as int) < names.len(),
    ensures
        is_subsequence(names_of(names, a), names_of(names, b)) == is_subsequence(a, b),
    decreases b.len(),
{
    let na = names_of(names, a);
    let nb = names_of(names, b);
    if a.len() > 0 && b.len() > 0 {
        assert(na.drop_last() =~= names_of(names, a.drop_last()));
        assert(nb.drop_last() =~= names_of(names, b.drop_last()));
        assert(na.last() == names[a.last() as int]@);
        assert(nb.last() == names[b.last() as int]@);
        assert(a[a.len() - 1] < names.len());
        assert(b[b.len() - 1] < names.len());
        assert((na.last() == nb.last()) == (a.last() == b.last()));
        if a.last() == b.last() {
            lemma_subsequence_of_names(names, a.drop_last(), b.drop_last());
        } else {
            lemma_subsequence_of_names(names, a, b.drop_last());
        }
    }
}

/// Naming nodes by distinct paths keeps the rotation relation.
proof fn lemma_rotation_of_names(names: Seq<String>, a: Seq<usize>, b: Seq<usize>)
    requires
        distinct_names(names),
        forall|k: int| 0 <= k < a.len() ==> (#[trigger] a[k] as int) < names.len(),
        forall|k: int| 0 <= k < b.len() ==> (#[trigger] b[k] as int) < names.len(),
        is_rotation(names_of(names, a), names_of(names, b)),
    ensures
        is_rotation(a, b),
{
    let na = names_of(names, a);
    let k = choose|k: int|
        0 <= k <= na.len() && names_of(names, b) == na.subrange(k, na.len() as int) + na.subrange(0, k);
    let rot = a.subrange(k, a.len() as int) + a.subrange(0, k);
    assert(names_of(names, rot) =~= na.subrange(k, na.len() as int) + na.subrange(0, k));
    assert forall|i: int| 0 <= i < b.len() implies b[i] == rot[i] by {
        assert(names_of(names, b)[i] == names_of(names, rot)[i]);
        assert(names[b[i] as int]@ == names[rot[i] as int]@);
        if i < a.len() - k {
            assert(rot[i] == a[k + i]);
        } else {
            assert(rot[i] == a[i - (a.len() - k)]);
        }
    }
    assert(b =~= rot);
}

/// A node cycle names a closed walk of distinct paths along the edges.
proof fn lemma_named_cycle(
    edges: Seq<DependencyEdge>,
    names: Seq<String>,
    adj: Seq<Vec<usize>>,
    c: Seq<usize>,
)
    requires
        distinct_names(names),
        adjacency_wf(adj, names.len() as int),
        adjacency_sound(edges, names, adj),
        is_node_cycle(adj, c),
    ensures
        is_closed_walk(edges, names_of(names, c)),
        names_of(names, c).no_duplicates(),
{
    let nc = names_of(names, c);
    assert forall|k: int| 0 <= k < nc.len() implies has_edge(
        edges,
        #[trigger] nc[k],
        nc[wrap_next(k, nc.len() as int)],
    ) by {
        let x = c[k] as int;
        assert(adj[x]@.contains(c[wrap_next(k, c.len() as int)]));
        let j = choose|j: int|
            0 <= j < adj[x]@.len() && #[trigger] adj[x]@[j] == c[wrap_next(k, c.len() as int)];
        assert(has_edge(edges, names[x]@, names[adj[x]@[j] as int]@));
    }
    assert forall|i: int, j: int| 0 <= i < nc.len() && 0 <= j < nc.len() && i != j implies nc[i]
        != nc[j] by {
        assert(c[i] != c[j]);
        assert((c[i] as int) < names.len());
        assert((c[j] as int) < names.len());
    }
}

/// A closed walk along the edges gives a closed walk of nodes.
proof fn lemma_walk_has_nodes(
    edges: Seq<DependencyEdge>,
    names: Seq<String>,
    adj: Seq<Vec<usize>>,
    c: Seq<Seq<char>>,
)
    requires
        distinct_names(names),
        adjacency_wf(adj, names.len() as int),
        forall|i: int| 0 <= i < edges.len() ==> edge_recorded(#[trigger] edges[i], names, adj),
        is_closed_walk(edges, c),
        names.len() <= usize::MAX,
    ensures
        is_node_walk(adj, c.map_values(|s: Seq<char>| node_of(names, s) as usize)),
{
    let d = c.map_values(|s: Seq<char>| node_of(names, s) as usize);
    assert forall|k: int| 0 <= k < c.len() implies {
        &&& (#[trigger] d[k] as int) < adj.len()
        &&& adj[d[k] as int]@.contains(d[wrap_next(k, d.len() as int)])
    } by {
        let m = wrap_next(k, c.len() as int);
        assert(has_edge(edges, c[k], c[m]));
        let i = choose|i: int| 0 <= i < edges.len() && #[trigger] edges[i].from@ == c[k] && edges[i].to@ == c[m];
        assert(edge_recorded(edges[i], names, adj));
        let (u, v) = choose|u: int, v: int|
            0 <= u < names.len() && 0 <= v < names.len() && #[trigger] names[u]@ == edges[i].from@
                && #[trigger] names[v]@ == edges[i].to@ && adj[u]@.contains(v as usize);
        let du = node_of(names, c[k]);
        let dv = node_of(names, c[m]);
        assert(names[du]@ == c[k]);
        assert(names[dv]@ == c[m]);
        assert(du == u);
        assert(dv == v);
    }
}

/// The paths of the nodes of `c`, in order.
fn paths_of(names: &Vec<String>, c: &Vec<usize>) -> (r: Vec<String>)
    requires
        forall|k: int| 0 <= k < c@.len() ==> (#[trigger] c@[k] as int) < names@.len(),
    ensures
        r.deep_view() == names_of(names@, c@),
{
    let mut r: Vec<String> = Vec::new();
    let mut k: usize = 0;
    while k < c.len()
        invariant
            k <= c@.len(),
            forall|q: int| 0 <= q < c@.len() ==> (#[trigger] c@[q] as int) < names@.len(),
            r.deep_view() == names_of(names@, c@.subrange(0, k as int)),
        decreases c@.len() - k,
    {
        let ghost before = r.deep_view();
        let path = names[c[k]].clone();
        r.push(path);
        assert(r.deep_view() =~= before.push(names@[c@[k as int] as int]@));
        assert(c@.subrange(0, k + 1) =~= c@.subrange(0, k as int).push(c@[k as int]));
        k = k + 1;
        assert(r.deep_view() =~= names_of(names@, c@.subrange(0, k as int)));
    }
    assert(c@.subrange(0, k as int) =~= c@);
    r
}

/// `r` reports cycles of `edges`: each lists distinct paths such that
/// following the edges from each to the next, and from the last back to the
/// first, is possible; none is a subsequence or a rotation of another; the
/// path of every self-edge lies on a reported cycle; and `r` is empty
/// exactly when the edges contain no cycle.
pub open spec fn is_cycle_report(edges: Seq<DependencyEdge>, r: Seq<Vec<String>>) -> bool {
    &&& forall|i: int|
        0 <= i < r.len() ==> is_closed_walk(edges, #[trigger] r[i].deep_view())
            && r[i].deep_view().no_duplicates()
    &&& forall|i: int, j: int|
        0 <= i < r.len() && 0 <= j < r.len() && i != j ==> !is_subsequence(
            #[trigger] r[i].deep_view(),
            #[trigger] r[j].deep_view(),
        )
    &&& forall|i: int, j: int|
        0 <= i < r.len() && 0 <= j < r.len() && i != j ==> !is_rotation(
            #[trigger] r[i].deep_view(),
            #[trigger] r[j].deep_view(),
        )
    &&& forall|e: int|
        0 <= e < edges.len() && (#[trigger] edges[e]).from@ == edges[e].to@ ==> lists_path(
            r,
            edges[e].from@,
        )
    &&& r.len() == 0 <==> !has_cycle(edges)
}

/// Some reported cycle passes through path `p`.
pub open spec fn lists_path(r: Seq<Vec<String>>, p: Seq<char>) -> bool {
    exists|i: int, k: int|
        0 <= i < r.len() && 0 <= k < r[i]@.len() && #[trigger] r[i].deep_view()[k] == p
}

/// Finds the cycles among the dependency edges. Each reported cycle lists
/// distinct paths in traversal order; following the edges from each to the
/// next, and from the last back to the first, is possible. No reported cycle
/// is a subsequence of another, so duplicate edges report nothing twice. The
/// result is empty exactly when the edges contain no cycle.
pub fn find_cycles(edges: &Vec<DependencyEdge>) -> (r: Vec<Vec<String>>)
    ensures
        is_cycle_report(edges@, r@),
{
    let (names, adj) = build_graph(edges);
    let ids = detect_node_cycles(&adj);
    let count = names.len();
    let mut r: Vec<Vec<String>> = Vec::new();
    let mut i: usize = 0;
    while i < ids.len()
        invariant
            i <= ids@.len(),
            r@.len() == i,
            count == names@.len(),
            distinct_names(names@),
            adjacency_wf(adj@, names@.len() as int),
            cycles_ok(adj@, ids@),
            forall|q: int| 0 <= q < i ==> #[trigger] r@[q].deep_view() == names_of(names@, ids@[q]@),
        decreases ids@.len() - i,
    {
        proof {
            assert(is_node_cycle(adj@, ids@[i as int]@));
        }
        let c = paths_of(&names, &ids[i]);
        r.push(c);
        i = i + 1;
    }
    proof {
        assert forall|q: int| 0 <= q < r@.len() implies is_closed_walk(
            edges@,
            #[trigger] r@[q].deep_view(),
        ) && r@[q].deep_view().no_duplicates() by {
            lemma_named_cycle(edges@, names@, adj@, ids@[q]@);
        }
        assert forall|a: int, b: int| 0 <= a < r@.len() && 0 <= b < r@.len() && a != b implies !is_subsequence(
            #[trigger] r@[a].deep_view(),
            #[trigger] r@[b].deep_view(),
        ) by {
            assert(is_node_cycle(adj@, ids@[a]@));
            assert(is_node_cycle(adj@, ids@[b]@));
            lemma_subsequence_of_names(names@, ids@[a]@, ids@[b]@);
        }
        assert forall|a: int, b: int| 0 <= a < r@.len() && 0 <= b < r@.len() && a != b implies !is_rotation(
            #[trigger] r@[a].deep_view(),
            #[trigger] r@[b].deep_view(),
        ) by {
            assert(is_node_cycle(adj@, ids@[a]@));
            assert(is_node_cycle(adj@, ids@[b]@));
            if is_rotation(r@[a].deep_view(), r@[b].deep_view()) {
                lemma_rotation_of_names(names@, ids@[a]@, ids@[b]@);
            }
        }
        assert forall|e: int| 0 <= e < edges@.len() && (#[trigger] edges@[e]).from@ == edges@[e].to@ implies lists_path(
            r@,
            edges@[e].from@,
        ) by {
            assert(edge_recorded(edges@[e], names@, adj@));
            let (u, v) = choose|u: int, v: int|
                0 <= u < names@.len() && 0 <= v < names@.len() && #[trigger] names@[u]@ == edges@[e].from@
                    && #[trigger] names@[v]@ == edges@[e].to@ && adj@[u]@.contains(v as usize);
            assert(u == v);
            let j = choose|j: int| 0 <= j < adj@[u]@.len() && adj@[u]@[j] == v as usize;
            assert(adj@[u]@[j] as int == u);
            assert(lists_node(ids@, u));
            let (i, k) = choose|i: int, k: int|
                0 <= i < ids@.len() && 0 <= k < ids@[i]@.len() && #[trigger] ids@[i]@[k] as int == u;
            assert(r@[i].deep_view() == names_of(names@, ids@[i]@));
            assert(r@[i].deep_view()[k] == names@[u]@);
            assert(r@[i].deep_view().len() == r@[i]@.len());
        }
        if r@.len() > 0 {
            assert(is_closed_walk(edges@, r@[0].deep_view()));
        } else if has_cycle(edges@) {
            let c = choose|c: Seq<Seq<char>>| is_closed_walk(edges@, c);
            lemma_walk_has_nodes(edges@, names@, adj@, c);
        }
    }
    r
}

} // verus!
