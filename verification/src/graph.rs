//! Directed graphs over node indices: paths, cycles, topological ranks and
//! depth-first traversals.
//!
//! A graph on `n` nodes is modelled by its adjacency `Seq<Seq<usize>>`:
//! entry `i` lists, in declaration order, the nodes that node `i` has an edge
//! to.
use std::collections::HashSet;
use vstd::prelude::*;

verus! {

/// The adjacency that a vector of edge lists stands for.
pub open spec fn adj_of(edges: &Vec<Vec<usize>>) -> Seq<Seq<usize>> {
    Seq::new(edges@.len(), |i: int| edges@[i]@)
}

/// Every edge points at a node of the graph.
pub open spec fn well_formed(adj: Seq<Seq<usize>>) -> bool {
    forall|i: int, k: int|
        0 <= i < adj.len() && 0 <= k < adj[i].len() ==> (#[trigger] adj[i][k]) < adj.len()
}

/// There is an edge from `a` to `b`.
pub open spec fn has_edge(adj: Seq<Seq<usize>>, a: usize, b: usize) -> bool {
    a < adj.len() && adj[a as int].contains(b)
}

/// Some node has an edge to `v`.
pub open spec fn has_parent(adj: Seq<Seq<usize>>, v: usize) -> bool {
    exists|a: usize| has_edge(adj, a, v)
}

/// Consecutive entries of `p` are joined by edges.
pub open spec fn linked(adj: Seq<Seq<usize>>, p: Seq<usize>) -> bool {
    forall|k: int| 0 <= k < p.len() - 1 ==> has_edge(adj, #[trigger] p[k], p[k + 1])
}

/// `p` is a non-empty walk along the edges of the graph.
pub open spec fn is_path(adj: Seq<Seq<usize>>, p: Seq<usize>) -> bool {
    &&& p.len() >= 1
    &&& p[0] < adj.len()
    &&& linked(adj, p)
}

/// `b` can be reached from `a` along zero or more edges.
pub open spec fn reaches(adj: Seq<Seq<usize>>, a: usize, b: usize) -> bool {
    exists|p: Seq<usize>| is_path(adj, p) && p.first() == a && p.last() == b
}

/// `v` lies on a cycle: a walk of at least one edge leads from `v` back to `v`.
pub open spec fn on_cycle(adj: Seq<Seq<usize>>, v: usize) -> bool {
    exists|p: Seq<usize>| is_path(adj, p) && p.len() >= 2 && p.first() == v && p.last() == v
}

/// No node lies on a cycle.
pub open spec fn acyclic(adj: Seq<Seq<usize>>) -> bool {
    forall|v: usize| !on_cycle(adj, v)
}

/// `rank` numbers the nodes below the node count so that every edge leads
/// to a strictly smaller number.
pub open spec fn ranked(adj: Seq<Seq<usize>>, rank: Seq<int>) -> bool {
    &&& rank.len() == adj.len()
    &&& forall|i: int| 0 <= i < adj.len() ==> 0 <= #[trigger] rank[i] < adj.len()
    &&& forall|i: int, k: int|
        0 <= i < adj.len() && 0 <= k < adj[i].len() ==> rank[(#[trigger] adj[i][k]) as int]
            < rank[i]
}

/// A well-formed graph that admits a topological rank.
pub open spec fn is_dag(adj: Seq<Seq<usize>>) -> bool {
    well_formed(adj) && exists|rank: Seq<int>| ranked(adj, rank)
}

/// Every entry of `s` is a node index below `n`.
pub open spec fn all_below(s: Seq<usize>, n: nat) -> bool {
    forall|i: int| 0 <= i < s.len() ==> (#[trigger] s[i]) < n
}

/// Distinct indices below `n` are at most `n` many.
pub proof fn lemma_unique_bounded(s: Seq<usize>, n: nat)
    requires
        s.no_duplicates(),
        all_below(s, n),
    ensures
        s.len() <= n,
    decreases n,
{
    if n == 0 {
        if s.len() > 0 {
            assert(s[0] < n);
        }
    } else {
        let top = (n - 1) as usize;
        if s.contains(top) {
            let idx = choose|i: int| 0 <= i < s.len() && s[i] == top;
            let rest = s.remove(idx);
            assert forall|i: int| 0 <= i < rest.len() implies (#[trigger] rest[i]) < (n - 1) as nat by {
                if i < idx {
                    assert(rest[i] == s[i]);
                } else {
                    assert(rest[i] == s[i + 1]);
                }
            }
            assert(rest.no_duplicates()) by {
                assert forall|i: int, j: int|
                    0 <= i < rest.len() && 0 <= j < rest.len() && i != j implies rest[i]
                    != rest[j] by {
                    let i2 = if i < idx { i } else { i + 1 };
                    let j2 = if j < idx { j } else { j + 1 };
                    assert(rest[i] == s[i2]);
                    assert(rest[j] == s[j2]);
                }
            }
            lemma_unique_bounded(rest, (n - 1) as nat);
        } else {
            assert forall|i: int| 0 <= i < s.len() implies (#[trigger] s[i]) < (n - 1) as nat by {
                assert(s[i] < n);
                assert(s.contains(s[i]));
            }
            lemma_unique_bounded(s, (n - 1) as nat);
        }
    }
}

/// In a well-formed graph every node of a path is a node of the graph.
pub proof fn lemma_path_in_range(adj: Seq<Seq<usize>>, p: Seq<usize>, k: int)
    requires
        well_formed(adj),
        is_path(adj, p),
        0 <= k < p.len(),
    ensures
        p[k] < adj.len(),
    decreases k,
{
    if k > 0 {
        lemma_path_in_range(adj, p, k - 1);
        assert(has_edge(adj, p[k - 1], p[k - 1 + 1]));
        let a = p[k - 1];
        let j = choose|j: int| 0 <= j < adj[a as int].len() && adj[a as int][j] == p[k];
        assert(adj[a as int][j] < adj.len());
    }
}

/// Along a path in a ranked graph the rank never grows, and it falls with
/// every edge.
pub proof fn lemma_rank_falls(adj: Seq<Seq<usize>>, rank: Seq<int>, p: Seq<usize>, k: int)
    requires
        well_formed(adj),
        ranked(adj, rank),
        is_path(adj, p),
        0 <= k < p.len(),
    ensures
        p[k] < adj.len(),
        rank[p[k] as int] + k <= rank[p[0] as int],
    decreases k,
{
    lemma_path_in_range(adj, p, k);
    if k > 0 {
        lemma_rank_falls(adj, rank, p, k - 1);
        assert(has_edge(adj, p[k - 1], p[k - 1 + 1]));
        let a = p[k - 1];
        let j = choose|j: int| 0 <= j < adj[a as int].len() && adj[a as int][j] == p[k];
        assert(rank[adj[a as int][j] as int] < rank[a as int]);
    }
}

/// A graph with a topological rank has no cycle.
pub proof fn lemma_dag_is_acyclic(adj: Seq<Seq<usize>>)
    requires
        is_dag(adj),
    ensures
        acyclic(adj),
{
    let rank = choose|rank: Seq<int>| ranked(adj, rank);
    assert forall|v: usize| !on_cycle(adj, v) by {
        if on_cycle(adj, v) {
            let p = choose|p: Seq<usize>|
                is_path(adj, p) && p.len() >= 2 && p.first() == v && p.last() == v;
            lemma_rank_falls(adj, rank, p, p.len() - 1);
        }
    }
}


/// The bookkeeping of a depth-first search for cycles: `path` is the walk
/// from the start node to the node being explored, and `done` lists the
/// explored nodes in the order in which they were finished. `stack` holds
/// the nodes of the path, `visited` those and the explored ones.
pub closed spec fn search_state(
    adj: Seq<Seq<usize>>,
    visited: Set<usize>,
    stack: Set<usize>,
    path: Seq<usize>,
    done: Seq<usize>,
) -> bool {
    &&& path.no_duplicates()
    &&& all_below(path, adj.len())
    &&& linked(adj, path)
    &&& forall|x: usize| #[trigger] stack.contains(x) <==> path.contains(x)
    &&& done.no_duplicates()
    &&& all_below(done, adj.len())
    &&& forall|x: usize| #[trigger] visited.contains(x) <==> path.contains(x) || done.contains(x)
    &&& forall|x: usize| #[trigger] done.contains(x) ==> !path.contains(x)
    &&& children_first(adj, done)
}

/// `c` stands in `order` before position `p`.
pub open spec fn stands_before(order: Seq<usize>, p: int, c: usize) -> bool {
    exists|q: int| 0 <= q < p && q < order.len() && order[q] == c
}

/// Every child of an entry of `order` stands earlier in `order`.
pub open spec fn children_first(adj: Seq<Seq<usize>>, order: Seq<usize>) -> bool {
    forall|p: int, k: int|
        0 <= p < order.len() && order[p] < adj.len() && 0 <= k < adj[order[p] as int].len()
            ==> stands_before(order, p, #[trigger] adj[order[p] as int][k])
}

/// An order that lists every node once, children first, gives a rank.
proof fn lemma_finish_order_ranks(adj: Seq<Seq<usize>>, done: Seq<usize>)
    requires
        well_formed(adj),
        done.no_duplicates(),
        all_below(done, adj.len()),
        children_first(adj, done),
        forall|x: usize| x < adj.len() ==> #[trigger] done.contains(x),
        adj.len() <= usize::MAX,
    ensures
        is_dag(adj),
{
    lemma_unique_bounded(done, adj.len());
    let rank = Seq::new(adj.len(), |i: int| choose|q: int| 0 <= q < done.len() && done[q] == i as usize);
    assert forall|i: int| 0 <= i < adj.len() implies 0 <= #[trigger] rank[i] < done.len()
        && done[rank[i]] == i as usize by {
        assert(done.contains(i as usize));
    }
    assert forall|i: int, k: int| 0 <= i < adj.len() && 0 <= k < adj[i].len() implies rank[(
    #[trigger] adj[i][k]) as int] < rank[i] by {
        let p = rank[i];
        assert(done[p] == i as usize);
        let c = adj[i][k];
        assert(c < adj.len());
        assert(adj[done[p] as int][k] == c);
        assert(stands_before(done, p, adj[done[p] as int][k]));
        let q = choose|q: int| 0 <= q < p && q < done.len() && done[q] == c;
        assert(done[rank[c as int]] == c);
        assert(rank[c as int] == q);
    }
    assert(ranked(adj, rank));
}

/// The depth-first search for a cycle from `v`: `path` is the walk that
/// led to `v`, `done` lists the nodes that are fully explored. The search
/// takes the children of a node in declaration order and stops at the
/// first node that it meets on its own path. It yields that node, if there
/// is one, and the nodes that are fully explored afterwards. `depth`
/// bounds how far the search descends.
pub open spec fn search(
    adj: Seq<Seq<usize>>,
    v: usize,
    path: Seq<usize>,
    done: Seq<usize>,
    depth: nat,
) -> (Option<usize>, Seq<usize>)
    decreases depth, 0nat,
{
    if path.contains(v) {
        (Some(v), done)
    } else if done.contains(v) || depth == 0 || v >= adj.len() {
        (None, done)
    } else {
        let below = search_all(adj, adj[v as int], path.push(v), done, (depth - 1) as nat);
        if below.0 is Some {
            below
        } else {
            (None, below.1.push(v))
        }
    }
}

/// The search from each node of `vs` in turn, up to the first that finds
/// a node on its path.
pub open spec fn search_all(
    adj: Seq<Seq<usize>>,
    vs: Seq<usize>,
    path: Seq<usize>,
    done: Seq<usize>,
    depth: nat,
) -> (Option<usize>, Seq<usize>)
    decreases depth, vs.len() + 1,
{
    if vs.len() == 0 {
        (None, done)
    } else {
        let before = search_all(adj, vs.drop_last(), path, done, depth);
        if before.0 is Some {
            before
        } else {
            search(adj, vs.last(), path, before.1, depth)
        }
    }
}

/// The search from each of the first `upto` nodes in turn, lowest number
/// first, up to the first that finds a node on its path.
pub open spec fn scan(adj: Seq<Seq<usize>>, upto: nat) -> (Option<usize>, Seq<usize>)
    decreases upto,
{
    if upto == 0 {
        (None, Seq::empty())
    } else {
        let before = scan(adj, (upto - 1) as nat);
        if before.0 is Some {
            before
        } else {
            search(adj, (upto - 1) as usize, Seq::empty(), before.1, adj.len())
        }
    }
}

/// The node that the search for a cycle reports: the node at which the
/// search from the lowest-numbered unexplored node, children in
/// declaration order, first meets its own path. `None` if it never does.
pub open spec fn first_cycle_node(adj: Seq<Seq<usize>>) -> Option<usize> {
    scan(adj, adj.len()).0
}

/// Once the search from a front part of `vs` has found a node, the search
/// from all of `vs` yields the same.
pub proof fn lemma_search_all_found(
    adj: Seq<Seq<usize>>,
    vs: Seq<usize>,
    k: int,
    path: Seq<usize>,
    done: Seq<usize>,
    depth: nat,
)
    requires
        0 <= k <= vs.len(),
        search_all(adj, vs.take(k), path, done, depth).0 is Some,
    ensures
        search_all(adj, vs, path, done, depth) == search_all(adj, vs.take(k), path, done, depth),
    decreases vs.len() - k,
{
    if k == vs.len() {
        assert(vs.take(k) =~= vs);
    } else {
        let next = vs.take(k + 1);
        assert(next.drop_last() =~= vs.take(k));
        assert(search_all(adj, next, path, done, depth) == search_all(
            adj,
            vs.take(k),
            path,
            done,
            depth,
        ));
        lemma_search_all_found(adj, vs, k + 1, path, done, depth);
    }
}

/// Once the search from the first `k` nodes has found a node, the search
/// from more nodes yields the same.
pub proof fn lemma_scan_found(adj: Seq<Seq<usize>>, k: nat, upto: nat)
    requires
        k <= upto,
        scan(adj, k).0 is Some,
    ensures
        scan(adj, upto) == scan(adj, k),
    decreases upto - k,
{
    if k < upto {
        lemma_scan_found(adj, k, (upto - 1) as nat);
    }
}

/// The first `m` nodes of `adj` have edges among themselves only, and
/// `rank` numbers them so that every edge leads to a smaller number.
pub open spec fn ranked_part(adj: Seq<Seq<usize>>, m: nat, rank: Seq<int>) -> bool {
    &&& m <= adj.len()
    &&& well_formed(adj.take(m as int))
    &&& ranked(adj.take(m as int), rank)
}

/// Every node of `path` lies outside the first `m` nodes or has a higher
/// rank than `v`.
pub open spec fn path_above(path: Seq<usize>, m: nat, rank: Seq<int>, v: usize) -> bool {
    forall|i: int|
        0 <= i < path.len() ==> (#[trigger] path[i]) >= m || rank[path[i] as int] > rank[v as int]
}

/// Within a ranked part of a graph the search meets no node of its path:
/// it finds nothing, and explores nodes of that part only.
pub proof fn lemma_search_in_ranked_part(
    adj: Seq<Seq<usize>>,
    m: nat,
    rank: Seq<int>,
    v: usize,
    path: Seq<usize>,
    done: Seq<usize>,
    depth: nat,
)
    requires
        ranked_part(adj, m, rank),
        v < m,
        path_above(path, m, rank, v),
        all_below(done, m),
    ensures
        search(adj, v, path, done, depth).0 is None,
        all_below(search(adj, v, path, done, depth).1, m),
    decreases depth, 0nat,
{
    if path.contains(v) {
        let i = choose|i: int| 0 <= i < path.len() && path[i] == v;
        assert(path[i] >= m || rank[path[i] as int] > rank[v as int]);
    } else if done.contains(v) || depth == 0 || v >= adj.len() {
    } else {
        let part = adj.take(m as int);
        let row = adj[v as int];
        let longer = path.push(v);
        assert(part[v as int] == row);
        assert forall|k: int| 0 <= k < row.len() implies (#[trigger] row[k]) < m && path_above(
            longer,
            m,
            rank,
            row[k],
        ) by {
            assert(part[v as int][k] < part.len());
            assert(rank[part[v as int][k] as int] < rank[v as int]);
            assert forall|i: int| 0 <= i < longer.len() implies (#[trigger] longer[i]) >= m
                || rank[longer[i] as int] > rank[row[k] as int] by {
                if i < path.len() {
                    assert(longer[i] == path[i]);
                }
            }
        }
        lemma_search_all_in_ranked_part(adj, m, rank, row, longer, done, (depth - 1) as nat);
    }
}

/// The same of the search from each node of `vs` in turn.
pub proof fn lemma_search_all_in_ranked_part(
    adj: Seq<Seq<usize>>,
    m: nat,
    rank: Seq<int>,
    vs: Seq<usize>,
    path: Seq<usize>,
    done: Seq<usize>,
    depth: nat,
)
    requires
        ranked_part(adj, m, rank),
        all_below(vs, m),
        forall|k: int| 0 <= k < vs.len() ==> path_above(path, m, rank, #[trigger] vs[k]),
        all_below(done, m),
    ensures
        search_all(adj, vs, path, done, depth).0 is None,
        all_below(search_all(adj, vs, path, done, depth).1, m),
    decreases depth, vs.len() + 1,
{
    if vs.len() > 0 {
        let front = vs.drop_last();
        assert forall|k: int| 0 <= k < front.len() implies (#[trigger] front[k]) < m && path_above(
            path,
            m,
            rank,
            front[k],
        ) by {
            assert(front[k] == vs[k]);
        }
        lemma_search_all_in_ranked_part(adj, m, rank, front, path, done, depth);
        let before = search_all(adj, front, path, done, depth);
        assert(vs.last() == vs[vs.len() - 1]);
        lemma_search_in_ranked_part(adj, m, rank, vs.last(), path, before.1, depth);
    }
}

/// The same of the search from each of the first `upto` nodes of the part.
pub proof fn lemma_scan_in_ranked_part(adj: Seq<Seq<usize>>, m: nat, rank: Seq<int>, upto: nat)
    requires
        ranked_part(adj, m, rank),
        upto <= m,
        m <= usize::MAX,
    ensures
        scan(adj, upto).0 is None,
        all_below(scan(adj, upto).1, m),
    decreases upto,
{
    if upto > 0 {
        lemma_scan_in_ranked_part(adj, m, rank, (upto - 1) as nat);
        let before = scan(adj, (upto - 1) as nat);
        lemma_search_in_ranked_part(
            adj,
            m,
            rank,
            (upto - 1) as usize,
            Seq::empty(),
            before.1,
            adj.len(),
        );
    }
}

/// The search from the children `vs` of the node `n`, which stands above a
/// ranked part and is among `vs`, meets `n` on its path.
pub proof fn lemma_search_all_meets_itself(
    adj: Seq<Seq<usize>>,
    n: usize,
    rank: Seq<int>,
    vs: Seq<usize>,
    done: Seq<usize>,
    depth: nat,
)
    requires
        ranked_part(adj, n as nat, rank),
        forall|k: int| 0 <= k < vs.len() ==> (#[trigger] vs[k]) <= n,
        vs.contains(n),
        all_below(done, n as nat),
    ensures
        search_all(adj, vs, seq![n], done, depth).0 == Some(n),
    decreases vs.len(),
{
    let front = vs.drop_last();
    let path = seq![n];
    let at = choose|k: int| 0 <= k < vs.len() && vs[k] == n;
    let before = search_all(adj, front, path, done, depth);
    assert(path[0] == n);
    assert(vs.len() > 0);
    if front.contains(n) {
        assert forall|k: int| 0 <= k < front.len() implies (#[trigger] front[k]) <= n by {
            assert(front[k] == vs[k]);
        }
        lemma_search_all_meets_itself(adj, n, rank, front, done, depth);
        assert(before.0 is Some);
    } else {
        if at < vs.len() - 1 {
            assert(front[at] == n);
        }
        assert(vs.last() == n);
        assert forall|k: int| 0 <= k < front.len() implies (#[trigger] front[k]) < n && path_above(
            path,
            n as nat,
            rank,
            front[k],
        ) by {
            assert(front[k] == vs[k]);
            assert(front.contains(front[k]));
        }
        lemma_search_all_in_ranked_part(adj, n as nat, rank, front, path, done, depth);
        assert(path.contains(n));
        assert(before.0 is None);
        assert(search(adj, n, path, before.1, depth) == (Some(n), before.1));
    }
}

/// A node that is added to a DAG and lists itself among its children is
/// the node that the search for a cycle reports.
pub proof fn lemma_self_loop_is_reported(adj: Seq<Seq<usize>>, row: Seq<usize>, n: usize)
    requires
        is_dag(adj),
        n == adj.len(),
        forall|k: int| 0 <= k < row.len() ==> (#[trigger] row[k]) <= n,
        row.contains(n),
    ensures
        first_cycle_node(adj.push(row)) == Some(n),
{
    let all = adj.push(row);
    let rank = choose|rank: Seq<int>| ranked(adj, rank);
    assert(all.take(n as int) =~= adj);
    lemma_scan_in_ranked_part(all, n as nat, rank, n as nat);
    let before = scan(all, n as nat);
    let path = Seq::<usize>::empty().push(n);
    assert(path =~= seq![n]);
    lemma_search_all_meets_itself(all, n, rank, row, before.1, n as nat);
    assert(!before.1.contains(n)) by {
        if before.1.contains(n) {
            let i = choose|i: int| 0 <= i < before.1.len() && before.1[i] == n;
            assert(before.1[i] < n);
        }
    }
    assert(all[n as int] == row);
    assert(scan(all, (n + 1) as nat) == search(all, n, Seq::empty(), before.1, all.len()));
}

/// Explores the nodes reachable from `v`, looking for an edge back into the
/// path that led to `v`.
fn explore(
    edges: &Vec<Vec<usize>>,
    v: usize,
    visited: &mut HashSet<usize>,
    stack: &mut HashSet<usize>,
    Ghost(path): Ghost<Seq<usize>>,
    Ghost(done): Ghost<Seq<usize>>,
) -> (r: (Option<usize>, Ghost<Seq<usize>>))
    requires
        well_formed(adj_of(edges)),
        search_state(adj_of(edges), old(visited)@, old(stack)@, path, done),
        v < edges.len(),
        path.len() > 0 ==> has_edge(adj_of(edges), path.last(), v),
    ensures
        match r.0 {
            Some(w) => w < edges.len() && on_cycle(adj_of(edges), w),
            None => {
                &&& search_state(adj_of(edges), final(visited)@, final(stack)@, path, r.1@)
                &&& done.is_prefix_of(r.1@)
                &&& r.1@.contains(v)
            },
        },
        (r.0, r.1@) == search(adj_of(edges), v, path, done, (edges.len() - path.len()) as nat),
    decreases edges.len() - path.len(),
{
    let ghost adj = adj_of(edges);
    let ghost depth = (edges.len() - path.len()) as nat;
    proof {
        lemma_unique_bounded(path, adj.len());
    }
    if stack.contains(&v) {
        proof {
            assert(path.contains(v));
            let at = choose|i: int| 0 <= i < path.len() && path[i] == v;
            let p = path.subrange(at, path.len() as int).push(v);
            assert(is_path(adj, p)) by {
                assert forall|k: int| 0 <= k < p.len() - 1 implies has_edge(
                    adj,
                    #[trigger] p[k],
                    p[k + 1],
                ) by {
                    if k < p.len() - 2 {
                        assert(p[k] == path[at + k]);
                        assert(p[k + 1] == path[at + k + 1]);
                    } else {
                        assert(p[k] == path.last());
                    }
                }
            }
            assert(p.first() == v && p.last() == v);
        }
        return (Some(v), Ghost(done));
    }
    if visited.contains(&v) {
        proof {
            assert(!path.contains(v));
            assert(done.contains(v));
        }
        return (None, Ghost(done));
    }
    let ghost path2 = path.push(v);
    proof {
        assert(!stack@.contains(v));
        assert(!visited@.contains(v));
        assert(!path.contains(v));
        assert(!done.contains(v));
        lemma_push_fresh(path, v);
        assert(all_below(path2, adj.len()));
        lemma_unique_bounded(path2, adj.len());
    }
    visited.insert(v);
    stack.insert(v);
    proof {
        assert(linked(adj, path2)) by {
            assert forall|k: int| 0 <= k < path2.len() - 1 implies has_edge(
                adj,
                #[trigger] path2[k],
                path2[k + 1],
            ) by {
                if k < path.len() - 1 {
                    assert(path2[k] == path[k]);
                    assert(path2[k + 1] == path[k + 1]);
                }
            }
        }
        lemma_push_contains(path, v);
        assert(search_state(adj, visited@, stack@, path2, done));
    }
    let ghost mut cur = done;
    let mut k: usize = 0;
    proof {
        assert(adj[v as int].take(0) =~= Seq::<usize>::empty());
    }
    while k < edges[v].len()
        invariant
            well_formed(adj_of(edges)),
            adj == adj_of(edges),
            v < edges.len(),
            path2 == path.push(v),
            path2.len() <= edges.len(),
            search_state(adj, visited@, stack@, path2, cur),
            done.is_prefix_of(cur),
            k <= edges[v as int].len(),
            forall|j: int| 0 <= j < k ==> cur.contains(#[trigger] edges[v as int][j]),
            depth == edges.len() - path.len(),
            depth > 0,
            !path.contains(v),
            !done.contains(v),
            search_all(adj, adj[v as int].take(k as int), path2, done, (depth - 1) as nat) == (
                None::<usize>,
                cur,
            ),
        decreases edges[v as int].len() - k,
    {
        let c = edges[v][k];
        proof {
            assert(adj[v as int][k as int] == c);
            assert(c < adj.len());
            assert(has_edge(adj, v, c));
            assert(path2.last() == v);
        }
        let (found, Ghost(next)) = explore(edges, c, visited, stack, Ghost(path2), Ghost(cur));
        proof {
            let upto = adj[v as int].take(k + 1);
            assert(upto.last() == c);
            assert(upto.drop_last() =~= adj[v as int].take(k as int));
            assert(search_all(adj, upto, path2, done, (depth - 1) as nat) == (found, next));
        }
        if let Some(w) = found {
            proof {
                lemma_search_all_found(
                    adj,
                    adj[v as int],
                    k + 1,
                    path2,
                    done,
                    (depth - 1) as nat,
                );
            }
            return (Some(w), Ghost(next));
        }
        proof {
            assert forall|j: int| 0 <= j < k + 1 implies next.contains(
                #[trigger] edges[v as int][j],
            ) by {
                if j < k {
                    let q = choose|q: int| 0 <= q < cur.len() && cur[q] == edges[v as int][j];
                    assert(next[q] == cur[q]);
                }
            }
            lemma_prefix_chain(done, cur, next);
            cur = next;
        }
        k += 1;
    }
    proof {
        assert(adj[v as int].take(k as int) =~= adj[v as int]);
        assert(path2[path.len() as int] == v);
        assert(path2.contains(v));
        assert(!cur.contains(v));
    }
    stack.remove(&v);
    proof {
        let fin = cur.push(v);
        lemma_push_fresh(cur, v);
        lemma_push_contains(cur, v);
        lemma_push_contains(path, v);
        assert(children_first(adj, fin)) by {
            assert forall|p: int, j: int|
                0 <= p < fin.len() && fin[p] < adj.len() && 0 <= j < adj[fin[p] as int].len()
                implies stands_before(fin, p, #[trigger] adj[fin[p] as int][j]) by {
                if p < cur.len() {
                    assert(fin[p] == cur[p]);
                    let c = adj[cur[p] as int][j];
                    assert(stands_before(cur, p, c));
                    let q = choose|q: int| 0 <= q < p && q < cur.len() && cur[q] == c;
                    assert(fin[q] == cur[q]);
                } else {
                    assert(cur.contains(edges[v as int][j]));
                    let q = choose|q: int| 0 <= q < cur.len() && cur[q] == edges[v as int][j];
                    assert(fin[q] == cur[q]);
                }
            }
        }
        assert(linked(adj, path)) by {
            assert forall|j: int| 0 <= j < path.len() - 1 implies has_edge(
                adj,
                #[trigger] path[j],
                path[j + 1],
            ) by {
                assert(path2[j] == path[j]);
                assert(path2[j + 1] == path[j + 1]);
            }
        }
        assert(path.no_duplicates());
        assert(all_below(path, adj.len()));
        assert(all_below(fin, adj.len()));
        assert(fin[cur.len() as int] == v);
        lemma_prefix_chain(done, cur, fin);
        cur = fin;
    }
    (None, Ghost(cur))
}

/// What a sequence holds after a value is appended.
pub proof fn lemma_push_contains(s: Seq<usize>, v: usize)
    ensures
        forall|x: usize| #[trigger] s.push(v).contains(x) <==> s.contains(x) || x == v,
{
    let t = s.push(v);
    assert forall|x: usize| #[trigger] t.contains(x) <==> s.contains(x) || x == v by {
        if s.contains(x) {
            let j = choose|j: int| 0 <= j < s.len() && s[j] == x;
            assert(t[j] == x);
        }
        if x == v {
            assert(t[s.len() as int] == v);
        }
        if t.contains(x) {
            let j = choose|j: int| 0 <= j < t.len() && t[j] == x;
            if j < s.len() {
                assert(s[j] == x);
            }
        }
    }
}

/// Appending a value that does not occur keeps a sequence free of
/// duplicates.
pub proof fn lemma_push_fresh(s: Seq<usize>, v: usize)
    requires
        s.no_duplicates(),
        !s.contains(v),
    ensures
        s.push(v).no_duplicates(),
        s.is_prefix_of(s.push(v)),
{
    let t = s.push(v);
    assert forall|i: int, j: int| 0 <= i < t.len() && 0 <= j < t.len() && i != j implies t[i]
        != t[j] by {
        if i < s.len() {
            assert(s.contains(t[i]));
        }
        if j < s.len() {
            assert(s.contains(t[j]));
        }
    }
}

/// Being a prefix is transitive.
pub proof fn lemma_prefix_chain(a: Seq<usize>, b: Seq<usize>, c: Seq<usize>)
    requires
        a.is_prefix_of(b),
        b.is_prefix_of(c),
    ensures
        a.is_prefix_of(c),
{
    assert forall|i: int| 0 <= i < a.len() implies a[i] == c[i] by {
        assert(a[i] == b[i]);
    }
}

/// Looks for a cycle by depth-first search from every node in turn,
/// lowest number first.
///
/// Returns the node at which the search first meets its own path, which
/// lies on a cycle, or `None` when the graph is a DAG.
pub fn find_cycle(edges: &Vec<Vec<usize>>) -> (r: Option<usize>)
    requires
        well_formed(adj_of(edges)),
    ensures
        match r {
            Some(w) => w < edges.len() && on_cycle(adj_of(edges), w),
            None => is_dag(adj_of(edges)),
        },
        r == first_cycle_node(adj_of(edges)),
{
    let ghost adj = adj_of(edges);
    let n = edges.len();
    let mut visited: HashSet<usize> = HashSet::new();
    let mut stack: HashSet<usize> = HashSet::new();
    let ghost mut done: Seq<usize> = Seq::empty();
    let ghost empty: Seq<usize> = Seq::empty();
    proof {
        assert(search_state(adj, visited@, stack@, empty, done));
    }
    let mut v: usize = 0;
    while v < n
        invariant
            n == edges.len(),
            adj == adj_of(edges),
            well_formed(adj),
            empty == Seq::<usize>::empty(),
            v <= n,
            search_state(adj, visited@, stack@, empty, done),
            forall|x: usize| x < v ==> #[trigger] done.contains(x),
            scan(adj, v as nat) == (None::<usize>, done),
        decreases n - v,
    {
        let (found, Ghost(next)) = explore(
            edges,
            v,
            &mut visited,
            &mut stack,
            Ghost(empty),
            Ghost(done),
        );
        proof {
            assert(scan(adj, (v + 1) as nat) == (found, next));
        }
        if let Some(w) = found {
            proof {
                lemma_scan_found(adj, (v + 1) as nat, n as nat);
            }
            return Some(w);
        }
        proof {
            assert forall|x: usize| x < v + 1 implies #[trigger] next.contains(x) by {
                if x < v {
                    assert(done.contains(x));
                    let q = choose|q: int| 0 <= q < done.len() && done[q] == x;
                    assert(next[q] == done[q]);
                }
            }
            done = next;
        }
        v += 1;
    }
    proof {
        lemma_finish_order_ranks(adj, done);
    }
    None
}


/// Depth-first post-order from `v`: the nodes in `seen` followed by those
/// first reached from `v`, each after all of its children. Children are
/// taken in declaration order. `depth` bounds how far the search descends;
/// the node count is enough for any graph without a cycle.
pub open spec fn visit(adj: Seq<Seq<usize>>, v: usize, seen: Seq<usize>, depth: nat) -> Seq<usize>
    decreases depth, 0nat,
{
    if seen.contains(v) || depth == 0 || v >= adj.len() {
        seen
    } else {
        visit_all(adj, adj[v as int], seen, (depth - 1) as nat).push(v)
    }
}

/// Depth-first post-order from each node of `vs` in turn.
pub open spec fn visit_all(
    adj: Seq<Seq<usize>>,
    vs: Seq<usize>,
    seen: Seq<usize>,
    depth: nat,
) -> Seq<usize>
    decreases depth, vs.len() + 1,
{
    if vs.len() == 0 {
        seen
    } else {
        visit(adj, vs.last(), visit_all(adj, vs.drop_last(), seen, depth), depth)
    }
}

/// The depth-first post-order of every node reachable from `starts`.
pub open spec fn post_order(adj: Seq<Seq<usize>>, starts: Seq<usize>) -> Seq<usize> {
    visit_all(adj, starts, Seq::empty(), adj.len())
}

/// `flags` marks exactly the nodes that occur in `order`.
pub open spec fn flags_match(flags: Seq<bool>, order: Seq<usize>) -> bool {
    forall|x: usize| x < flags.len() ==> (flags[x as int] <==> #[trigger] order.contains(x))
}

fn visit_node(
    edges: &Vec<Vec<usize>>,
    v: usize,
    flags: &mut Vec<bool>,
    order: &mut Vec<usize>,
    depth: usize,
)
    requires
        well_formed(adj_of(edges)),
        v < edges.len(),
        old(flags).len() == edges.len(),
        flags_match(old(flags)@, old(order)@),
    ensures
        final(order)@ == visit(adj_of(edges), v, old(order)@, depth as nat),
        final(flags).len() == edges.len(),
        flags_match(final(flags)@, final(order)@),
    decreases depth,
{
    let ghost adj = adj_of(edges);
    let ghost seen = order@;
    proof {
        assert(flags@[v as int] <==> order@.contains(v));
    }
    if depth == 0 || flags[v] {
        return ;
    }
    let mut k: usize = 0;
    while k < edges[v].len()
        invariant
            well_formed(adj_of(edges)),
            adj == adj_of(edges),
            v < edges.len(),
            depth > 0,
            flags.len() == edges.len(),
            flags_match(flags@, order@),
            k <= edges[v as int].len(),
            order@ == visit_all(adj, adj[v as int].take(k as int), seen, (depth - 1) as nat),
        decreases edges[v as int].len() - k,
    {
        let c = edges[v][k];
        proof {
            assert(adj[v as int][k as int] == c);
            let next = adj[v as int].take(k + 1);
            assert(next.last() == c);
            assert(next.drop_last() =~= adj[v as int].take(k as int));
        }
        visit_node(edges, c, flags, order, depth - 1);
        k += 1;
    }
    proof {
        assert(adj[v as int].take(k as int) =~= adj[v as int]);
    }
    let ghost inner = order@;
    let ghost marked = flags@;
    order.push(v);
    flags.set(v, true);
    proof {
        assert forall|x: usize| x < flags.len() implies (flags@[x as int]
            <==> #[trigger] order@.contains(x)) by {
            if x == v {
                assert(order@[inner.len() as int] == v);
            } else {
                assert(marked[x as int] <==> inner.contains(x));
                if inner.contains(x) {
                    let j = choose|j: int| 0 <= j < inner.len() && inner[j] == x;
                    assert(order@[j] == x);
                }
                if order@.contains(x) {
                    let j = choose|j: int| 0 <= j < order@.len() && order@[j] == x;
                    assert(inner[j] == x);
                }
            }
        }
    }
}

/// Lists every node reachable from `starts` in depth-first post-order:
/// each node once, after all of its children.
pub fn post_order_from(edges: &Vec<Vec<usize>>, starts: &Vec<usize>) -> (order: Vec<usize>)
    requires
        well_formed(adj_of(edges)),
        all_below(starts@, edges.len() as nat),
    ensures
        order@ == post_order(adj_of(edges), starts@),
{
    let ghost adj = adj_of(edges);
    let n = edges.len();
    let mut flags: Vec<bool> = Vec::new();
    let mut i: usize = 0;
    while i < n
        invariant
            i <= n,
            flags.len() == i,
            forall|j: int| 0 <= j < i ==> !flags@[j],
        decreases n - i,
    {
        flags.push(false);
        i += 1;
    }
    let mut order: Vec<usize> = Vec::new();
    let mut k: usize = 0;
    while k < starts.len()
        invariant
            n == edges.len(),
            adj == adj_of(edges),
            well_formed(adj),
            all_below(starts@, n as nat),
            flags.len() == n,
            flags_match(flags@, order@),
            k <= starts.len(),
            order@ == visit_all(adj, starts@.take(k as int), Seq::empty(), n as nat),
        decreases starts.len() - k,
    {
        let v = starts[k];
        proof {
            let next = starts@.take(k + 1);
            assert(next.last() == v);
            assert(next.drop_last() =~= starts@.take(k as int));
        }
        visit_node(edges, v, &mut flags, &mut order, n);
        k += 1;
    }
    proof {
        assert(starts@.take(k as int) =~= starts@);
    }
    order
}

/// `order` lists distinct nodes, each after all of its children.
pub open spec fn closed_order(adj: Seq<Seq<usize>>, order: Seq<usize>) -> bool {
    &&& order.no_duplicates()
    &&& all_below(order, adj.len())
    &&& children_first(adj, order)
}

/// `x` can be reached from one of the nodes of `vs`.
pub open spec fn reached_from(adj: Seq<Seq<usize>>, vs: Seq<usize>, x: usize) -> bool {
    exists|k: int| 0 <= k < vs.len() && reaches(adj, #[trigger] vs[k], x)
}

/// A path can be extended backwards along an edge.
pub proof fn lemma_reach_step(adj: Seq<Seq<usize>>, a: usize, b: usize, c: usize)
    requires
        has_edge(adj, a, b),
        reaches(adj, b, c),
    ensures
        reaches(adj, a, c),
{
    let p = choose|p: Seq<usize>| is_path(adj, p) && p.first() == b && p.last() == c;
    let q = seq![a] + p;
    assert(is_path(adj, q)) by {
        assert forall|k: int| 0 <= k < q.len() - 1 implies has_edge(adj, #[trigger] q[k], q[k + 1]) by {
            if k == 0 {
                assert(q[0] == a && q[1] == p[0]);
            } else {
                assert(q[k] == p[k - 1]);
                assert(q[k + 1] == p[k - 1 + 1]);
            }
        }
    }
    assert(q.first() == a && q.last() == c);
}

/// A path can be extended forwards along an edge.
pub proof fn lemma_reach_extend(adj: Seq<Seq<usize>>, a: usize, b: usize, c: usize)
    requires
        reaches(adj, a, b),
        has_edge(adj, b, c),
    ensures
        reaches(adj, a, c),
{
    let p = choose|p: Seq<usize>| is_path(adj, p) && p.first() == a && p.last() == b;
    let q = p.push(c);
    assert(is_path(adj, q)) by {
        assert forall|k: int| 0 <= k < q.len() - 1 implies has_edge(adj, #[trigger] q[k], q[k + 1]) by {
            if k < p.len() - 1 {
                assert(q[k] == p[k]);
                assert(q[k + 1] == p[k + 1]);
            } else {
                assert(q[k] == b);
            }
        }
        assert(q[0] == p[0]);
    }
    assert(q.first() == a && q.last() == c);
}

/// Every node reaches itself.
pub proof fn lemma_reach_self(adj: Seq<Seq<usize>>, v: usize)
    requires
        v < adj.len(),
    ensures
        reaches(adj, v, v),
{
    let p = seq![v];
    assert(is_path(adj, p));
    assert(p.first() == v && p.last() == v);
}

/// A children-first order that holds a node holds all that the node reaches.
pub proof fn lemma_closed_holds_reachable(
    adj: Seq<Seq<usize>>,
    order: Seq<usize>,
    a: usize,
    b: usize,
)
    requires
        well_formed(adj),
        closed_order(adj, order),
        order.contains(a),
        reaches(adj, a, b),
    ensures
        order.contains(b),
{
    let p = choose|p: Seq<usize>| is_path(adj, p) && p.first() == a && p.last() == b;
    lemma_closed_holds_path(adj, order, p, p.len() - 1);
}

proof fn lemma_closed_holds_path(adj: Seq<Seq<usize>>, order: Seq<usize>, p: Seq<usize>, k: int)
    requires
        well_formed(adj),
        closed_order(adj, order),
        is_path(adj, p),
        order.contains(p[0]),
        0 <= k < p.len(),
    ensures
        order.contains(p[k]),
    decreases k,
{
    if k > 0 {
        lemma_closed_holds_path(adj, order, p, k - 1);
        let a = p[k - 1];
        assert(has_edge(adj, p[k - 1], p[k - 1 + 1]));
        let at = choose|i: int| 0 <= i < order.len() && order[i] == a;
        let j = choose|j: int| 0 <= j < adj[a as int].len() && adj[a as int][j] == p[k];
        assert(stands_before(order, at, adj[order[at] as int][j]));
    }
}

/// What a depth-first visit adds to a children-first order: the node
/// itself and nodes it reaches, again children first.
pub proof fn lemma_visit(
    adj: Seq<Seq<usize>>,
    rank: Seq<int>,
    v: usize,
    seen: Seq<usize>,
    depth: nat,
)
    requires
        well_formed(adj),
        ranked(adj, rank),
        v < adj.len(),
        closed_order(adj, seen),
        depth > rank[v as int],
    ensures
        closed_order(adj, visit(adj, v, seen, depth)),
        seen.is_prefix_of(visit(adj, v, seen, depth)),
        visit(adj, v, seen, depth).contains(v),
        forall|x: usize| #[trigger]
            visit(adj, v, seen, depth).contains(x) ==> seen.contains(x) || reaches(adj, v, x),
    decreases depth, 0nat,
{
    let r = visit(adj, v, seen, depth);
    if seen.contains(v) {
    } else {
        let kids = adj[v as int];
        let d = (depth - 1) as nat;
        assert forall|k: int| 0 <= k < kids.len() implies d > rank[(#[trigger] kids[k]) as int]
            && kids[k] < adj.len() by {
            assert(rank[adj[v as int][k] as int] < rank[v as int]);
        }
        lemma_visit_all(adj, rank, kids, seen, d);
        let inner = visit_all(adj, kids, seen, d);
        assert(r == inner.push(v));
        if inner.contains(v) {
            assert(reached_from(adj, kids, v));
            let k = choose|k: int| 0 <= k < kids.len() && reaches(adj, #[trigger] kids[k], v);
            let p = choose|p: Seq<usize>| is_path(adj, p) && p.first() == kids[k] && p.last() == v;
            lemma_rank_falls(adj, rank, p, p.len() - 1);
            assert(rank[adj[v as int][k] as int] < rank[v as int]);
            assert(false);
        }
        lemma_push_fresh(inner, v);
        assert(r[inner.len() as int] == v);
        lemma_prefix_chain(seen, inner, r);
        assert(children_first(adj, r)) by {
            assert forall|p: int, j: int|
                0 <= p < r.len() && r[p] < adj.len() && 0 <= j < adj[r[p] as int].len()
                implies stands_before(r, p, #[trigger] adj[r[p] as int][j]) by {
                let c = adj[r[p] as int][j];
                if p < inner.len() {
                    assert(r[p] == inner[p]);
                    assert(stands_before(inner, p, adj[inner[p] as int][j]));
                    let q = choose|q: int| 0 <= q < p && q < inner.len() && inner[q] == c;
                    assert(r[q] == inner[q]);
                } else {
                    assert(inner.contains(kids[j]));
                    let q = choose|q: int| 0 <= q < inner.len() && inner[q] == c;
                    assert(r[q] == inner[q]);
                }
            }
        }
        assert(all_below(r, adj.len()));
        assert forall|x: usize| #[trigger] r.contains(x) implies seen.contains(x) || reaches(
            adj,
            v,
            x,
        ) by {
            if x == v {
                lemma_reach_self(adj, v);
            } else {
                let q = choose|q: int| 0 <= q < r.len() && r[q] == x;
                assert(inner[q] == x);
                assert(inner.contains(x));
                if !seen.contains(x) {
                    assert(reached_from(adj, kids, x));
                    let k = choose|k: int| 0 <= k < kids.len() && reaches(adj, #[trigger] kids[k], x);
                    assert(adj[v as int][k] == kids[k]);
                    assert(has_edge(adj, v, kids[k]));
                    lemma_reach_step(adj, v, kids[k], x);
                }
            }
        }
    }
}

/// What depth-first visits from each node of `vs` add to a children-first
/// order.
pub proof fn lemma_visit_all(
    adj: Seq<Seq<usize>>,
    rank: Seq<int>,
    vs: Seq<usize>,
    seen: Seq<usize>,
    depth: nat,
)
    requires
        well_formed(adj),
        ranked(adj, rank),
        closed_order(adj, seen),
        forall|k: int|
            0 <= k < vs.len() ==> (#[trigger] vs[k]) < adj.len() && depth > rank[vs[k] as int],
    ensures
        closed_order(adj, visit_all(adj, vs, seen, depth)),
        seen.is_prefix_of(visit_all(adj, vs, seen, depth)),
        forall|k: int| 0 <= k < vs.len() ==> visit_all(adj, vs, seen, depth).contains(#[trigger] vs[k]),
        forall|x: usize| #[trigger]
            visit_all(adj, vs, seen, depth).contains(x) ==> seen.contains(x) || reached_from(
                adj,
                vs,
                x,
            ),
    decreases depth, vs.len() + 1,
{
    let r = visit_all(adj, vs, seen, depth);
    if vs.len() == 0 {
    } else {
        let front = vs.drop_last();
        let v = vs.last();
        assert forall|k: int| 0 <= k < front.len() implies (#[trigger] front[k]) < adj.len()
            && depth > rank[front[k] as int] by {
            assert(front[k] == vs[k]);
        }
        lemma_visit_all(adj, rank, front, seen, depth);
        let mid = visit_all(adj, front, seen, depth);
        lemma_visit(adj, rank, v, mid, depth);
        assert(r == visit(adj, v, mid, depth));
        lemma_prefix_chain(seen, mid, r);
        assert forall|k: int| 0 <= k < vs.len() implies r.contains(#[trigger] vs[k]) by {
            if k < front.len() {
                assert(front[k] == vs[k]);
                assert(mid.contains(front[k]));
                let q = choose|q: int| 0 <= q < mid.len() && mid[q] == vs[k];
                assert(r[q] == mid[q]);
            }
        }
        assert forall|x: usize| #[trigger] r.contains(x) implies seen.contains(x) || reached_from(
            adj,
            vs,
            x,
        ) by {
            if mid.contains(x) {
                if !seen.contains(x) {
                    assert(reached_from(adj, front, x));
                    let k = choose|k: int| 0 <= k < front.len() && reaches(adj, #[trigger] front[k], x);
                    assert(front[k] == vs[k]);
                }
            } else {
                assert(reaches(adj, v, x));
                assert(vs[vs.len() - 1] == v);
            }
        }
    }
}


/// `roots` lists, in ascending order, exactly the nodes without a parent.
pub open spec fn is_root_seq(adj: Seq<Seq<usize>>, roots: Seq<usize>) -> bool {
    &&& forall|i: int, j: int| 0 <= i < j < roots.len() ==> roots[i] < roots[j]
    &&& forall|x: usize| #[trigger] roots.contains(x) <==> x < adj.len() && !has_parent(adj, x)
}

/// Some edge among the rows before `i`, or among the first `j` entries of
/// row `i`, leads to `x`.
pub open spec fn pointed_upto(adj: Seq<Seq<usize>>, i: int, j: int, x: usize) -> bool {
    exists|a: int, k: int|
        0 <= a < adj.len() && 0 <= k < adj[a].len() && (a < i || (a == i && k < j))
            && #[trigger] adj[a][k] == x
}

/// Lists the nodes that no edge leads to, in ascending order.
pub fn find_roots(edges: &Vec<Vec<usize>>) -> (roots: Vec<usize>)
    requires
        well_formed(adj_of(edges)),
    ensures
        is_root_seq(adj_of(edges), roots@),
{
    let ghost adj = adj_of(edges);
    let n = edges.len();
    let mut left: HashSet<usize> = HashSet::new();
    let mut i: usize = 0;
    while i < n
        invariant
            i <= n,
            forall|x: usize| x < i ==> left@.contains(x),
        decreases n - i,
    {
        left.insert(i);
        i += 1;
    }
    let mut a: usize = 0;
    while a < n
        invariant
            n == edges.len(),
            adj == adj_of(edges),
            well_formed(adj),
            a <= n,
            forall|x: usize| x < n ==> (!left@.contains(x) <==> pointed_upto(adj, a as int, 0, x)),
        decreases n - a,
    {
        let mut k: usize = 0;
        while k < edges[a].len()
            invariant
                n == edges.len(),
                adj == adj_of(edges),
                well_formed(adj),
                a < n,
                    k <= edges[a as int].len(),
                forall|x: usize|
                    x < n ==> (!left@.contains(x) <==> pointed_upto(adj, a as int, k as int, x)),
            decreases edges[a as int].len() - k,
        {
            let c = edges[a][k];
            let ghost before = left@;
            proof {
                assert(adj[a as int][k as int] == c);
            }
            left.remove(&c);
            proof {
                assert forall|x: usize| x < n implies (!left@.contains(x) <==> pointed_upto(
                    adj,
                    a as int,
                    k + 1,
                    x,
                )) by {
                    if x == c {
                        assert(adj[a as int][k as int] == x);
                    } else {
                        assert(!before.contains(x) <==> pointed_upto(adj, a as int, k as int, x));
                        if pointed_upto(adj, a as int, k + 1, x) {
                            let (a2, k2) = choose|a2: int, k2: int|
                                0 <= a2 < adj.len() && 0 <= k2 < adj[a2].len() && (a2 < a || (a2
                                    == a && k2 < k + 1)) && #[trigger] adj[a2][k2] == x;
                            assert(a2 < a || (a2 == a && k2 < k));
                        }
                        if pointed_upto(adj, a as int, k as int, x) {
                            let (a2, k2) = choose|a2: int, k2: int|
                                0 <= a2 < adj.len() && 0 <= k2 < adj[a2].len() && (a2 < a || (a2
                                    == a && k2 < k)) && #[trigger] adj[a2][k2] == x;
                            assert(a2 < a || (a2 == a && k2 < k + 1));
                        }
                    }
                }
            }
            k += 1;
        }
        proof {
            assert forall|x: usize| x < n implies (!left@.contains(x) <==> pointed_upto(
                adj,
                a + 1,
                0,
                x,
            )) by {
                if pointed_upto(adj, a + 1, 0, x) {
                    let (a2, k2) = choose|a2: int, k2: int|
                        0 <= a2 < adj.len() && 0 <= k2 < adj[a2].len() && (a2 < a + 1 || (a2 == a
                            + 1 && k2 < 0)) && #[trigger] adj[a2][k2] == x;
                    assert(a2 < a || (a2 == a && k2 < k));
                }
                if pointed_upto(adj, a as int, k as int, x) {
                    let (a2, k2) = choose|a2: int, k2: int|
                        0 <= a2 < adj.len() && 0 <= k2 < adj[a2].len() && (a2 < a || (a2 == a
                            && k2 < k)) && #[trigger] adj[a2][k2] == x;
                    assert(a2 < a + 1);
                }
            }
        }
        a += 1;
    }
    proof {
        assert forall|x: usize| x < n implies (!left@.contains(x) <==> has_parent(adj, x)) by {
            if has_parent(adj, x) {
                let p = choose|p: usize| has_edge(adj, p, x);
                let k = choose|k: int| 0 <= k < adj[p as int].len() && adj[p as int][k] == x;
                assert(adj[p as int][k] == x);
                assert(pointed_upto(adj, n as int, 0, x));
            }
            if pointed_upto(adj, n as int, 0, x) {
                let (a2, k2) = choose|a2: int, k2: int|
                    0 <= a2 < adj.len() && 0 <= k2 < adj[a2].len() && (a2 < n || (a2 == n && k2
                        < 0)) && #[trigger] adj[a2][k2] == x;
                assert(has_edge(adj, a2 as usize, x));
            }
        }
    }
    let mut roots: Vec<usize> = Vec::new();
    let mut x: usize = 0;
    while x < n
        invariant
            n == edges.len(),
            adj == adj_of(edges),
            x <= n,
            forall|y: usize| y < n ==> (!left@.contains(y) <==> has_parent(adj, y)),
            forall|i: int, j: int| 0 <= i < j < roots.len() ==> roots[i] < roots[j],
            forall|y: usize| #[trigger] roots@.contains(y) <==> y < x && !has_parent(adj, y),
        decreases n - x,
    {
        if left.contains(&x) {
            let ghost before = roots@;
            roots.push(x);
            proof {
                assert(roots@[before.len() as int] == x);
                assert forall|i: int, j: int| 0 <= i < j < roots.len() implies roots[i]
                    < roots[j] by {
                    if j == before.len() {
                        assert(before.contains(before[i]));
                    }
                }
                assert forall|y: usize| #[trigger] roots@.contains(y) <==> y < x + 1 && !has_parent(
                    adj,
                    y,
                ) by {
                    if roots@.contains(y) {
                        let q = choose|q: int| 0 <= q < roots@.len() && roots@[q] == y;
                        if q < before.len() {
                            assert(before.contains(y));
                        }
                    }
                    if y < x && !has_parent(adj, y) {
                        assert(before.contains(y));
                        let q = choose|q: int| 0 <= q < before.len() && before[q] == y;
                        assert(roots@[q] == y);
                    }
                }
            }
        }
        x += 1;
    }
    roots
}

/// In a DAG every node is reached from a node without a parent.
pub proof fn lemma_root_above(adj: Seq<Seq<usize>>, rank: Seq<int>, v: usize) -> (r: usize)
    requires
        well_formed(adj),
        ranked(adj, rank),
        v < adj.len(),
    ensures
        r < adj.len(),
        !has_parent(adj, r),
        reaches(adj, r, v),
    decreases adj.len() - rank[v as int],
{
    if has_parent(adj, v) {
        let a = choose|a: usize| has_edge(adj, a, v);
        let k = choose|k: int| 0 <= k < adj[a as int].len() && adj[a as int][k] == v;
        assert(rank[adj[a as int][k] as int] < rank[a as int]);
        let r = lemma_root_above(adj, rank, a);
        lemma_reach_extend(adj, r, a, v);
        r
    } else {
        lemma_reach_self(adj, v);
        v
    }
}

/// Distinct indices that include every index below `n` are exactly `n`
/// many.
pub proof fn lemma_full_order_len(s: Seq<usize>, n: nat)
    requires
        s.no_duplicates(),
        all_below(s, n),
        forall|x: usize| x < n ==> #[trigger] s.contains(x),
        n <= usize::MAX,
    ensures
        s.len() == n,
{
    lemma_unique_bounded(s, n);
    let pos = Seq::new(n, |i: int| (choose|q: int| 0 <= q < s.len() && s[q] == i as usize) as usize);
    assert forall|i: int| 0 <= i < n implies (#[trigger] pos[i]) < s.len() && s[pos[i] as int]
        == i as usize by {
        assert(s.contains(i as usize));
    }
    assert(pos.no_duplicates()) by {
        assert forall|i: int, j: int| 0 <= i < pos.len() && 0 <= j < pos.len() && i != j implies pos[i]
            != pos[j] by {
            assert(s[pos[i] as int] == i as usize);
            assert(s[pos[j] as int] == j as usize);
        }
    }
    assert(all_below(pos, s.len()));
    lemma_unique_bounded(pos, s.len());
}

/// The post-order from the roots of a DAG lists every node exactly once,
/// each after all of its children.
pub proof fn lemma_post_order_of_roots(adj: Seq<Seq<usize>>, roots: Seq<usize>)
    requires
        is_dag(adj),
        is_root_seq(adj, roots),
        adj.len() <= usize::MAX,
    ensures
        closed_order(adj, post_order(adj, roots)),
        post_order(adj, roots).len() == adj.len(),
        forall|x: usize| x < adj.len() ==> #[trigger] post_order(adj, roots).contains(x),
{
    let rank = choose|rank: Seq<int>| ranked(adj, rank);
    let order = post_order(adj, roots);
    let empty = Seq::<usize>::empty();
    assert(closed_order(adj, empty));
    assert forall|k: int| 0 <= k < roots.len() implies (#[trigger] roots[k]) < adj.len()
        && adj.len() > rank[roots[k] as int] by {
        assert(roots.contains(roots[k]));
    }
    lemma_visit_all(adj, rank, roots, empty, adj.len());
    assert forall|x: usize| x < adj.len() implies #[trigger] order.contains(x) by {
        let r = lemma_root_above(adj, rank, x);
        assert(roots.contains(r));
        let k = choose|k: int| 0 <= k < roots.len() && roots[k] == r;
        assert(order.contains(roots[k]));
        lemma_closed_holds_reachable(adj, order, r, x);
    }
    lemma_full_order_len(order, adj.len());
}

/// The post-order from one node of a DAG lists exactly the nodes that the
/// node reaches, each once and after all of its children.
pub proof fn lemma_post_order_of_node(adj: Seq<Seq<usize>>, v: usize)
    requires
        is_dag(adj),
        v < adj.len(),
    ensures
        closed_order(adj, post_order(adj, seq![v])),
        forall|x: usize| #[trigger] post_order(adj, seq![v]).contains(x) <==> reaches(adj, v, x),
{
    let rank = choose|rank: Seq<int>| ranked(adj, rank);
    let starts = seq![v];
    let order = post_order(adj, starts);
    let empty = Seq::<usize>::empty();
    assert(closed_order(adj, empty));
    assert(starts[0] == v);
    lemma_visit_all(adj, rank, starts, empty, adj.len());
    assert(order.contains(starts[0]));
    assert forall|x: usize| #[trigger] order.contains(x) <==> reaches(adj, v, x) by {
        if order.contains(x) {
            assert(reached_from(adj, starts, x));
        }
        if reaches(adj, v, x) {
            lemma_closed_holds_reachable(adj, order, v, x);
        }
    }
}


/// A DAG stays one when a node is added whose edges all lead to nodes that
/// were there before.
pub proof fn lemma_push_row_dag(adj: Seq<Seq<usize>>, row: Seq<usize>)
    requires
        is_dag(adj),
        all_below(row, adj.len()),
    ensures
        is_dag(adj.push(row)),
{
    let rank = choose|rank: Seq<int>| ranked(adj, rank);
    let n = adj.len() as int;
    let adj2 = adj.push(row);
    let rank2 = rank.push(n);
    assert forall|i: int, k: int| 0 <= i < adj2.len() && 0 <= k < adj2[i].len() implies (
    #[trigger] adj2[i][k]) < adj2.len() && rank2[adj2[i][k] as int] < rank2[i] by {
        if i < n {
            assert(adj2[i] == adj[i]);
            assert(adj[i][k] < adj.len());
            assert(rank[adj[i][k] as int] < rank[i]);
        } else {
            assert(adj2[i] == row);
            assert(row[k] < n);
            assert(0 <= rank[row[k] as int] < n);
        }
    }
    assert forall|i: int| 0 <= i < adj2.len() implies 0 <= #[trigger] rank2[i] < adj2.len() by {
        if i < n {
            assert(0 <= rank[i] < n);
        }
    }
    assert(ranked(adj2, rank2));
}

/// The roots of a graph after a node with the edges `row` is added: the
/// old roots that `row` does not point at, then the new node.
pub(crate) fn roots_with_row(
    roots: &Vec<usize>,
    row: &Vec<usize>,
    n: usize,
    Ghost(adj): Ghost<Seq<Seq<usize>>>,
) -> (next: Vec<usize>)
    requires
        well_formed(adj),
        adj.len() == n,
        is_root_seq(adj, roots@),
        all_below(row@, n as nat),
    ensures
        is_root_seq(adj.push(row@), next@),
{
    let ghost adj2 = adj.push(row@);
    proof {
        assert forall|a: usize, x: usize| has_edge(adj2, a, x) <==> (has_edge(adj, a, x) || (a == n
            && row@.contains(x))) by {
            if a < n {
                assert(adj2[a as int] == adj[a as int]);
            } else if a == n {
                assert(adj2[a as int] == row@);
            }
        }
        assert forall|x: usize| has_parent(adj2, x) <==> (has_parent(adj, x) || row@.contains(
            x,
        )) by {
            if has_parent(adj2, x) {
                let a = choose|a: usize| has_edge(adj2, a, x);
                assert(has_edge(adj, a, x) || (a == n && row@.contains(x)));
            }
            if has_parent(adj, x) {
                let a = choose|a: usize| has_edge(adj, a, x);
                assert(has_edge(adj2, a, x));
            }
            if row@.contains(x) {
                assert(has_edge(adj2, n, x));
            }
        }
        assert(!has_parent(adj2, n)) by {
            if has_parent(adj, n) {
                let a = choose|a: usize| has_edge(adj, a, n);
                let k = choose|k: int| 0 <= k < adj[a as int].len() && adj[a as int][k] == n;
                assert(adj[a as int][k] < adj.len());
            }
            if row@.contains(n) {
                let k = choose|k: int| 0 <= k < row@.len() && row@[k] == n;
                assert(row@[k] < n);
            }
        }
    }
    let mut next: Vec<usize> = Vec::new();
    let mut i: usize = 0;
    while i < roots.len()
        invariant
            i <= roots.len(),
            adj.len() == n,
            adj2 == adj.push(row@),
            is_root_seq(adj, roots@),
            forall|x: usize|
                has_parent(adj2, x) <==> (has_parent(adj, x) || row@.contains(x)),
            forall|a: int, b: int| 0 <= a < b < next.len() ==> next[a] < next[b],
            forall|x: usize| #[trigger]
                next@.contains(x) <==> (exists|q: int| 0 <= q < i && roots@[q] == x)
                    && !row@.contains(x),
            forall|a: int| 0 <= a < next.len() && i < roots.len() ==> next[a] < roots[i as int],
            forall|a: int| 0 <= a < next.len() ==> next[a] < n,
        decreases roots.len() - i,
    {
        let r = roots[i];
        let ghost before = next@;
        proof {
            assert(roots@.contains(r));
        }
        if !row_has(row, r) {
            next.push(r);
            proof {
                assert(next@[before.len() as int] == r);
                assert forall|x: usize| #[trigger]
                    next@.contains(x) <==> (exists|q: int| 0 <= q < i + 1 && roots@[q] == x)
                        && !row@.contains(x) by {
                    if next@.contains(x) {
                        let q = choose|q: int| 0 <= q < next@.len() && next@[q] == x;
                        if q < before.len() {
                            assert(before.contains(x));
                            let w = choose|w: int| 0 <= w < i && roots@[w] == x;
                            assert(0 <= w < i + 1 && roots@[w] == x);
                        } else {
                            assert(roots@[i as int] == x);
                        }
                    }
                    if (exists|q: int| 0 <= q < i + 1 && roots@[q] == x) && !row@.contains(x) {
                        let w = choose|w: int| 0 <= w < i + 1 && roots@[w] == x;
                        if w < i {
                            assert(before.contains(x));
                            let q = choose|q: int| 0 <= q < before.len() && before[q] == x;
                            assert(next@[q] == x);
                        }
                    }
                }
            }
        } else {
            proof {
                assert forall|x: usize| #[trigger]
                    next@.contains(x) <==> (exists|q: int| 0 <= q < i + 1 && roots@[q] == x)
                        && !row@.contains(x) by {
                    if next@.contains(x) {
                        let w = choose|w: int| 0 <= w < i && roots@[w] == x;
                        assert(0 <= w < i + 1 && roots@[w] == x);
                    }
                    if (exists|q: int| 0 <= q < i + 1 && roots@[q] == x) && !row@.contains(x) {
                        let w = choose|w: int| 0 <= w < i + 1 && roots@[w] == x;
                        assert(w < i);
                    }
                }
            }
        }
        proof {
            if i + 1 < roots.len() {
                assert(roots[i as int] < roots[i + 1]);
            }
        }
        i += 1;
    }
    let ghost kept = next@;
    next.push(n);
    proof {
        assert(next@[kept.len() as int] == n);
        assert forall|x: usize| #[trigger]
            next@.contains(x) <==> x < adj2.len() && !has_parent(adj2, x) by {
            if next@.contains(x) {
                let q = choose|q: int| 0 <= q < next@.len() && next@[q] == x;
                if q < kept.len() {
                    assert(kept.contains(x));
                    let w = choose|w: int| 0 <= w < i && roots@[w] == x;
                    assert(roots@.contains(x));
                }
            }
            if x < adj2.len() && !has_parent(adj2, x) {
                if x < n {
                    assert(roots@.contains(x));
                    let w = choose|w: int| 0 <= w < roots@.len() && roots@[w] == x;
                    assert(kept.contains(x));
                    let q = choose|q: int| 0 <= q < kept.len() && kept[q] == x;
                    assert(next@[q] == x);
                }
            }
        }
    }
    next
}

/// Whether `x` occurs in `row`.
pub fn row_has(row: &Vec<usize>, x: usize) -> (b: bool)
    ensures
        b == row@.contains(x),
{
    let mut k: usize = 0;
    while k < row.len()
        invariant
            k <= row.len(),
            forall|j: int| 0 <= j < k ==> row@[j] != x,
        decreases row.len() - k,
    {
        if row[k] == x {
            return true;
        }
        k += 1;
    }
    false
}


/// `perm` lists every node index below `n` exactly once.
pub open spec fn is_permutation(perm: Seq<usize>, n: nat) -> bool {
    &&& perm.len() == n
    &&& perm.no_duplicates()
    &&& all_below(perm, n)
}

/// A permutation of the indices below `n` holds each of them.
pub proof fn lemma_permutation_covers(perm: Seq<usize>, n: nat, x: usize)
    requires
        is_permutation(perm, n),
        x < n,
    ensures
        perm.contains(x),
{
    if !perm.contains(x) {
        let shifted = Seq::new(
            perm.len(),
            |i: int|
                if perm[i] > x {
                    (perm[i] - 1) as usize
                } else {
                    perm[i]
                },
        );
        assert forall|i: int| 0 <= i < shifted.len() implies (#[trigger] shifted[i]) < (n
            - 1) as nat by {
            assert(perm[i] < n);
            assert(perm.contains(perm[i]));
        }
        assert forall|i: int, j: int|
            0 <= i < shifted.len() && 0 <= j < shifted.len() && i != j implies shifted[i]
            != shifted[j] by {
            assert(perm[i] != perm[j]);
            assert(perm.contains(perm[i]));
            assert(perm.contains(perm[j]));
        }
        lemma_unique_bounded(shifted, (n - 1) as nat);
    }
}


/// The graph with the children of every node in the reverse of their
/// declaration order.
pub open spec fn mirrored(adj: Seq<Seq<usize>>) -> Seq<Seq<usize>> {
    Seq::new(adj.len(), |i: int| adj[i].reverse())
}

/// The edge lists of `edges`, each in reverse order.
pub fn mirror(edges: &Vec<Vec<usize>>) -> (m: Vec<Vec<usize>>)
    ensures
        adj_of(&m) == mirrored(adj_of(edges)),
{
    let mut m: Vec<Vec<usize>> = Vec::new();
    let mut i: usize = 0;
    while i < edges.len()
        invariant
            i <= edges.len(),
            m@.len() == i,
            forall|a: int| 0 <= a < i ==> (#[trigger] m@[a])@ == edges@[a]@.reverse(),
        decreases edges.len() - i,
    {
        let row = &edges[i];
        let mut back: Vec<usize> = Vec::new();
        let mut k: usize = row.len();
        while k > 0
            invariant
                k <= row.len(),
                back@.len() == row.len() - k,
                forall|j: int| 0 <= j < back@.len() ==> back@[j] == row@[row.len() - 1 - j],
            decreases k,
        {
            k -= 1;
            back.push(row[k]);
        }
        proof {
            assert(back@ =~= row@.reverse());
        }
        m.push(back);
        i += 1;
    }
    proof {
        assert(adj_of(&m) =~= mirrored(adj_of(edges)));
    }
    m
}

/// The mirrored graph has the same edges, so it is well-formed, a DAG,
/// and joins the same nodes by paths whenever the graph itself does.
pub proof fn lemma_mirrored(adj: Seq<Seq<usize>>)
    ensures
        forall|a: usize, b: usize| #[trigger] has_edge(mirrored(adj), a, b) <==> has_edge(adj, a, b),
        forall|a: usize, b: usize| #[trigger] reaches(mirrored(adj), a, b) <==> reaches(adj, a, b),
        well_formed(adj) ==> well_formed(mirrored(adj)),
        is_dag(adj) ==> is_dag(mirrored(adj)),
{
    let m = mirrored(adj);
    assert forall|a: usize, b: usize| #[trigger] has_edge(m, a, b) <==> has_edge(adj, a, b) by {
        if a < adj.len() {
            let row = adj[a as int];
            let back = m[a as int];
            assert(back == row.reverse());
            if row.contains(b) {
                let i = choose|i: int| 0 <= i < row.len() && row[i] == b;
                assert(back[row.len() - 1 - i] == b);
            }
            if back.contains(b) {
                let i = choose|i: int| 0 <= i < back.len() && back[i] == b;
                assert(row[row.len() - 1 - i] == b);
            }
        }
    }
    assert forall|p: Seq<usize>| #[trigger] is_path(m, p) <==> is_path(adj, p) by {
        if is_path(m, p) {
            assert forall|k: int| 0 <= k < p.len() - 1 implies has_edge(
                adj,
                #[trigger] p[k],
                p[k + 1],
            ) by {
                assert(has_edge(m, p[k], p[k + 1]));
            }
        }
        if is_path(adj, p) {
            assert forall|k: int| 0 <= k < p.len() - 1 implies has_edge(
                m,
                #[trigger] p[k],
                p[k + 1],
            ) by {
                assert(has_edge(adj, p[k], p[k + 1]));
            }
        }
    }
    assert forall|a: usize, b: usize| #[trigger] reaches(m, a, b) <==> reaches(adj, a, b) by {
        if reaches(m, a, b) {
            let p = choose|p: Seq<usize>| is_path(m, p) && p.first() == a && p.last() == b;
            assert(is_path(adj, p));
        }
        if reaches(adj, a, b) {
            let p = choose|p: Seq<usize>| is_path(adj, p) && p.first() == a && p.last() == b;
            assert(is_path(m, p));
        }
    }
    if well_formed(adj) {
        assert forall|i: int, k: int| 0 <= i < m.len() && 0 <= k < m[i].len() implies (
        #[trigger] m[i][k]) < m.len() by {
            assert(m[i][k] == adj[i][adj[i].len() - 1 - k]);
        }
    }
    if is_dag(adj) {
        let rank = choose|rank: Seq<int>| ranked(adj, rank);
        assert forall|i: int, k: int| 0 <= i < m.len() && 0 <= k < m[i].len() implies rank[(
        #[trigger] m[i][k]) as int] < rank[i] by {
            assert(m[i][k] == adj[i][adj[i].len() - 1 - k]);
        }
        assert(ranked(m, rank));
    }
}

} // verus!
