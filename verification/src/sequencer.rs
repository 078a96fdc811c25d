//! Topological sequencing of a dependency graph whose nodes are numbered.
//!
//! A graph is a list `g` in which `g[i]` holds the numbers of the nodes that
//! node `i` depends on. The launch order starts every node after all of its
//! dependencies and, whenever several nodes could go next, takes the one with
//! the smallest number. The graph builder numbers the stacks in ascending name
//! order, so the smallest number is the name that comes first.

use vstd::prelude::*;
use vstd::seq_lib::*;
use vstd::set_lib::*;

verus! {

/// The graph held by nested vectors, as nested sequences of node numbers.
pub open spec fn adjacency(deps: Seq<Vec<usize>>) -> Seq<Seq<int>> {
    Seq::new(deps.len(), |i: int| Seq::new(deps[i]@.len(), |k: int| deps[i]@[k] as int))
}

/// A list of node numbers as mathematical integers.
pub open spec fn numbers_of(nodes: Seq<usize>) -> Seq<int> {
    Seq::new(nodes.len(), |p: int| nodes[p] as int)
}

/// Every dependency refers to a node of the graph.
pub open spec fn closed_graph(g: Seq<Seq<int>>) -> bool {
    forall|i: int, k: int|
        0 <= i < g.len() && 0 <= k < g[i].len() ==> 0 <= #[trigger] g[i][k] < g.len()
}

/// Node `a` declares node `b` as a dependency.
pub open spec fn needs(g: Seq<Seq<int>>, a: int, b: int) -> bool {
    0 <= a < g.len() && g[a].contains(b)
}

/// All dependencies of node `i` are among `started`.
pub open spec fn ready(g: Seq<Seq<int>>, started: Seq<int>, i: int) -> bool {
    forall|k: int| 0 <= k < g[i].len() ==> started.contains(#[trigger] g[i][k])
}

/// `order` is the beginning of the launch order: it lists distinct nodes, each
/// one ready given those in front of it, and each one the smallest-numbered
/// node that was ready and not yet started at its position.
pub open spec fn is_launch_prefix(g: Seq<Seq<int>>, order: Seq<int>) -> bool {
    &&& forall|p: int| 0 <= p < order.len() ==> 0 <= #[trigger] order[p] < g.len()
    &&& order.no_duplicates()
    &&& forall|p: int| 0 <= p < order.len() ==> ready(g, order.take(p), #[trigger] order[p])
    &&& forall|p: int, i: int|
        0 <= p < order.len() && 0 <= i < order[p] && !order.take(p).contains(i) ==> !#[trigger] ready(
            g,
            order.take(p),
            i,
        )
}

/// `order` is the launch order of `g`: a launch prefix that holds every node.
pub open spec fn is_launch_order(g: Seq<Seq<int>>, order: Seq<int>) -> bool {
    &&& order.len() == g.len()
    &&& is_launch_prefix(g, order)
}

/// Each node of `path` declares the next one as a dependency.
pub open spec fn is_dependency_path(g: Seq<Seq<int>>, path: Seq<int>) -> bool {
    forall|k: int| 0 <= k < path.len() - 1 ==> needs(g, #[trigger] path[k], path[k + 1])
}

/// `path` leads from `v` along dependencies back to `v`, in at least one step.
pub open spec fn is_cycle_through(g: Seq<Seq<int>>, path: Seq<int>, v: int) -> bool {
    &&& path.len() >= 2
    &&& path[0] == v
    &&& path.last() == v
    &&& is_dependency_path(g, path)
}

/// Node `v` depends, directly or through other nodes, on itself.
pub open spec fn on_cycle(g: Seq<Seq<int>>, v: int) -> bool {
    exists|path: Seq<int>| #[trigger] is_cycle_through(g, path, v)
}

/// No node of `g` depends on itself, directly or through others.
pub open spec fn acyclic(g: Seq<Seq<int>>) -> bool {
    forall|v: int| !on_cycle(g, v)
}

/// A list of distinct numbers below `n` has at most `n` entries.
proof fn lemma_distinct_numbers_bounded(s: Seq<int>, n: int)
    requires
        0 <= n,
        s.no_duplicates(),
        forall|p: int| 0 <= p < s.len() ==> 0 <= #[trigger] s[p] < n,
    ensures
        s.len() <= n,
{
    s.unique_seq_to_set();
    lemma_int_range(0, n);
    assert(s.to_set().subset_of(set_int_range(0, n)));
    lemma_len_subset(s.to_set(), set_int_range(0, n));
}

/// A list in which every number below `n` occurs has at least `n` entries.
proof fn lemma_covering_list_long(s: Seq<int>, n: int)
    requires
        0 <= n,
        forall|i: int| 0 <= i < n ==> s.contains(i),
    ensures
        s.len() >= n,
{
    s.lemma_cardinality_of_set();
    lemma_int_range(0, n);
    seq_to_set_is_finite(s);
    assert(set_int_range(0, n).subset_of(s.to_set()));
    lemma_len_subset(set_int_range(0, n), s.to_set());
}

/// A list of `n` distinct numbers below `n` holds each of them.
pub(crate) proof fn lemma_full_list_covers(s: Seq<int>, n: int)
    requires
        s.len() == n,
        s.no_duplicates(),
        forall|p: int| 0 <= p < s.len() ==> 0 <= #[trigger] s[p] < n,
    ensures
        forall|i: int| 0 <= i < n ==> s.contains(i),
{
    s.unique_seq_to_set();
    lemma_int_range(0, n);
    seq_to_set_is_finite(s);
    assert(s.to_set().subset_of(set_int_range(0, n)));
    lemma_subset_equality(s.to_set(), set_int_range(0, n));
    assert forall|i: int| 0 <= i < n implies s.contains(i) by {
        assert(set_int_range(0, n).contains(i));
        assert(s.to_set().contains(i));
    }
}

/// In a launch prefix a dependency of a started node stands in front of it.
proof fn lemma_dependency_stands_earlier(g: Seq<Seq<int>>, order: Seq<int>, p: int, b: int)
    requires
        is_launch_prefix(g, order),
        0 <= p < order.len(),
        needs(g, order[p], b),
    ensures
        exists|q: int| 0 <= q < p && order[q] == b,
{
    let a = order[p];
    let k = choose|k: int| 0 <= k < g[a].len() && g[a][k] == b;
    assert(ready(g, order.take(p), a));
    assert(order.take(p).contains(g[a][k]));
    let q = choose|q: int| 0 <= q < order.take(p).len() && order.take(p)[q] == b;
    assert(order[q] == b);
}

/// Walking a dependency path from position `p` of a launch order only moves
/// towards the front.
proof fn lemma_path_moves_forward(g: Seq<Seq<int>>, order: Seq<int>, path: Seq<int>, p: int)
    requires
        is_launch_prefix(g, order),
        is_dependency_path(g, path),
        path.len() >= 1,
        0 <= p < order.len(),
        order[p] == path[0],
    ensures
        exists|q: int| 0 <= q <= p && order[q] == path.last() && (path.len() >= 2 ==> q < p),
    decreases path.len(),
{
    if path.len() >= 2 {
        assert(needs(g, path[0], path[1]));
        lemma_dependency_stands_earlier(g, order, p, path[1]);
        let q = choose|q: int| 0 <= q < p && order[q] == path[1];
        let rest = path.subrange(1, path.len() as int);
        assert forall|k: int| 0 <= k < rest.len() - 1 implies needs(
            g,
            #[trigger] rest[k],
            rest[k + 1],
        ) by {
            assert(needs(g, path[k + 1], path[k + 2]));
        }
        lemma_path_moves_forward(g, order, rest, q);
    }
}

/// A graph that has a launch order has no cycle.
pub proof fn lemma_launch_order_excludes_cycles(g: Seq<Seq<int>>, order: Seq<int>)
    requires
        is_launch_order(g, order),
    ensures
        acyclic(g),
{
    assert forall|v: int| !on_cycle(g, v) by {
        if on_cycle(g, v) {
            let path = choose|path: Seq<int>| is_cycle_through(g, path, v);
            assert(needs(g, path[0], path[1]));
            lemma_full_list_covers(order, g.len() as int);
            assert(order.contains(v));
            let p = choose|p: int| 0 <= p < order.len() && order[p] == v;
            lemma_path_moves_forward(g, order, path, p);
        }
    }
}

/// The launch order is unique: two orders that both follow the rule are equal.
pub proof fn lemma_launch_order_unique(g: Seq<Seq<int>>, first: Seq<int>, second: Seq<int>)
    requires
        is_launch_order(g, first),
        is_launch_order(g, second),
    ensures
        first == second,
{
    lemma_launch_prefixes_agree(g, first, second, g.len() as int);
    assert(first.take(g.len() as int) == first);
    assert(second.take(g.len() as int) == second);
}

/// Two launch prefixes agree on their first `n` positions.
proof fn lemma_launch_prefixes_agree(g: Seq<Seq<int>>, first: Seq<int>, second: Seq<int>, n: int)
    requires
        is_launch_prefix(g, first),
        is_launch_prefix(g, second),
        0 <= n <= first.len(),
        n <= second.len(),
    ensures
        first.take(n) == second.take(n),
    decreases n,
{
    if n > 0 {
        let p = n - 1;
        lemma_launch_prefixes_agree(g, first, second, p);
        let a = first[p];
        let b = second[p];
        assert(ready(g, first.take(p), a));
        assert(ready(g, second.take(p), b));
        assert(!first.take(p).contains(a)) by {
            if first.take(p).contains(a) {
                let q = choose|q: int| 0 <= q < p && first.take(p)[q] == a;
                assert(first[q] == first[p]);
            }
        }
        assert(!second.take(p).contains(b)) by {
            if second.take(p).contains(b) {
                let q = choose|q: int| 0 <= q < p && second.take(p)[q] == b;
                assert(second[q] == second[p]);
            }
        }
        if a < b {
            assert(!ready(g, second.take(p), a));
        } else if b < a {
            assert(!ready(g, first.take(p), b));
        }
        assert(first.take(n) == first.take(p).push(a));
        assert(second.take(n) == second.take(p).push(b));
    }
}

/// Whether every node listed in `wanted` is marked in `started`.
fn all_started(wanted: &Vec<usize>, started: &Vec<bool>) -> (all: bool)
    requires
        forall|k: int| 0 <= k < wanted.len() ==> wanted[k] < started.len(),
    ensures
        all == forall|k: int| 0 <= k < wanted.len() ==> started[#[trigger] wanted[k] as int],
{
    let mut k: usize = 0;
    while k < wanted.len()
        invariant
            k <= wanted.len(),
            forall|j: int| 0 <= j < wanted.len() ==> wanted[j] < started.len(),
            forall|j: int| 0 <= j < k ==> started[#[trigger] wanted[j] as int],
        decreases wanted.len() - k,
    {
        if !started[wanted[k]] {
            return false;
        }
        k += 1;
    }
    true
}

/// A vector of `n` cleared marks.
fn cleared_marks(n: usize) -> (marks: Vec<bool>)
    ensures
        marks.len() == n,
        forall|i: int| 0 <= i < n ==> !marks[i],
{
    let mut marks: Vec<bool> = Vec::new();
    while marks.len() < n
        invariant
            marks.len() <= n,
            forall|i: int| 0 <= i < marks.len() ==> !marks[i],
        decreases n - marks.len(),
    {
        marks.push(false);
    }
    marks
}

/// The first node that is not marked in `started`.
fn first_unstarted(started: &Vec<bool>, Ghost(order): Ghost<Seq<int>>) -> (first: usize)
    requires
        order.len() < started.len(),
        forall|i: int| 0 <= i < started.len() ==> (started[i] <==> order.contains(i)),
    ensures
        first < started.len(),
        !started[first as int],
{
    let n = started.len();
    let mut first: usize = 0;
    while first < n && started[first]
        invariant
            n == started.len(),
            first <= n,
            forall|i: int| 0 <= i < first ==> started[i],
        decreases n - first,
    {
        first += 1;
    }
    proof {
        if first == n {
            lemma_covering_list_long(order, n as int);
        }
    }
    first
}

/// The first dependency of `node` that is not marked in `started`. There is
/// one whenever `node` is not ready.
fn first_unstarted_dependency(
    deps: &Vec<Vec<usize>>,
    started: &Vec<bool>,
    node: usize,
    Ghost(order): Ghost<Seq<int>>,
) -> (next: usize)
    requires
        closed_graph(adjacency(deps@)),
        started.len() == deps.len(),
        node < deps.len(),
        forall|i: int| 0 <= i < deps.len() ==> (started[i] <==> order.contains(i)),
        !ready(adjacency(deps@), order, node as int),
    ensures
        next < deps.len(),
        !started[next as int],
        needs(adjacency(deps@), node as int, next as int),
{
    let ghost g = adjacency(deps@);
    let wanted = &deps[node];
    assert forall|j: int| 0 <= j < wanted.len() implies wanted[j] < started.len() by {
        assert(0 <= g[node as int][j] < g.len());
    }
    let mut k: usize = 0;
    while k < wanted.len() && started[wanted[k]]
        invariant
            k <= wanted.len(),
            forall|j: int| 0 <= j < wanted.len() ==> wanted[j] < started.len(),
            forall|j: int| 0 <= j < k ==> started[#[trigger] wanted[j] as int],
        decreases wanted.len() - k,
    {
        k += 1;
    }
    proof {
        if k == wanted.len() {
            assert forall|j: int| 0 <= j < g[node as int].len() implies order.contains(
                #[trigger] g[node as int][j],
            ) by {
                assert(started[wanted[j] as int]);
            }
        }
        assert(g[node as int][k as int] == wanted[k as int]);
    }
    wanted[k]
}

/// A walk along dependencies whose next step returns to a node already on it
/// closes a cycle through that node.
proof fn lemma_walk_closes_cycle(g: Seq<Seq<int>>, walk: Seq<int>, at: int, next: int)
    requires
        is_dependency_path(g, walk),
        0 <= at < walk.len(),
        walk[at] == next,
        needs(g, walk.last(), next),
    ensures
        on_cycle(g, next),
{
    let path = walk.subrange(at, walk.len() as int).push(next);
    assert forall|k: int| 0 <= k < path.len() - 1 implies needs(
        g,
        #[trigger] path[k],
        path[k + 1],
    ) by {
        if k < path.len() - 2 {
            assert(needs(g, walk[at + k], walk[at + k + 1]));
            assert(path[k] == walk[at + k]);
            assert(path[k + 1] == walk[at + k + 1]);
        } else {
            assert(path[k] == walk.last());
        }
    }
    assert(is_cycle_through(g, path, next));
}

/// Extending a walk by a node that is not on it yet keeps its nodes distinct,
/// and keeps it a dependency path when the last node needs the new one.
proof fn lemma_walk_grows(g: Seq<Seq<int>>, walk: Seq<int>, next: int)
    requires
        walk.no_duplicates(),
        !walk.contains(next),
        is_dependency_path(g, walk),
        walk.len() > 0 ==> needs(g, walk.last(), next),
    ensures
        walk.push(next).no_duplicates(),
        is_dependency_path(g, walk.push(next)),
{
    let longer = walk.push(next);
    assert forall|p: int, q: int|
        0 <= p < longer.len() && 0 <= q < longer.len() && p != q implies longer[p] != longer[q] by {
        if p == walk.len() {
            assert(walk.contains(longer[q]));
        } else if q == walk.len() {
            assert(walk.contains(longer[p]));
        }
    }
    assert forall|k: int| 0 <= k < longer.len() - 1 implies needs(
        g,
        #[trigger] longer[k],
        longer[k + 1],
    ) by {
        if k < walk.len() - 1 {
            assert(needs(g, walk[k], walk[k + 1]));
        }
    }
}

/// Finds a node on a cycle once the launch order can no longer grow: none of
/// the nodes that have not started is ready. Starting from the first of them,
/// the search keeps stepping to the first dependency that has not started
/// either, until it steps onto a node for the second time.
fn find_cycle_node(deps: &Vec<Vec<usize>>, started: &Vec<bool>, Ghost(order): Ghost<Seq<int>>) -> (v:
    usize)
    requires
        closed_graph(adjacency(deps@)),
        started.len() == deps.len(),
        order.len() < deps.len(),
        forall|i: int| 0 <= i < deps.len() ==> (started[i] <==> order.contains(i)),
        forall|i: int| 0 <= i < deps.len() && !started[i] ==> !ready(adjacency(deps@), order, i),
    ensures
        on_cycle(adjacency(deps@), v as int),
{
    let ghost g = adjacency(deps@);
    let n = deps.len();
    let mut seen = cleared_marks(n);
    let mut current: usize = first_unstarted(started, Ghost(order));
    let ghost mut walk: Seq<int> = Seq::empty();
    while !seen[current]
        invariant
            g == adjacency(deps@),
            closed_graph(g),
            n == deps.len(),
            started.len() == n,
            seen.len() == n,
            current < n,
            !started[current as int],
            forall|i: int| 0 <= i < n ==> (started[i] <==> order.contains(i)),
            forall|i: int| 0 <= i < n && !started[i] ==> !ready(g, order, i),
            walk.no_duplicates(),
            forall|p: int| 0 <= p < walk.len() ==> 0 <= #[trigger] walk[p] < n,
            forall|i: int| 0 <= i < n ==> (seen[i] <==> walk.contains(i)),
            is_dependency_path(g, walk),
            walk.len() > 0 ==> needs(g, walk.last(), current as int),
        decreases n - walk.len(),
    {
        let ghost shorter = walk;
        let ghost marked = current as int;
        proof {
            lemma_walk_grows(g, shorter, marked);
            lemma_distinct_numbers_bounded(shorter.push(marked), n as int);
            walk = shorter.push(marked);
        }
        seen.set(current, true);
        assert forall|i: int| 0 <= i < n implies (seen[i] <==> walk.contains(i)) by {
            lemma_seq_contains_after_push(shorter, marked, i);
        }
        current = first_unstarted_dependency(deps, started, current, Ghost(order));
    }
    proof {
        assert(walk.contains(current as int));
        let at = choose|at: int| 0 <= at < walk.len() && walk[at] == current as int;
        lemma_walk_closes_cycle(g, walk, at, current as int);
    }
    current
}

/// The smallest-numbered node that has not started and is ready, if there is
/// one.
fn next_ready(deps: &Vec<Vec<usize>>, started: &Vec<bool>, Ghost(order): Ghost<Seq<int>>) -> (next:
    Option<usize>)
    requires
        closed_graph(adjacency(deps@)),
        started.len() == deps.len(),
        forall|i: int| 0 <= i < deps.len() ==> (started[i] <==> order.contains(i)),
    ensures
        match next {
            Some(i) => {
                &&& i < deps.len()
                &&& !started[i as int]
                &&& ready(adjacency(deps@), order, i as int)
                &&& forall|j: int| 0 <= j < i ==> started[j] || !ready(adjacency(deps@), order, j)
            },
            None => forall|j: int|
                0 <= j < deps.len() ==> started[j] || !ready(adjacency(deps@), order, j),
        },
{
    let ghost g = adjacency(deps@);
    let n = deps.len();
    let mut i: usize = 0;
    while i < n
        invariant
            g == adjacency(deps@),
            closed_graph(g),
            n == deps.len(),
            started.len() == n,
            i <= n,
            forall|i: int| 0 <= i < n ==> (started[i] <==> order.contains(i)),
            forall|j: int| 0 <= j < i ==> started[j] || !ready(g, order, j),
        decreases n - i,
    {
        assert forall|k: int| 0 <= k < deps[i as int].len() implies deps[i as int][k]
            < started.len() by {
            assert(0 <= g[i as int][k] < g.len());
        }
        if !started[i] {
            if all_started(&deps[i], started) {
                assert forall|k: int| 0 <= k < g[i as int].len() implies order.contains(
                    #[trigger] g[i as int][k],
                ) by {
                    assert(started[deps[i as int][k] as int]);
                }
                return Some(i);
            }
            proof {
                let k = choose|k: int|
                    0 <= k < deps[i as int].len() && !started[#[trigger] deps[i as int][k] as int];
                assert(g[i as int][k] == deps[i as int][k]);
                assert(!order.contains(g[i as int][k]));
            }
        }
        i += 1;
    }
    None
}

/// A launch prefix stays one when the smallest-numbered node that is ready
/// and has not started is put at its end.
proof fn lemma_prefix_grows(g: Seq<Seq<int>>, order: Seq<int>, next: int)
    requires
        is_launch_prefix(g, order),
        0 <= next < g.len(),
        !order.contains(next),
        ready(g, order, next),
        forall|j: int| 0 <= j < next && !order.contains(j) ==> !ready(g, order, j),
    ensures
        is_launch_prefix(g, order.push(next)),
{
    let longer = order.push(next);
    assert(longer.take(order.len() as int) == order);
    assert forall|p: int| 0 <= p < order.len() implies longer.take(p) == order.take(p) by {}
    assert forall|p: int, q: int|
        0 <= p < longer.len() && 0 <= q < longer.len() && p != q implies longer[p] != longer[q] by {
        if p == order.len() {
            assert(order.contains(longer[q]));
        } else if q == order.len() {
            assert(order.contains(longer[p]));
        }
    }
    assert forall|p: int| 0 <= p < longer.len() implies ready(
        g,
        longer.take(p),
        #[trigger] longer[p],
    ) by {
        if p < order.len() {
            assert(ready(g, order.take(p), order[p]));
        }
    }
    assert forall|p: int, j: int|
        0 <= p < longer.len() && 0 <= j < longer[p] && !longer.take(p).contains(
            j,
        ) implies !#[trigger] ready(g, longer.take(p), j) by {
        if p < order.len() {
            assert(!ready(g, order.take(p), j));
        }
    }
}

/// Computes the launch order of a graph, or names a node that lies on a
/// dependency cycle when there is none.
///
/// `deps[i]` lists the nodes that node `i` depends on. On success the result
/// holds every node once, each behind all of its dependencies; among the nodes
/// that could go next the smallest number always goes first. A cycle (a node
/// that depends on itself counts) makes the whole call fail: no partial order
/// is returned.
pub fn launch_order(deps: &Vec<Vec<usize>>) -> (outcome: Result<Vec<usize>, usize>)
    requires
        closed_graph(adjacency(deps@)),
    ensures
        match outcome {
            Ok(order) => is_launch_order(adjacency(deps@), numbers_of(order@)),
            Err(v) => on_cycle(adjacency(deps@), v as int),
        },
        outcome is Ok <==> acyclic(adjacency(deps@)),
{
    let ghost g = adjacency(deps@);
    let n = deps.len();
    let mut started = cleared_marks(n);
    let mut order: Vec<usize> = Vec::new();
    while order.len() < n
        invariant
            g == adjacency(deps@),
            closed_graph(g),
            n == deps.len(),
            started.len() == n,
            order.len() <= n,
            is_launch_prefix(g, numbers_of(order@)),
            forall|i: int| 0 <= i < n ==> (started[i] <==> numbers_of(order@).contains(i)),
        decreases n - order.len(),
    {
        let ghost so_far = numbers_of(order@);
        match next_ready(deps, &started, Ghost(so_far)) {
            Some(next) => {
                proof {
                    assert forall|j: int| 0 <= j < next && !so_far.contains(j) implies !ready(
                        g,
                        so_far,
                        j,
                    ) by {
                        assert(!started[j]);
                    }
                    lemma_prefix_grows(g, so_far, next as int);
                }
                started.set(next, true);
                order.push(next);
                proof {
                    assert(numbers_of(order@) == so_far.push(next as int));
                    lemma_distinct_numbers_bounded(numbers_of(order@), n as int);
                    assert forall|i: int| 0 <= i < n implies (started[i] <==> numbers_of(
                        order@,
                    ).contains(i)) by {
                        lemma_seq_contains_after_push(so_far, next as int, i);
                    }
                }
            },
            None => {
                let v = find_cycle_node(deps, &started, Ghost(so_far));
                return Err(v);
            },
        }
    }
    proof {
        lemma_launch_order_excludes_cycles(g, numbers_of(order@));
    }
    Ok(order)
}

} // verus!
